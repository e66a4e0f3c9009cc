use crate::frequency::{merged, FrequencyTable};
use crate::language::{
    detect_language, iso_table, label_view, language_label, primary_choice, whatlang_guess,
    LanguageTag,
};
use crate::normalize::{kept, not_in, remove_stopwords, stop_list_for, terms};
use crate::segment::{chunk_text, lemma_spans_tile, spans, Chunk};
use crate::text::{
    count_chars, count_words, lemma_strip_len, lemma_words_len, trim, words, CharClass,
};
use vstd::multiset::Multiset;
use vstd::prelude::*;

verus! {

/// A chunk with what was measured of its text.
#[derive(Debug)]
pub struct ChunkResult {
    /// The chunk.
    pub chunk: Chunk,
    /// The number of characters of its text.
    pub char_length: usize,
    /// The number of words of its text.
    pub word_count: usize,
    /// The occurrences of the terms of its text that are no stop-words.
    pub frequency_table: FrequencyTable,
}

/// What is recorded of a document.
#[derive(Debug)]
pub struct DocumentRecord {
    /// The number of characters of the document.
    pub total_char_length: usize,
    /// The number of words of the document.
    pub total_word_count: usize,
    /// The language of the document, if one was found.
    pub language: Option<LanguageTag>,
    /// The chunks of the document, in order.
    pub chunks: Vec<ChunkResult>,
    /// The occurrences of terms over all chunks.
    pub document_frequency_table: FrequencyTable,
}

/// The frequency tables of the chunks, by their views, in order.
pub open spec fn chunk_tables(rs: Seq<ChunkResult>) -> Seq<Multiset<Seq<char>>> {
    rs.map_values(|r: ChunkResult| r.frequency_table@)
}

/// The ranges that the chunks cover, in order.
pub open spec fn chunk_spans(rs: Seq<ChunkResult>) -> Seq<(int, int)> {
    rs.map_values(|r: ChunkResult| r.chunk.span())
}

/// Whether `r` holds the measures of the text of its chunk, with the
/// stop-words of the language with code `code` left out of its table.
pub open spec fn measured(r: ChunkResult, code: Seq<char>) -> bool {
    &&& r.char_length == r.chunk.text@.len()
    &&& r.word_count == words(r.chunk.text@).len()
    &&& r.frequency_table.wf()
    &&& r.frequency_table@ == kept(terms(r.chunk.text@), stop_list_for(code)).to_multiset()
}

/// No more terms are counted of a text than it has characters.
pub proof fn lemma_kept_len(text: Seq<char>, stops: Option<Seq<Seq<char>>>)
    ensures
        kept(terms(text), stops).to_multiset().len() <= text.len(),
{
    lemma_words_len(text);
    kept(terms(text), stops).to_multiset_ensures();
    if let Some(list) = stops {
        terms(text).lemma_filter_len(not_in(list));
    }
}

/// Measures the text of a chunk.
pub fn describe_chunk(chunk: Chunk, lang_code: &str) -> (r: ChunkResult)
    ensures
        r.chunk == chunk,
        measured(r, lang_code@),
        r.frequency_table@.len() <= chunk.text@.len(),
{
    let char_length = count_chars(chunk.text.as_str());
    let word_count = count_words(chunk.text.as_str());
    let frequency_table = remove_stopwords(chunk.text.as_str(), lang_code);
    proof {
        lemma_kept_len(chunk.text@, stop_list_for(lang_code@));
    }
    ChunkResult { chunk, char_length, word_count, frequency_table }
}

/// Splits `text` into chunks, measures each, and merges their frequency
/// tables into that of the document.
pub fn analyze(text: &str, lang_code: &str, target_size: usize, tolerance: usize) -> (r: (
    Vec<ChunkResult>,
    FrequencyTable,
))
    requires
        target_size >= 1,
    ensures
        chunk_spans(r.0@) == spans(text@, target_size as int, tolerance as int),
        forall|i: int|
            0 <= i < r.0.len() ==> {
                &&& (#[trigger] r.0[i]).chunk.text@ == trim(
                    text@.subrange(r.0[i].chunk.start as int, r.0[i].chunk.end as int),
                )
                &&& measured(r.0[i], lang_code@)
            },
        r.1.wf(),
        r.1@ == merged(chunk_tables(r.0@)),
{
    let chunks = chunk_text(text, target_size, tolerance);
    let ghost s = text@;
    let ghost sp = spans(s, target_size as int, tolerance as int);
    let mut results: Vec<ChunkResult> = Vec::new();
    let mut document = FrequencyTable::new();
    let mut i: usize = 0;
    proof {
        lemma_spans_tile(s, 0, target_size as int, tolerance as int);
        assert forall|j: int| 0 <= j < chunks.len() implies 0 <= (#[trigger] chunks[j]).start
            < chunks[j].end <= s.len() by {
            assert(sp[j] == chunks[j].span());
        }
        assert forall|j: int| 0 <= j < chunks.len() - 1 implies (#[trigger] chunks[j + 1]).start
            == chunks[j].end by {
            assert(sp[j + 1] == chunks[j + 1].span());
            assert(sp[j] == chunks[j].span());
        }
        if chunks.len() > 0 {
            assert(sp[0] == chunks[0].span());
        }
        assert(chunk_tables(results@) =~= Seq::<Multiset<Seq<char>>>::empty());
        assert(chunk_spans(results@) =~= sp.take(0));
    }
    while i < chunks.len()
        invariant
            i <= chunks.len() == sp.len(),
            s == text@,
            sp == spans(s, target_size as int, tolerance as int),
            chunks@.map_values(|c: Chunk| c.span()) == sp,
            forall|j: int|
                0 <= j < chunks.len() ==> (#[trigger] chunks[j]).text@ == trim(
                    s.subrange(chunks[j].start as int, chunks[j].end as int),
                ),
            forall|j: int|
                0 <= j < chunks.len() ==> 0 <= (#[trigger] chunks[j]).start < chunks[j].end
                    <= s.len(),
            forall|j: int|
                0 <= j < chunks.len() - 1 ==> (#[trigger] chunks[j + 1]).start == chunks[j].end,
            chunks.len() > 0 ==> chunks[0].start == 0,
            results.len() == i,
            chunk_spans(results@) == sp.take(i as int),
            forall|j: int|
                0 <= j < i ==> {
                    &&& (#[trigger] results[j]).chunk.text@ == trim(
                        s.subrange(results[j].chunk.start as int, results[j].chunk.end as int),
                    )
                    &&& measured(results[j], lang_code@)
                },
            document.wf(),
            document@ == merged(chunk_tables(results@)),
            i < chunks.len() ==> document@.len() <= chunks[i as int].start,
        decreases chunks.len() - i,
    {
        let piece = Chunk {
            text: chunks[i].text.clone(),
            start: chunks[i].start,
            end: chunks[i].end,
        };
        let result = describe_chunk(piece, lang_code);
        proof {
            lemma_strip_len(
                s.subrange(chunks[i as int].start as int, chunks[i as int].end as int),
                CharClass::Whitespace,
            );
            assert(sp[i as int] == chunks[i as int].span());
        }
        document.absorb(&result.frequency_table);
        let ghost before = results@;
        results.push(result);
        proof {
            assert(chunk_tables(results@) =~= chunk_tables(before).push(result.frequency_table@));
            assert(chunk_tables(results@).drop_last() =~= chunk_tables(before));
            assert(chunk_spans(results@) =~= sp.take(i + 1));
            if i + 1 < chunks.len() {
                assert(chunks[(i as int) + 1].start == chunks[i as int].end);
            }
        }
        i += 1;
    }
    proof {
        assert(sp.take(chunks.len() as int) =~= sp);
    }
    (results, document)
}

/// Builds the record of a document: its length in characters and words,
/// its language, its chunks with their measures, and the frequency table
/// of the whole. A document without characters has no chunks, no language
/// and an empty table.
pub fn convert_to_fs2i(text: &str, target_size: usize, tolerance: usize) -> (r: DocumentRecord)
    requires
        target_size >= 1,
    ensures
        r.total_char_length == text@.len(),
        r.total_word_count == words(text@).len(),
        primary_choice(whatlang_guess(text@), iso_table()) matches Some(t) ==> r.language == Some(
            t,
        ),
        chunk_spans(r.chunks@) == spans(text@, target_size as int, tolerance as int),
        forall|i: int|
            0 <= i < r.chunks.len() ==> {
                &&& (#[trigger] r.chunks[i]).chunk.text@ == trim(
                    text@.subrange(r.chunks[i].chunk.start as int, r.chunks[i].chunk.end as int),
                )
                &&& measured(r.chunks[i], label_view(r.language))
            },
        r.document_frequency_table.wf(),
        r.document_frequency_table@ == merged(chunk_tables(r.chunks@)),
        text@.len() == 0 ==> r.language is None && r.chunks.len() == 0
            && r.document_frequency_table@ == Multiset::<Seq<char>>::empty(),
{
    let language = detect_language(text);
    let label = language_label(language);
    let (chunks, document_frequency_table) = analyze(
        text,
        label.as_str(),
        target_size,
        tolerance,
    );
    proof {
        if text@.len() == 0 {
            assert(chunk_spans(chunks@).len() == 0);
        }
    }
    DocumentRecord {
        total_char_length: count_chars(text),
        total_word_count: count_words(text),
        language,
        chunks,
        document_frequency_table,
    }
}

/// The vector that goes with each of `n` chunks: for chunk `i` the `i`-th
/// of `vectors` where there is one, an empty vector where there is none.
/// A provider that failed as a whole, and so gave no vectors, leaves every
/// chunk with an empty one.
pub fn vectors_for<T>(n: usize, vectors: Vec<Vec<T>>) -> (r: Vec<Vec<T>>)
    ensures
        r.len() == n,
        forall|i: int|
            0 <= i < n ==> (#[trigger] r[i])@ == (if i < vectors.len() {
                vectors[i]@
            } else {
                Seq::<T>::empty()
            }),
{
    let mut out = vectors;
    out.truncate(n);
    while out.len() < n
        invariant
            out.len() <= n,
            out.len() >= vectors.len() || out.len() == n,
            forall|i: int|
                0 <= i < out.len() ==> (#[trigger] out[i])@ == (if i < vectors.len() {
                    vectors[i]@
                } else {
                    Seq::<T>::empty()
                }),
        decreases n - out.len(),
    {
        out.push(Vec::new());
    }
    out
}

} // verus!
