use doc_indexer::document::{analyze, convert_to_fs2i, describe_chunk, vectors_for};
use doc_indexer::frequency::{merge_chunk_word_mapping, FrequencyTable};
use doc_indexer::normalize::normalize_with;
use doc_indexer::language::LanguageTag;
use doc_indexer::segment::Chunk;

fn pairs(table: &FrequencyTable) -> Vec<(String, u64)> {
    let mut out: Vec<(String, u64)> =
        table.entries.iter().map(|e| (e.term.clone(), e.count)).collect();
    out.sort();
    out
}

fn pair(term: &str, count: u64) -> (String, u64) {
    (term.to_string(), count)
}

#[test]
fn three_sentences_end_to_end() {
    let text = "Hello world. This is a test. Another sentence here.";
    let record = convert_to_fs2i(text, 20, 10);
    assert_eq!(record.language, Some(LanguageTag::En));
    assert_eq!(record.total_char_length, 51);
    assert_eq!(record.total_word_count, 9);
    let texts: Vec<&str> = record.chunks.iter().map(|c| c.chunk.text.as_str()).collect();
    assert_eq!(texts, vec!["Hello world.", "This is a test.", "Another sentence here."]);
    let stops = Some(vec!["this".to_string(), "is".to_string(), "a".to_string()]);
    let tables: Vec<FrequencyTable> =
        texts.iter().map(|t| normalize_with(t, &stops)).collect();
    assert_eq!(
        pairs(&merge_chunk_word_mapping(&tables)),
        vec![
            pair("another", 1),
            pair("hello", 1),
            pair("here", 1),
            pair("sentence", 1),
            pair("test", 1),
            pair("world", 1),
        ]
    );
    // the English list of the corpus holds "here" as well
    assert_eq!(
        pairs(&record.document_frequency_table),
        vec![pair("another", 1), pair("hello", 1), pair("sentence", 1), pair("test", 1), pair("world", 1)]
    );
    for c in &record.chunks {
        assert!(c.char_length <= 30);
        assert!(c.chunk.text.ends_with('.'));
    }
    assert_eq!(record.chunks[0].char_length, 12);
    assert_eq!(record.chunks[0].word_count, 2);
    assert_eq!(pairs(&record.chunks[0].frequency_table), vec![pair("hello", 1), pair("world", 1)]);
    assert_eq!(record.chunks[1].char_length, 15);
    assert_eq!(record.chunks[1].word_count, 4);
    assert_eq!(pairs(&record.chunks[1].frequency_table), vec![pair("test", 1)]);
    assert_eq!(record.chunks[2].char_length, 22);
    assert_eq!(record.chunks[2].word_count, 3);
    assert_eq!(
        pairs(&record.chunks[2].frequency_table),
        vec![pair("another", 1), pair("sentence", 1)]
    );
}

#[test]
fn empty_document_end_to_end() {
    let record = convert_to_fs2i("", 1200, 200);
    assert_eq!(record.chunks.len(), 0);
    assert_eq!(record.language, None);
    assert_eq!(record.document_frequency_table.len(), 0);
    assert_eq!(record.total_char_length, 0);
    assert_eq!(record.total_word_count, 0);
}

#[test]
fn document_table_sums_the_chunk_tables() {
    let text = "cat dog. cat bird. dog cat.";
    let (chunks, table) = analyze(text, "unknown", 9, 2);
    assert_eq!(chunks.len(), 3);
    assert_eq!(pairs(&chunks[0].frequency_table), vec![pair("cat", 1), pair("dog", 1)]);
    assert_eq!(pairs(&chunks[1].frequency_table), vec![pair("bird", 1), pair("cat", 1)]);
    assert_eq!(pairs(&chunks[2].frequency_table), vec![pair("cat", 1), pair("dog", 1)]);
    assert_eq!(pairs(&table), vec![pair("bird", 1), pair("cat", 3), pair("dog", 2)]);
}

#[test]
fn analysis_uses_the_language_it_is_given() {
    let text = "the cat and the dog";
    let (_, english) = analyze(text, "en", 1200, 200);
    assert_eq!(pairs(&english), vec![pair("cat", 1), pair("dog", 1)]);
    let (_, unknown) = analyze(text, "unknown", 1200, 200);
    assert_eq!(
        pairs(&unknown),
        vec![pair("and", 1), pair("cat", 1), pair("dog", 1), pair("the", 2)]
    );
}

#[test]
fn chunk_is_measured_by_its_trimmed_text() {
    let chunk = Chunk { text: "Über uns: the Team".to_string(), start: 3, end: 25 };
    let result = describe_chunk(chunk, "en");
    assert_eq!(result.char_length, 18);
    assert_eq!(result.word_count, 4);
    assert_eq!(result.chunk.start, 3);
    assert_eq!(result.chunk.end, 25);
    assert_eq!(pairs(&result.frequency_table), vec![pair("team", 1), pair("uns", 1), pair("über", 1)]);
}

#[test]
fn word_cut_by_force_is_counted_in_both_chunks() {
    let (chunks, table) = analyze("abcdefghij", "unknown", 4, 1);
    assert_eq!(chunks.len(), 3);
    assert_eq!(pairs(&table), vec![pair("abcd", 1), pair("efgh", 1), pair("ij", 1)]);
}

#[test]
fn each_chunk_gets_its_vector() {
    let vectors = vec![vec![0.5f32, 1.0], vec![2.0, 3.0]];
    assert_eq!(vectors_for(2, vectors.clone()), vectors);
}

#[test]
fn missing_vectors_are_empty() {
    let none: Vec<Vec<f32>> = Vec::new();
    assert_eq!(vectors_for(3, none), vec![Vec::<f32>::new(), Vec::new(), Vec::new()]);
    let one = vec![vec![1.5f32]];
    assert_eq!(vectors_for(3, one), vec![vec![1.5f32], Vec::new(), Vec::new()]);
    assert_eq!(vectors_for(0, Vec::<Vec<f32>>::new()), Vec::<Vec<f32>>::new());
}

#[test]
fn vectors_beyond_the_chunks_are_left_out() {
    let vectors = vec![vec![1u8], vec![2], vec![3]];
    assert_eq!(vectors_for(2, vectors), vec![vec![1u8], vec![2]]);
}
