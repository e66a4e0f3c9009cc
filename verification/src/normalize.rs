use crate::frequency::{count_values, terms_of, FrequencyTable};
use crate::text::{
    chars_of, lowercase, same_text, string_of, strip, strip_range, word_ranges, words, CharClass,
};
use stopwords::Stopwords;
use vstd::prelude::*;

verus! {

/// A language for which a stop-word list may be asked.
#[derive(Clone, Copy, Debug, PartialEq, Eq, Structural)]
pub enum StopLanguage {
    /// Arabic.
    Arabic,
    /// Dutch.
    Dutch,
    /// English.
    English,
    /// French.
    French,
    /// German.
    German,
    /// Greek.
    Greek,
    /// Italian.
    Italian,
    /// Portuguese.
    Portuguese,
    /// Russian.
    Russian,
    /// Spanish.
    Spanish,
}

/// The normal form of a word: without the characters at its two ends that
/// are neither letters nor numbers, in lower case.
pub open spec fn normal_form(w: Seq<char>) -> Seq<char> {
    lowercase(strip(w, CharClass::NonAlphanumeric))
}

/// The words of a text, each in normal form.
pub open spec fn terms(text: Seq<char>) -> Seq<Seq<char>> {
    words(text).map_values(|w: Seq<char>| normal_form(w))
}

/// The test that a term is not in `list`.
pub open spec fn not_in(list: Seq<Seq<char>>) -> spec_fn(Seq<char>) -> bool {
    |t: Seq<char>| !list.contains(t)
}

/// The terms that stay: those that are not in the stop-word list; all of
/// them where there is no list.
pub open spec fn kept(ts: Seq<Seq<char>>, stops: Option<Seq<Seq<char>>>) -> Seq<Seq<char>> {
    match stops {
        Some(list) => ts.filter(not_in(list)),
        None => ts,
    }
}

/// A stop-word list, where there is one, by the characters of its words.
pub open spec fn stops_view(stops: Option<Vec<String>>) -> Option<Seq<Seq<char>>> {
    match stops {
        Some(list) => Some(terms_of(list@)),
        None => None,
    }
}

/// The language whose stop-word list belongs to a two-letter language
/// code; none for any other string.
pub open spec fn stop_language_of(code: Seq<char>) -> Option<StopLanguage> {
    if code == "en"@ {
        Some(StopLanguage::English)
    } else if code == "fr"@ {
        Some(StopLanguage::French)
    } else if code == "de"@ {
        Some(StopLanguage::German)
    } else if code == "es"@ {
        Some(StopLanguage::Spanish)
    } else if code == "it"@ {
        Some(StopLanguage::Italian)
    } else if code == "pt"@ {
        Some(StopLanguage::Portuguese)
    } else if code == "el"@ {
        Some(StopLanguage::Greek)
    } else if code == "nl"@ {
        Some(StopLanguage::Dutch)
    } else if code == "ru"@ {
        Some(StopLanguage::Russian)
    } else if code == "ar"@ {
        Some(StopLanguage::Arabic)
    } else {
        None
    }
}

/// The language whose stop-word list belongs to a two-letter language
/// code; none for any other string.
pub fn stop_language(lang_code: &str) -> (r: Option<StopLanguage>)
    ensures
        r == stop_language_of(lang_code@),
{
    if same_text(lang_code, "en") {
        Some(StopLanguage::English)
    } else if same_text(lang_code, "fr") {
        Some(StopLanguage::French)
    } else if same_text(lang_code, "de") {
        Some(StopLanguage::German)
    } else if same_text(lang_code, "es") {
        Some(StopLanguage::Spanish)
    } else if same_text(lang_code, "it") {
        Some(StopLanguage::Italian)
    } else if same_text(lang_code, "pt") {
        Some(StopLanguage::Portuguese)
    } else if same_text(lang_code, "el") {
        Some(StopLanguage::Greek)
    } else if same_text(lang_code, "nl") {
        Some(StopLanguage::Dutch)
    } else if same_text(lang_code, "ru") {
        Some(StopLanguage::Russian)
    } else if same_text(lang_code, "ar") {
        Some(StopLanguage::Arabic)
    } else {
        None
    }
}

/// The stop-word list that the `stopwords` crate has for a language under
/// its provider `Spark`, if it has one.
pub uninterp spec fn spark_stop_list(lang: StopLanguage) -> Option<Seq<Seq<char>>>;

/// `Spark::stopwords` of the `stopwords` crate: the list is a fixed one per
/// language, referred to as `spark_stop_list`. The provider has a list for
/// each of these languages but Greek and Arabic.
#[verifier::external_body]
fn spark_stopwords(lang: StopLanguage) -> (r: Option<Vec<String>>)
    ensures
        stops_view(r) == spark_stop_list(lang),
        r is None <==> (lang == StopLanguage::Greek || lang == StopLanguage::Arabic),
{
    let language = match lang {
        StopLanguage::Arabic => stopwords::Language::Arabic,
        StopLanguage::Dutch => stopwords::Language::Dutch,
        StopLanguage::English => stopwords::Language::English,
        StopLanguage::French => stopwords::Language::French,
        StopLanguage::German => stopwords::Language::German,
        StopLanguage::Greek => stopwords::Language::Greek,
        StopLanguage::Italian => stopwords::Language::Italian,
        StopLanguage::Portuguese => stopwords::Language::Portuguese,
        StopLanguage::Russian => stopwords::Language::Russian,
        StopLanguage::Spanish => stopwords::Language::Spanish,
    };
    stopwords::Spark::stopwords(language).map(|ws| ws.iter().map(|w| w.to_string()).collect())
}

/// The stop-word list that is used for a language code.
pub open spec fn stop_list_for(code: Seq<char>) -> Option<Seq<Seq<char>>> {
    match stop_language_of(code) {
        Some(lang) => spark_stop_list(lang),
        None => None,
    }
}

/// The words of `text` in normal form, in order.
pub fn normalize_tokens(text: &str) -> (r: Vec<String>)
    ensures
        terms_of(r@) == terms(text@),
{
    let chars = chars_of(text);
    let ranges = word_ranges(&chars);
    let mut out: Vec<String> = Vec::new();
    let mut i: usize = 0;
    while i < ranges.len()
        invariant
            i <= ranges.len() == words(chars@).len(),
            chars@ == text@,
            forall|j: int|
                0 <= j < ranges.len() ==> {
                    &&& (#[trigger] ranges[j]).0 < ranges[j].1 <= chars.len()
                    &&& chars@.subrange(ranges[j].0 as int, ranges[j].1 as int) == words(chars@)[j]
                },
            out.len() == i,
            forall|j: int| 0 <= j < i ==> (#[trigger] out[j])@ == normal_form(words(chars@)[j]),
        decreases ranges.len() - i,
    {
        let (lo, hi) = ranges[i];
        let (a, b) = strip_range(&chars, lo, hi, CharClass::NonAlphanumeric);
        let bare = string_of(&chars, a, b);
        out.push(bare.as_str().to_lowercase());
        i += 1;
    }
    proof {
        assert(terms_of(out@) =~= terms(text@));
    }
    out
}

/// Whether `term` is one of the words of `list`.
pub fn is_stop_word(term: &String, list: &Vec<String>) -> (r: bool)
    ensures
        r == terms_of(list@).contains(term@),
{
    let mut i: usize = 0;
    while i < list.len()
        invariant
            i <= list.len(),
            forall|j: int| 0 <= j < i ==> terms_of(list@)[j] != term@,
        decreases list.len() - i,
    {
        if list[i] == *term {
            assert(terms_of(list@)[i as int] == term@);
            return true;
        }
        i += 1;
    }
    false
}

/// The terms of `tokens` that stay, in order.
pub fn drop_stop_words(tokens: &Vec<String>, stops: &Option<Vec<String>>) -> (r: Vec<String>)
    ensures
        terms_of(r@) == kept(terms_of(tokens@), stops_view(*stops)),
{
    let ghost ts = terms_of(tokens@);
    let mut out: Vec<String> = Vec::new();
    let mut i: usize = 0;
    proof {
        reveal(Seq::filter);
        assert(ts.take(0) =~= Seq::<Seq<char>>::empty());
        assert(terms_of(out@) =~= Seq::<Seq<char>>::empty());
    }
    while i < tokens.len()
        invariant
            i <= tokens.len(),
            ts == terms_of(tokens@),
            terms_of(out@) == kept(ts.take(i as int), stops_view(*stops)),
        decreases tokens.len() - i,
    {
        let stays = match stops {
            Some(list) => !is_stop_word(&tokens[i], list),
            None => true,
        };
        let ghost before = terms_of(out@);
        proof {
            reveal(Seq::filter);
            assert(ts.take(i + 1).drop_last() =~= ts.take(i as int));
            assert(ts.take(i + 1).last() == tokens@[i as int]@);
        }
        if stays {
            out.push(tokens[i].clone());
            proof {
                assert(terms_of(out@) =~= before.push(tokens@[i as int]@));
                if stops is None {
                    assert(ts.take(i + 1) =~= ts.take(i as int).push(tokens@[i as int]@));
                }
            }
        }
        i += 1;
    }
    proof {
        assert(ts.take(tokens.len() as int) =~= ts);
    }
    out
}

/// Counts the terms of `text` that are not in the stop-word list; all of
/// them where there is no list.
pub fn normalize_with(text: &str, stops: &Option<Vec<String>>) -> (r: FrequencyTable)
    ensures
        r.wf(),
        r@ == kept(terms(text@), stops_view(*stops)).to_multiset(),
{
    let tokens = normalize_tokens(text);
    let staying = drop_stop_words(&tokens, stops);
    count_values(&staying)
}

/// Counts the terms of `text` that are no stop-words of the language with
/// code `lang_code`. Where the code is that of no language with a
/// stop-word list, every term is counted.
pub fn remove_stopwords(text: &str, lang_code: &str) -> (r: FrequencyTable)
    ensures
        r.wf(),
        r@ == kept(terms(text@), stop_list_for(lang_code@)).to_multiset(),
        stop_language_of(lang_code@) is None || stop_language_of(lang_code@) == Some(
            StopLanguage::Greek,
        ) || stop_language_of(lang_code@) == Some(StopLanguage::Arabic) ==> r@ == terms(
            text@,
        ).to_multiset(),
{
    let stops = match stop_language(lang_code) {
        Some(lang) => spark_stopwords(lang),
        None => None,
    };
    normalize_with(text, &stops)
}

/// Terms that are in normal form and in no stop-word list are a fixed
/// point: normalizing them and dropping stop-words gives them back.
pub proof fn lemma_normalized_fixed_point(ts: Seq<Seq<char>>, stops: Option<Seq<Seq<char>>>)
    requires
        forall|i: int| 0 <= i < ts.len() ==> normal_form(#[trigger] ts[i]) == ts[i],
        stops matches Some(list) ==> forall|i: int|
            0 <= i < ts.len() ==> !list.contains(#[trigger] ts[i]),
    ensures
        kept(ts.map_values(|w: Seq<char>| normal_form(w)), stops) == ts,
{
    assert(ts.map_values(|w: Seq<char>| normal_form(w)) =~= ts);
    if let Some(list) = stops {
        lemma_filter_all(ts, not_in(list));
    }
}

/// A filter that every element passes changes nothing.
pub proof fn lemma_filter_all(ts: Seq<Seq<char>>, pred: spec_fn(Seq<char>) -> bool)
    requires
        forall|i: int| 0 <= i < ts.len() ==> pred(#[trigger] ts[i]),
    ensures
        ts.filter(pred) == ts,
    decreases ts.len(),
{
    reveal(Seq::filter);
    if ts.len() > 0 {
        let d = ts.drop_last();
        assert forall|i: int| 0 <= i < d.len() implies pred(#[trigger] d[i]) by {
            assert(d[i] == ts[i]);
        }
        lemma_filter_all(d, pred);
        assert(d.push(ts.last()) =~= ts);
    }
}

} // verus!
