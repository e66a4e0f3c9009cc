use doc_indexer::frequency::FrequencyTable;
use doc_indexer::normalize::{
    drop_stop_words, is_stop_word, normalize_tokens, normalize_with, remove_stopwords,
    stop_language, StopLanguage,
};
use doc_indexer::text::{
    chars_of, count_chars, count_words, same_text, skip_class, skip_class_back, string_of,
    strip_range, word_ranges, CharClass,
};

fn strings(words: &[&str]) -> Vec<String> {
    words.iter().map(|w| w.to_string()).collect()
}

fn pairs(table: &FrequencyTable) -> Vec<(String, u64)> {
    let mut out: Vec<(String, u64)> =
        table.entries.iter().map(|e| (e.term.clone(), e.count)).collect();
    out.sort();
    out
}

fn pair(term: &str, count: u64) -> (String, u64) {
    (term.to_string(), count)
}

#[test]
fn tokens_are_stripped_and_lower_cased() {
    assert_eq!(
        normalize_tokens("Hello, World! (Test) 'quoted' 3rd."),
        strings(&["hello", "world", "test", "quoted", "3rd"])
    );
}

#[test]
fn inner_punctuation_stays() {
    assert_eq!(normalize_tokens("don't e-mail U.S.A."), strings(&["don't", "e-mail", "u.s.a"]));
}

#[test]
fn any_whitespace_separates_tokens() {
    assert_eq!(
        normalize_tokens("  one\ttwo\nthree\u{00A0}four\u{3000}five  "),
        strings(&["one", "two", "three", "four", "five"])
    );
}

#[test]
fn token_without_letters_becomes_the_empty_term() {
    assert_eq!(normalize_tokens("--- a ... !"), strings(&["", "a", "", ""]));
}

#[test]
fn lower_casing_knows_unicode() {
    assert_eq!(normalize_tokens("ÉCOLE Straße ΑΘΗΝΑ"), strings(&["école", "straße", "αθηνα"]));
}

#[test]
fn text_without_tokens_gives_none() {
    assert_eq!(normalize_tokens(""), Vec::<String>::new());
    assert_eq!(normalize_tokens(" \n\t "), Vec::<String>::new());
}

#[test]
fn named_stop_words_are_removed() {
    let stops = Some(strings(&["this", "is", "a"]));
    let table = normalize_with("Hello world. This is a test. Another sentence here.", &stops);
    assert_eq!(
        pairs(&table),
        vec![
            pair("another", 1),
            pair("hello", 1),
            pair("here", 1),
            pair("sentence", 1),
            pair("test", 1),
            pair("world", 1),
        ]
    );
}

#[test]
fn english_stop_words_are_removed() {
    // the English list holds "this", "is", "a" and "here"
    let table = remove_stopwords("This is a test. Another sentence here.", "en");
    assert_eq!(pairs(&table), vec![pair("another", 1), pair("sentence", 1), pair("test", 1)]);
    let table = remove_stopwords("This is a test. Another sentence here.", "unknown");
    assert_eq!(
        pairs(&table),
        vec![
            pair("a", 1),
            pair("another", 1),
            pair("here", 1),
            pair("is", 1),
            pair("sentence", 1),
            pair("test", 1),
            pair("this", 1),
        ]
    );
}

#[test]
fn stop_words_match_after_normal_form() {
    let table = remove_stopwords("THE (the) The, cat", "en");
    assert_eq!(pairs(&table), vec![pair("cat", 1)]);
}

#[test]
fn french_stop_words_are_removed() {
    let table = remove_stopwords("Le chat et le chien", "fr");
    assert_eq!(pairs(&table), vec![pair("chat", 1), pair("chien", 1)]);
}

#[test]
fn language_decides_the_stop_words() {
    let table = remove_stopwords("the cat", "fr");
    assert_eq!(pairs(&table), vec![pair("cat", 1), pair("the", 1)]);
}

#[test]
fn unmapped_language_passes_everything_through() {
    for code in ["unknown", "ja", "ko", "xx", "", "EN", "eng"] {
        let table = remove_stopwords("the cat and the hat", code);
        assert_eq!(pairs(&table), vec![pair("and", 1), pair("cat", 1), pair("hat", 1), pair("the", 2)]);
    }
}

#[test]
fn language_without_a_list_passes_everything_through() {
    for code in ["el", "ar"] {
        let table = remove_stopwords("the cat and the hat", code);
        assert_eq!(pairs(&table), vec![pair("and", 1), pair("cat", 1), pair("hat", 1), pair("the", 2)]);
    }
}

#[test]
fn empty_terms_are_counted() {
    let table = remove_stopwords("!!! ??? x", "en");
    assert_eq!(pairs(&table), vec![pair("", 2), pair("x", 1)]);
    let table = remove_stopwords("!!! ??? x", "unknown");
    assert_eq!(pairs(&table), vec![pair("", 2), pair("x", 1)]);
}

#[test]
fn empty_text_gives_an_empty_table() {
    assert_eq!(remove_stopwords("", "en").len(), 0);
    assert_eq!(remove_stopwords("", "unknown").len(), 0);
}

#[test]
fn normalize_with_uses_the_list_it_is_given() {
    let stops = Some(strings(&["cat", "hat"]));
    let table = normalize_with("The Cat, the HAT and the bat", &stops);
    assert_eq!(pairs(&table), vec![pair("and", 1), pair("bat", 1), pair("the", 3)]);
    let table = normalize_with("The Cat", &None);
    assert_eq!(pairs(&table), vec![pair("cat", 1), pair("the", 1)]);
    let table = normalize_with("The Cat", &Some(Vec::new()));
    assert_eq!(pairs(&table), vec![pair("cat", 1), pair("the", 1)]);
}

#[test]
fn stop_words_match_exactly() {
    let stops = Some(strings(&["Cat", "ca", "cats"]));
    let table = normalize_with("cat", &stops);
    assert_eq!(pairs(&table), vec![pair("cat", 1)]);
}

#[test]
fn drop_stop_words_keeps_order_and_repeats() {
    let tokens = strings(&["a", "b", "a", "c", "b"]);
    assert_eq!(drop_stop_words(&tokens, &Some(strings(&["b"]))), strings(&["a", "a", "c"]));
    assert_eq!(drop_stop_words(&tokens, &None), tokens);
}

#[test]
fn is_stop_word_looks_the_term_up() {
    let list = strings(&["a", "the"]);
    assert!(is_stop_word(&"the".to_string(), &list));
    assert!(!is_stop_word(&"The".to_string(), &list));
    assert!(!is_stop_word(&"x".to_string(), &Vec::new()));
}

#[test]
fn normalizing_normal_terms_changes_nothing() {
    let text = "hello world test another sentence here";
    let once = normalize_tokens(text);
    let kept = drop_stop_words(&once, &Some(strings(&["this", "is", "a"])));
    assert_eq!(kept, once);
    let again = normalize_tokens(&kept.join(" "));
    assert_eq!(drop_stop_words(&again, &Some(strings(&["this", "is", "a"]))), kept);
    let first = remove_stopwords(text, "en");
    let second = remove_stopwords(&kept.join(" "), "en");
    assert_eq!(pairs(&first), pairs(&second));
}

#[test]
fn stop_language_maps_the_ten_codes() {
    assert_eq!(stop_language("en"), Some(StopLanguage::English));
    assert_eq!(stop_language("fr"), Some(StopLanguage::French));
    assert_eq!(stop_language("de"), Some(StopLanguage::German));
    assert_eq!(stop_language("es"), Some(StopLanguage::Spanish));
    assert_eq!(stop_language("it"), Some(StopLanguage::Italian));
    assert_eq!(stop_language("pt"), Some(StopLanguage::Portuguese));
    assert_eq!(stop_language("el"), Some(StopLanguage::Greek));
    assert_eq!(stop_language("nl"), Some(StopLanguage::Dutch));
    assert_eq!(stop_language("ru"), Some(StopLanguage::Russian));
    assert_eq!(stop_language("ar"), Some(StopLanguage::Arabic));
    assert_eq!(stop_language("ja"), None);
    assert_eq!(stop_language("ko"), None);
    assert_eq!(stop_language("unknown"), None);
    assert_eq!(stop_language("e"), None);
    assert_eq!(stop_language("enx"), None);
}

#[test]
fn chars_and_strings_convert_both_ways() {
    let chars = chars_of("añb");
    assert_eq!(chars, vec!['a', 'ñ', 'b']);
    assert_eq!(string_of(&chars, 1, 3), "ñb");
    assert_eq!(string_of(&chars, 2, 2), "");
    assert_eq!(count_chars("añb"), 3);
    assert_eq!(count_chars(""), 0);
}

#[test]
fn words_are_counted() {
    assert_eq!(count_words("Hello world. This is a test."), 6);
    assert_eq!(count_words("   "), 0);
    assert_eq!(count_words("one"), 1);
    assert_eq!(count_words(" ... --- "), 2);
}

#[test]
fn word_ranges_bound_the_words() {
    let chars = chars_of("  ab  c d");
    assert_eq!(word_ranges(&chars), vec![(2, 4), (6, 7), (8, 9)]);
}

#[test]
fn scans_stop_at_the_class_boundary() {
    let chars = chars_of("  ab! ");
    assert_eq!(skip_class(&chars, 0, 6, CharClass::Whitespace), 2);
    assert_eq!(skip_class(&chars, 2, 6, CharClass::NonWhitespace), 5);
    assert_eq!(skip_class(&chars, 2, 6, CharClass::NonAlphanumeric), 2);
    assert_eq!(skip_class_back(&chars, 0, 6, CharClass::Whitespace), 5);
    assert_eq!(skip_class_back(&chars, 0, 5, CharClass::NonAlphanumeric), 4);
    assert_eq!(strip_range(&chars, 0, 6, CharClass::Whitespace), (2, 5));
    assert_eq!(strip_range(&chars, 2, 5, CharClass::NonAlphanumeric), (2, 4));
    assert_eq!(strip_range(&chars, 0, 2, CharClass::Whitespace), (2, 2));
}

#[test]
fn same_text_compares_characters() {
    assert!(same_text("en", "en"));
    assert!(!same_text("en", "e"));
    assert!(!same_text("en", "eN"));
    assert!(same_text("", ""));
    assert!(same_text("añ", "añ"));
    assert!(!same_text("añ", "an"));
}
