use doc_indexer::frequency::{
    count_values, merge_chunk_word_mapping, total_fits, try_merge, FrequencyEntry, FrequencyTable,
};

fn strings(words: &[&str]) -> Vec<String> {
    words.iter().map(|w| w.to_string()).collect()
}

fn pairs(table: &FrequencyTable) -> Vec<(String, u64)> {
    let mut out: Vec<(String, u64)> =
        table.entries.iter().map(|e| (e.term.clone(), e.count)).collect();
    out.sort();
    out
}

fn pair(term: &str, count: u64) -> (String, u64) {
    (term.to_string(), count)
}

#[test]
fn count_values_counts_each_token() {
    let table = count_values(&strings(&["a", "b", "a", "c", "a", "b"]));
    assert_eq!(pairs(&table), vec![pair("a", 3), pair("b", 2), pair("c", 1)]);
    assert_eq!(table.len(), 3);
}

#[test]
fn count_values_keeps_first_seen_order() {
    let table = count_values(&strings(&["b", "a", "b"]));
    assert_eq!(table.entries[0].term, "b");
    assert_eq!(table.entries[0].count, 2);
    assert_eq!(table.entries[1].term, "a");
    assert_eq!(table.entries[1].count, 1);
}

#[test]
fn count_values_of_nothing_is_empty() {
    let table = count_values(&Vec::new());
    assert_eq!(table.len(), 0);
}

#[test]
fn count_values_counts_the_empty_term() {
    let table = count_values(&strings(&["", "x", ""]));
    assert_eq!(pairs(&table), vec![pair("", 2), pair("x", 1)]);
}

#[test]
fn count_values_tells_case_apart() {
    let table = count_values(&strings(&["a", "A"]));
    assert_eq!(pairs(&table), vec![pair("A", 1), pair("a", 1)]);
}

#[test]
fn table_answers_lookups() {
    let table = count_values(&strings(&["x", "y", "x"]));
    assert_eq!(table.count(&"x".to_string()), 2);
    assert_eq!(table.count(&"y".to_string()), 1);
    assert_eq!(table.count(&"z".to_string()), 0);
    assert_eq!(table.position(&"y".to_string()), Some(1));
    assert_eq!(table.position(&"z".to_string()), None);
}

#[test]
fn record_adds_to_an_entry_or_makes_one() {
    let mut table = FrequencyTable::new();
    table.record("a".to_string(), 2);
    table.record("b".to_string(), 1);
    table.record("a".to_string(), 5);
    assert_eq!(pairs(&table), vec![pair("a", 7), pair("b", 1)]);
}

#[test]
fn absorb_adds_another_table() {
    let mut table = count_values(&strings(&["a", "b"]));
    let other = count_values(&strings(&["b", "c", "b"]));
    table.absorb(&other);
    assert_eq!(pairs(&table), vec![pair("a", 1), pair("b", 3), pair("c", 1)]);
    assert_eq!(pairs(&other), vec![pair("b", 2), pair("c", 1)]);
}

#[test]
fn merge_sums_counts_by_term() {
    let a = count_values(&strings(&["x", "y", "x"]));
    let b = count_values(&strings(&["y", "z"]));
    let c = count_values(&strings(&["x"]));
    let merged = merge_chunk_word_mapping(&vec![a, b, c]);
    assert_eq!(pairs(&merged), vec![pair("x", 3), pair("y", 2), pair("z", 1)]);
}

#[test]
fn merge_does_not_depend_on_order() {
    let words_a = ["the", "cat", "the", "hat"];
    let words_b = ["hat", "trick", "cat", "cat"];
    let ab = merge_chunk_word_mapping(&vec![
        count_values(&strings(&words_a)),
        count_values(&strings(&words_b)),
    ]);
    let ba = merge_chunk_word_mapping(&vec![
        count_values(&strings(&words_b)),
        count_values(&strings(&words_a)),
    ]);
    assert_eq!(pairs(&ab), pairs(&ba));
    assert_eq!(pairs(&ab), vec![pair("cat", 3), pair("hat", 2), pair("the", 2), pair("trick", 1)]);
}

#[test]
fn merge_of_nothing_is_empty() {
    assert_eq!(merge_chunk_word_mapping(&Vec::new()).len(), 0);
    let empty = vec![FrequencyTable::new(), FrequencyTable::new()];
    assert_eq!(merge_chunk_word_mapping(&empty).len(), 0);
}

#[test]
fn merge_has_no_entry_for_an_absent_term() {
    let a = count_values(&strings(&["x"]));
    let merged = merge_chunk_word_mapping(&vec![a]);
    assert_eq!(merged.position(&"y".to_string()), None);
    assert!(merged.entries.iter().all(|e| e.count >= 1));
}

#[test]
fn merge_joins_entries_of_one_term_and_drops_empty_counts() {
    let table = FrequencyTable {
        entries: vec![
            FrequencyEntry { term: "a".to_string(), count: 2 },
            FrequencyEntry { term: "b".to_string(), count: 0 },
            FrequencyEntry { term: "a".to_string(), count: 3 },
        ],
    };
    let merged = merge_chunk_word_mapping(&vec![table]);
    assert_eq!(pairs(&merged), vec![pair("a", 5)]);
}

#[test]
fn merge_keeps_numerals_as_terms() {
    let a = count_values(&strings(&["42", "x"]));
    let b = count_values(&strings(&["42"]));
    let merged = merge_chunk_word_mapping(&vec![a, b]);
    assert_eq!(pairs(&merged), vec![pair("42", 2), pair("x", 1)]);
}

#[test]
fn total_fits_tells_when_counts_overflow() {
    let big = FrequencyTable {
        entries: vec![FrequencyEntry { term: "a".to_string(), count: u64::MAX }],
    };
    let one = FrequencyTable {
        entries: vec![FrequencyEntry { term: "b".to_string(), count: 1 }],
    };
    assert!(total_fits(&vec![count_values(&strings(&["a", "b"]))]));
    assert!(total_fits(&Vec::new()));
    assert!(!total_fits(&vec![big, one]));
    let big = FrequencyTable {
        entries: vec![FrequencyEntry { term: "a".to_string(), count: u64::MAX }],
    };
    assert!(total_fits(&vec![big]));
}

#[test]
fn try_merge_merges_what_fits() {
    let a = count_values(&strings(&["x", "y"]));
    let b = count_values(&strings(&["y"]));
    let merged = try_merge(&vec![a, b]).expect("two small tables fit");
    assert_eq!(pairs(&merged), vec![pair("x", 1), pair("y", 2)]);
    let big = FrequencyTable {
        entries: vec![FrequencyEntry { term: "a".to_string(), count: u64::MAX }],
    };
    let one = FrequencyTable {
        entries: vec![FrequencyEntry { term: "a".to_string(), count: 1 }],
    };
    assert!(try_merge(&vec![big, one]).is_none());
}
