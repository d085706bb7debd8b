use ginkou::store::Store;
use ginkou::store::StoreError;

#[test]
fn bank_lookup_works_correctly() {
    let mut conn = Store::new();
    let sentence1 = String::from("A B");
    let sentence2 = String::from("A B C");
    let s1 = conn.add_sentence(&sentence1);
    conn.add_word("A", s1).unwrap();
    conn.add_word("B", s1).unwrap();
    let s2 = conn.add_sentence(&sentence2);
    conn.add_word("A", s2).unwrap();
    conn.add_word("B", s2).unwrap();
    conn.add_word("C", s2).unwrap();
    let a_sentences = vec![sentence1.clone(), sentence2.clone()];
    assert_eq!(a_sentences, conn.matching_word("A"));
    let c_sentences = vec![sentence2.clone()];
    assert_eq!(c_sentences, conn.matching_word("C"));
}

#[test]
fn membership_is_idempotent() {
    let mut store = Store::new();
    let id = store.add_sentence("A B");
    store.add_word("A", id).unwrap();
    store.add_word("A", id).unwrap();
    assert_eq!(vec![String::from("A B")], store.matching_word("A"));
}

#[test]
fn unknown_word_gives_empty_result() {
    let mut store = Store::new();
    let id = store.add_sentence("A B");
    store.add_word("A", id).unwrap();
    assert_eq!(Vec::<String>::new(), store.matching_word("Z"));
    assert_eq!(Vec::<String>::new(), store.matching_sentences("Z", false));
}

#[test]
fn missing_sentence_id_is_refused() {
    let mut store = Store::new();
    assert_eq!(Err(StoreError::MissingSentence), store.add_word("A", 0));
    let id = store.add_sentence("A");
    assert_eq!(Ok(()), store.add_word("A", id));
    assert_eq!(Err(StoreError::MissingSentence), store.add_word("A", 7));
    // The failed insertions left nothing behind.
    assert_eq!(vec![String::from("A")], store.matching_word("A"));
}

#[test]
fn identical_text_gets_distinct_ids() {
    let mut store = Store::new();
    let first = store.add_sentence("A");
    let second = store.add_sentence("A");
    assert_ne!(first, second);
    store.add_word("A", first).unwrap();
    store.add_word("A", second).unwrap();
    assert_eq!(
        vec![String::from("A"), String::from("A")],
        store.matching_word("A")
    );
}

#[test]
fn results_come_shortest_first() {
    let mut store = Store::new();
    let long = store.add_sentence("word and more besides");
    store.add_word("word", long).unwrap();
    let short = store.add_sentence("word");
    store.add_word("word", short).unwrap();
    let middle = store.add_sentence("word and");
    store.add_word("word", middle).unwrap();
    assert_eq!(
        vec![
            String::from("word"),
            String::from("word and"),
            String::from("word and more besides"),
        ],
        store.matching_word("word")
    );
}

#[test]
fn equal_lengths_keep_insertion_order() {
    let mut store = Store::new();
    for text in ["c 1", "a 2", "b 3"] {
        let id = store.add_sentence(text);
        store.add_word("w", id).unwrap();
    }
    let expected: Vec<String> = vec!["c 1".into(), "a 2".into(), "b 3".into()];
    assert_eq!(expected, store.matching_word("w"));
    // A repeated query on the unchanged store gives the same order.
    assert_eq!(expected, store.matching_word("w"));
}

#[test]
fn capped_mode_returns_at_most_two_hundred() {
    let mut store = Store::new();
    for i in 0..250 {
        let text = format!("w {}", "a".repeat(i));
        let id = store.add_sentence(&text);
        store.add_word("w", id).unwrap();
    }
    let capped = store.matching_sentences("w", false);
    assert_eq!(200, capped.len());
    let all = store.matching_sentences("w", true);
    assert_eq!(250, all.len());
    // The capped results are the shortest ones, in ascending length.
    for (i, text) in capped.iter().enumerate() {
        assert_eq!(text.chars().count(), all[i].chars().count());
        assert!(i >= 1 || text.chars().count() <= capped[1].chars().count());
    }
    for pair in all.windows(2) {
        assert!(pair[0].chars().count() <= pair[1].chars().count());
    }
}
