use spellcheck::rank::spell_check;

fn dict(words: &[&str]) -> Vec<String> {
    words.iter().map(|w| w.to_string()).collect()
}

#[test]
fn ranking_order_for_cat() {
    let dictionary = dict(&["cat", "bat", "dog", "hat"]);
    let results = spell_check("cat", &dictionary);
    let pairs: Vec<(&str, usize)> = results
        .iter()
        .map(|s| (s.correct_word.as_str(), s.distance))
        .collect();
    assert_eq!(
        pairs,
        vec![("cat", 0), ("bat", 1), ("hat", 1), ("dog", 3)]
    );
}

#[test]
fn stability_keeps_dictionary_order_among_ties() {
    let dictionary = dict(&["mat", "bat", "rat", "hat", "cat"]);
    let results = spell_check("cat", &dictionary);
    // "cat" wins; the four distance-1 entries keep dictionary order.
    let words: Vec<&str> = results.iter().map(|s| s.correct_word.as_str()).collect();
    assert_eq!(words, vec!["cat", "mat", "bat", "rat", "hat"]);
    for s in results.iter().skip(1) {
        assert_eq!(s.distance, 1);
    }
}

#[test]
fn duplicates_appear_twice() {
    let dictionary = dict(&["dog", "cow", "dog"]);
    let results = spell_check("dog", &dictionary);
    let words: Vec<&str> = results.iter().map(|s| s.correct_word.as_str()).collect();
    assert_eq!(words, vec!["dog", "dog", "cow"]);
    assert_eq!(results[0].distance, 0);
    assert_eq!(results[1].distance, 0);
}

#[test]
fn empty_dictionary_yields_empty_result() {
    let dictionary: Vec<String> = Vec::new();
    let results = spell_check("anything", &dictionary);
    assert!(results.is_empty());
}

#[test]
fn truncation_of_short_result_yields_everything() {
    let dictionary = dict(&["cat", "bat", "dog", "hat"]);
    let results = spell_check("cot", &dictionary);
    let first_ten: Vec<(String, usize)> = results
        .iter()
        .take(10)
        .map(|s| (s.correct_word.clone(), s.distance))
        .collect();
    assert_eq!(first_ten.len(), results.len());
    let all: Vec<(String, usize)> = results
        .iter()
        .map(|s| (s.correct_word.clone(), s.distance))
        .collect();
    assert_eq!(first_ten, all);
}

#[test]
fn distances_are_exact() {
    let dictionary = dict(&["kitten", "sitting", "flaw"]);
    let results = spell_check("lawn", &dictionary);
    for s in &results {
        let d = spellcheck::distance::wagner_fischer("lawn", &s.correct_word);
        assert_eq!(s.distance, d);
    }
}
