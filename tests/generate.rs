use std::collections::HashSet;
use urlperm::perms::{candidate_urls, get_permutations_with_repetitions};

fn as_set(words: &[String]) -> HashSet<String> {
    words.iter().cloned().collect()
}

#[test]
fn two_letters_length_two() {
    let r = get_permutations_with_repetitions(vec!["a", "b"], 2);
    assert_eq!(r.len(), 4);
    let expected: HashSet<String> =
        ["aa", "ab", "ba", "bb"].iter().map(|s| s.to_string()).collect();
    assert_eq!(as_set(&r), expected);
}

#[test]
fn two_letters_length_three() {
    let r = get_permutations_with_repetitions(vec!["a", "b"], 3);
    assert_eq!(r.len(), 8);
    let set = as_set(&r);
    assert_eq!(set.len(), 8);
    for w in &set {
        assert_eq!(w.len(), 3);
        assert!(w.chars().all(|c| c == 'a' || c == 'b'));
    }
}

#[test]
fn every_word_appears_exactly_once() {
    let r = get_permutations_with_repetitions(vec!["a", "b", "c"], 2);
    assert_eq!(r.len(), 9);
    let set = as_set(&r);
    assert_eq!(set.len(), 9);
    for w in ["aa", "ab", "ac", "ba", "bb", "bc", "ca", "cb", "cc"] {
        assert!(set.contains(w));
    }
}

#[test]
fn three_letters_count_and_membership() {
    let alphabet = vec!["x", "y", "z"];
    let r = get_permutations_with_repetitions(alphabet, 4);
    assert_eq!(r.len(), 81);
    let set = as_set(&r);
    assert_eq!(set.len(), 81);
    assert!(set.contains("xyzx"));
    assert!(set.contains("zzzz"));
    assert!(!set.contains("xyz"));
}

#[test]
fn lowercase_alphabet_length_two() {
    let letters = vec![
        "a", "b", "c", "d", "e", "f", "g", "h", "i", "j", "k", "l", "m", "n", "o", "p", "q",
        "r", "s", "t", "u", "v", "w", "x", "y", "z",
    ];
    let r = get_permutations_with_repetitions(letters, 2);
    assert_eq!(r.len(), 676);
    assert_eq!(as_set(&r).len(), 676);
}

#[test]
fn generating_twice_gives_same_set() {
    let first = get_permutations_with_repetitions(vec!["p", "q", "r"], 3);
    let second = get_permutations_with_repetitions(vec!["p", "q", "r"], 3);
    assert_eq!(as_set(&first), as_set(&second));
    assert_eq!(first.len(), 27);
}

#[test]
fn urls_prefix_each_word_with_base() {
    let words = get_permutations_with_repetitions(vec!["a", "b"], 2);
    let urls = candidate_urls("https://example.org/", &words);
    assert_eq!(urls.len(), 4);
    for (u, w) in urls.iter().zip(words.iter()) {
        assert_eq!(u, &format!("https://example.org/{}", w));
    }
}

#[test]
fn urls_of_no_words_are_empty() {
    let urls = candidate_urls("https://example.org/", &Vec::new());
    assert!(urls.is_empty());
}
