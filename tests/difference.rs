use pattern_matcher::difference::{difference_iter, distinct_words, find_difference};

#[test]
fn first_only_words() {
    let diff = find_difference("I love the surf and the sand.", "I hate the snow and the sand.");
    assert_eq!(diff.first_only, vec!["love", "surf"]);
    assert_eq!(diff.second_only, vec!["hate", "snow"]);
}

#[test]
fn second_only_words() {
    let diff = find_difference("I hate the snow and the sand.", "I hate the surf and the sand.");
    assert_eq!(diff.second_only, vec!["surf"]);
    assert_eq!(diff.first_only, vec!["snow"]);
}

#[test]
fn same_sentence_has_no_difference() {
    let diff = find_difference("a b a", "b a");
    assert!(diff.first_only.is_empty());
    assert!(diff.second_only.is_empty());
}

#[test]
fn words_split_on_single_spaces() {
    assert_eq!(distinct_words("a  b a"), vec!["a", "", "b"]);
    assert_eq!(distinct_words(""), vec![""]);
}

#[test]
fn difference_keeps_order_of_first() {
    let a = vec!["x", "y", "z"];
    let b = vec!["y"];
    assert_eq!(difference_iter(&a, &b), vec!["x", "z"]);
}
