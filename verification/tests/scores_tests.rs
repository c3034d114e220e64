use textdist::ratcliff_obershelp::matching_blocks;
use textdist::scores::{
    partial_ratio, partial_token_set_ratio, partial_token_sort_ratio, pre_process, qratio, ratio,
    token_set_ratio, token_sort_ratio, uqratio,
};

#[test]
fn ratio_identity() {
    assert_eq!(ratio("hello", "hello"), 100);
    assert_eq!(partial_ratio("hello", "hello"), 100);
}

#[test]
fn ratio_empty_pair() {
    assert_eq!(ratio("", ""), 100);
}

#[test]
fn ratio_symmetry() {
    assert_eq!(ratio("hello test", "hello world"), ratio("hello world", "hello test"));
    assert_eq!(ratio("abcd", "bacd"), ratio("bacd", "abcd"));
}

#[test]
fn ratio_regression() {
    assert_eq!(ratio("hello test", "hello world"), 57);
    assert_eq!(ratio("hello bar", "hello"), 71);
    assert_eq!(ratio("hellobar", "hello"), 77);
    assert!(ratio("hello bar", "hello") < ratio("hellobar", "hello"));
}

#[test]
fn partial_containment() {
    assert_eq!(partial_ratio("hello", "hello world"), 100);
    // containment is not universal: the windows are cut out of the
    // lexicographically smaller string, which here is the longer "ab"
    assert_eq!(partial_ratio("b", "ab"), 67);
}

#[test]
fn token_sort_order_invariance() {
    assert_eq!(token_sort_ratio("hello world", "world hello", false, false), 100);
    assert_eq!(partial_token_sort_ratio("hello world", "world hello", false, false), 100);
}

#[test]
fn token_set_permutation() {
    assert_eq!(
        token_set_ratio(
            "new york mets vs atlanta braves",
            "atlanta braves vs new york mets",
            false,
            false
        ),
        100
    );
}

#[test]
fn partial_token_set_containment() {
    assert_eq!(
        partial_token_set_ratio(
            "new york mets vs atlanta braves",
            "new york city mets - atlanta braves",
            false,
            false
        ),
        100
    );
}

#[test]
fn case_sensitivity() {
    assert_ne!(ratio("hello WORLD", "hello world"), 100);
    assert_eq!(ratio("hello WORLD", "hello world"), 55);
    assert_eq!(
        ratio(
            pre_process("hello WORLD", false).as_str(),
            pre_process("hello world", false).as_str()
        ),
        100
    );
}

#[test]
fn pre_process_shapes() {
    assert_eq!(pre_process("Hello, World!", false), "hello  world");
    assert_eq!(pre_process("  trimmed  ", false), "trimmed");
    assert_eq!(pre_process("Auténtico", true), "autntico");
    assert_eq!(pre_process("a\tb", false), "a b");
}

#[test]
fn quick_ratios() {
    assert_eq!(qratio("HELLO WORLD", "hello world", false), 100);
    assert_eq!(uqratio("Hello World!", "hello world"), 100);
}

#[test]
fn blocks_of_close_strings() {
    assert_eq!(matching_blocks("abd", "abcd"), vec![(0, 0, 2), (2, 3, 1), (3, 4, 0)]);
    assert_eq!(matching_blocks("abcd", "abd"), vec![(0, 0, 2), (3, 2, 1), (4, 3, 0)]);
    assert_eq!(matching_blocks("", ""), vec![(0, 0, 0)]);
}

#[test]
fn range_band() {
    let pairs = [
        ("", ""),
        ("", "x"),
        ("abc", "zyx"),
        ("same", "same"),
        ("a much longer sentence", "short"),
    ];
    for &(a, b) in &pairs {
        assert!(ratio(a, b) <= 100);
        assert!(partial_ratio(a, b) <= 100);
        assert!(token_sort_ratio(a, b, false, true) <= 100);
        assert!(token_set_ratio(a, b, false, true) <= 100);
        assert!(partial_token_sort_ratio(a, b, true, true) <= 100);
        assert!(partial_token_set_ratio(a, b, true, true) <= 100);
    }
}
