use pitagoecsvgen_core::affix::{mask_digits, strip};

#[test]
fn mask_collapses_each_run_of_digits() {
    assert_eq!(mask_digits(""), "");
    assert_eq!(mask_digits("abc"), "abc");
    assert_eq!(mask_digits("x10"), "x0");
    assert_eq!(mask_digits("007"), "0");
    assert_eq!(mask_digits("a1b22c333"), "a0b0c0");
    assert_eq!(mask_digits("12あ34"), "0あ0");
    // Only the ASCII digits are digits.
    assert_eq!(mask_digits("１２"), "１２");
}

#[test]
fn strip_takes_the_prefix_then_the_suffix() {
    assert_eq!(strip("01_apple_v2", "0_", "_v0"), "apple");
    assert_eq!(strip("img0042.png", "img0", ".png"), "");
    assert_eq!(strip("abc", "", ""), "abc");
    assert_eq!(strip("abc", "abc", ""), "");
    assert_eq!(strip("abc", "", "abc"), "");
    assert_eq!(strip("abc", "abc", "abc"), "");
    assert_eq!(strip("aba", "a", "a"), "b");
    assert_eq!(strip("a", "a", "a"), "");
}

#[test]
fn strip_leaves_what_does_not_match() {
    // No digit where the pattern wants one.
    assert_eq!(strip("x_a", "x0", ""), "x_a");
    // A pattern longer than the name.
    assert_eq!(strip("ab", "abc", "cab"), "ab");
    // The prefix matches, the suffix does not.
    assert_eq!(strip("x12y", "x0", "z"), "y");
    // The suffix matches, the prefix does not.
    assert_eq!(strip("x12y", "y0", "0y"), "x");
}

#[test]
fn strip_matches_a_whole_run_of_digits() {
    assert_eq!(strip("123abc456", "0", "0"), "abc");
    assert_eq!(strip("123", "0", "0"), "");
    // A digit in the pattern stands for the whole run, so the "3" that the
    // pattern asks for after it is not there.
    assert_eq!(strip("123", "03", ""), "123");
    assert_eq!(strip("a1", "", "a0"), "");
}
