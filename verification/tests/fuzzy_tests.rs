use fussr::fuzzy::{checked_fuzzy_score, checked_match_score, fuzzy_match_score, fuzzy_score};

#[test]
fn fuzzy_match_score_exact_prefix_and_empty() {
    assert_eq!(fuzzy_match_score("", "anything"), 1);
    assert_eq!(fuzzy_match_score("main.rs", "main.rs"), 10000);
    assert_eq!(fuzzy_match_score("ma", "main.rs"), 5000);
}

#[test]
fn fuzzy_match_score_scatter_values() {
    assert_eq!(fuzzy_match_score("ac", "abc"), 396);
    assert_eq!(fuzzy_match_score("ab", "xab"), 297);
    assert_eq!(fuzzy_match_score("fb", "foo_bar"), 540);
}

#[test]
fn fuzzy_match_score_zero_without_subsequence() {
    assert_eq!(fuzzy_match_score("abc", "acb"), 0);
    assert_eq!(fuzzy_match_score("z", "abc"), 0);
}

#[test]
fn fuzzy_match_score_positive_for_long_texts() {
    let text = format!("x{}", "y".repeat(1000));
    assert_eq!(fuzzy_match_score("xy", &text), 5000);
    let text2 = format!("{}a{}b", "q".repeat(300), "q".repeat(300));
    assert_eq!(fuzzy_match_score("ab", &text2), 1);
}

#[test]
fn fuzzy_match_score_counts_bytes_in_length_penalty() {
    assert_eq!(fuzzy_match_score("b", "a\u{e9}b"), 96);
}

#[test]
fn fuzzy_score_prefix_and_scatter() {
    assert_eq!(fuzzy_score("ab", "abc"), 1097);
    assert_eq!(fuzzy_score("", "x"), 1099);
    assert_eq!(fuzzy_score("ac", "abc"), 40);
    assert_eq!(fuzzy_score("bc", "abc"), 25);
    assert_eq!(fuzzy_score("abc", "xyz"), 0);
}

#[test]
fn fuzzy_match_score_ranks_exact_over_others_for_short_patterns() {
    let exact = fuzzy_match_score("main", "main");
    let prefix = fuzzy_match_score("main", "main.rs");
    let scatter = fuzzy_match_score("main", "my_main.rs");
    assert!(exact > prefix && prefix > scatter && scatter > 0);
}

#[test]
fn fuzzy_match_score_long_consecutive_run_stays_below_prefix_score() {
    assert_eq!(fuzzy_match_score("bcdefghijklmnopqrstu", "abcdefghijklmnopqrstu"), 4999);
}

#[test]
fn fuzzy_match_score_long_patterns_without_overflow() {
    let long = "z".repeat(7000);
    assert_eq!(fuzzy_match_score(&long, "abc"), 0);
    assert_eq!(fuzzy_match_score(&long, &long), 10000);
    let longer = format!("{}y", long);
    assert_eq!(fuzzy_match_score(&long, &longer), 5000);
}

#[test]
fn checked_match_score_reports_overflow() {
    let run = "a".repeat(10000);
    let text = format!("x{}", run);
    assert_eq!(checked_match_score(&run, &text), None);
    assert_eq!(checked_match_score("ac", "abc"), Some(396));
    assert_eq!(checked_match_score("", "abc"), Some(1));
}

#[test]
fn checked_fuzzy_score_reports_long_prefix_text() {
    let text = format!("ab{}", "c".repeat(200));
    assert_eq!(checked_fuzzy_score("ab", &text), None);
    assert_eq!(checked_fuzzy_score("ab", "abc"), Some(1097));
    assert_eq!(checked_fuzzy_score("ac", "abc"), Some(40));
}
