use rust_mallet::matrix::{row_copy, transpose};
use rust_mallet::stoplist::parse_stoplist;

#[test]
fn stoplist_skips_comments_and_duplicates() {
    let lines: Vec<String> = ["# comment", "the", "", "a", "the", "#x", "an"]
        .iter()
        .map(|s| s.to_string())
        .collect();
    assert_eq!(parse_stoplist(&lines), vec!["the", "a", "an"]);
}

#[test]
fn transpose_swaps_axes() {
    let phi = vec![vec![0.1f64, 0.9], vec![0.3, 0.7], vec![0.6, 0.4]];
    let t = transpose(&phi, 3, 2);
    assert_eq!(t, vec![vec![0.1, 0.3, 0.6], vec![0.9, 0.7, 0.4]]);
}

#[test]
fn row_copy_checks_range() {
    let theta = vec![vec![0.5f64, 0.5], vec![0.2, 0.8]];
    assert_eq!(row_copy(&theta, 1), Some(vec![0.2, 0.8]));
    assert_eq!(row_copy(&theta, 2), None);
}
