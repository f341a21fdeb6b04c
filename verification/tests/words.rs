use ahc_solvers::words::{fresh_words, pair_rows_of, rows_of};

#[test]
fn fresh_words_skip_repeats() {
    let draws = vec![7, 3, 7, 9, 3, 4, 1];
    assert_eq!(fresh_words(&draws, 3), Some(vec![7, 3, 9]));
    assert_eq!(fresh_words(&draws, 5), Some(vec![7, 3, 9, 4, 1]));
    assert_eq!(fresh_words(&draws, 6), None);
    assert_eq!(fresh_words(&draws, 0), Some(vec![]));
}

#[test]
fn word_tables() {
    let words: Vec<usize> = (10..30).collect();
    assert_eq!(rows_of(&words, 2, 2, 3), vec![vec![12, 13, 14], vec![15, 16, 17]]);
    assert_eq!(pair_rows_of(&words, 1, 2, 2), vec![vec![(11, 12), (13, 14)], vec![(15, 16), (17, 18)]]);
    assert!(rows_of(&words, 0, 0, 5).is_empty());
}
