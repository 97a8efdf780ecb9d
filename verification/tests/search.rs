use rust_grep::search::{find_occurrences, same_text};

#[test]
fn empty_needle_matches_at_every_char_boundary() {
    assert_eq!(find_occurrences(b"ab", b""), vec![(0, 0), (1, 1), (2, 2)]);
    assert_eq!(find_occurrences("中".as_bytes(), b""), vec![(0, 0), (3, 3)]);
    assert_eq!(find_occurrences(b"", b""), vec![(0, 0)]);
}

#[test]
fn occurrences_do_not_overlap() {
    assert_eq!(find_occurrences(b"aaaa", b"aa"), vec![(0, 2), (2, 4)]);
    assert_eq!(find_occurrences(b"abc", b"d"), Vec::<(usize, usize)>::new());
    assert_eq!(find_occurrences(b"ab", b"abc"), Vec::<(usize, usize)>::new());
}

#[test]
fn texts_compare_by_content() {
    assert!(same_text("abc", "abc"));
    assert!(!same_text("abc", "abd"));
    assert!(!same_text("ab", "abc"));
}
