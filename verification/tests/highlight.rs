use rust_grep::highlight::{highlight_segments, sort_ranges_by_start, Segment};

fn seg(start: usize, end: usize, highlighted: bool) -> Segment {
    Segment { start, end, highlighted }
}

#[test]
fn segments_of_a_line() {
    let line = "there is a test line";
    let s = highlight_segments(line, &vec![(11, 15)]);
    assert_eq!(s, vec![seg(0, 11, false), seg(11, 15, true), seg(15, 20, false)]);
    let s = highlight_segments(line, &vec![(0, 5)]);
    assert_eq!(s, vec![seg(0, 5, true), seg(5, 20, false)]);
    let s = highlight_segments(line, &vec![(16, 20), (0, 5)]);
    assert_eq!(s, vec![seg(0, 5, true), seg(5, 16, false), seg(16, 20, true)]);
    let s = highlight_segments(line, &vec![]);
    assert_eq!(s, vec![seg(0, 20, false)]);
    let s = highlight_segments("", &vec![]);
    assert!(s.is_empty());
}

#[test]
fn sort_is_stable() {
    let v = sort_ranges_by_start(&vec![(5, 6), (1, 3), (5, 5), (0, 1)]);
    assert_eq!(v, vec![(0, 1), (1, 3), (5, 6), (5, 5)]);
}
