use vstd::prelude::*;
use vstd::string::*;
use vstd::utf8::is_char_boundary;
use crate::search::{lemma_occurrences_on_char_boundaries, lemma_occurrences_sound, matches_at, occurrences, ranges_view, utf8_of};

verus! {

/// `x` put into `sorted` after every range that starts no later than it
/// (the step of a stable sort by start).
pub open spec fn insert_by_start(sorted: Seq<(usize, usize)>, x: (usize, usize)) -> Seq<(usize, usize)>
    decreases sorted.len(),
{
    if sorted.len() == 0 {
        seq![x]
    } else if sorted.last().0 <= x.0 {
        sorted.push(x)
    } else {
        insert_by_start(sorted.drop_last(), x).push(sorted.last())
    }
}

/// `ranges` sorted by start; ranges with equal starts keep their order.
pub open spec fn sort_by_start(ranges: Seq<(usize, usize)>) -> Seq<(usize, usize)>
    decreases ranges.len(),
{
    if ranges.len() == 0 {
        seq![]
    } else {
        insert_by_start(sort_by_start(ranges.drop_last()), ranges.last())
    }
}

/// The ranges are in order of their starts.
pub open spec fn sorted_by_start(ranges: Seq<(usize, usize)>) -> bool {
    forall|i: int, j: int| 0 <= i < j < ranges.len() ==> #[trigger] ranges[i].0 <= #[trigger] ranges[j].0
}

proof fn lemma_insert_keeps_sorted(sorted: Seq<(usize, usize)>, x: (usize, usize))
    requires
        sorted_by_start(sorted),
    ensures
        sorted_by_start(insert_by_start(sorted, x)),
        insert_by_start(sorted, x).len() == sorted.len() + 1,
        forall|k: int| 0 <= k < insert_by_start(sorted, x).len() ==>
            #[trigger] insert_by_start(sorted, x)[k] == x || sorted.contains(insert_by_start(sorted, x)[k]),
    decreases sorted.len(),
{
    if sorted.len() == 0 {
    } else if sorted.last().0 <= x.0 {
        let r = sorted.push(x);
        assert forall|k: int| 0 <= k < r.len() implies #[trigger] r[k] == x || sorted.contains(r[k]) by {
            if k < sorted.len() {
                assert(r[k] == sorted[k]);
            }
        }
    } else {
        let d = sorted.drop_last();
        lemma_insert_keeps_sorted(d, x);
        let i = insert_by_start(d, x);
        let r = i.push(sorted.last());
        assert forall|a: int, b: int| 0 <= a < b < r.len() implies #[trigger] r[a].0 <= #[trigger] r[b].0 by {
            if b == r.len() - 1 {
                if i[a] == x {
                } else {
                    let w = choose|w: int| 0 <= w < d.len() && d[w] == i[a];
                    assert(sorted[w] == d[w]);
                }
            }
        }
        assert forall|k: int| 0 <= k < r.len() implies #[trigger] r[k] == x || sorted.contains(r[k]) by {
            if k < i.len() {
                if r[k] != x {
                    let w = choose|w: int| 0 <= w < d.len() && d[w] == i[k];
                    assert(sorted[w] == d[w]);
                }
            } else {
                assert(sorted[sorted.len() - 1] == r[k]);
            }
        }
    }
}

/// `sort_by_start` sorts.
pub proof fn lemma_sort_sorts(ranges: Seq<(usize, usize)>)
    ensures
        sorted_by_start(sort_by_start(ranges)),
        sort_by_start(ranges).len() == ranges.len(),
    decreases ranges.len(),
{
    if ranges.len() > 0 {
        lemma_sort_sorts(ranges.drop_last());
        lemma_insert_keeps_sorted(sort_by_start(ranges.drop_last()), ranges.last());
    }
}

/// Sorting only reorders: every sorted range is one of the ranges.
pub proof fn lemma_sort_keeps_ranges(ranges: Seq<(usize, usize)>)
    ensures
        forall|k: int| 0 <= k < sort_by_start(ranges).len() ==> ranges.contains(#[trigger] sort_by_start(ranges)[k]),
    decreases ranges.len(),
{
    if ranges.len() > 0 {
        let d = ranges.drop_last();
        lemma_sort_keeps_ranges(d);
        lemma_sort_sorts(d);
        lemma_insert_keeps_sorted(sort_by_start(d), ranges.last());
        let r = sort_by_start(ranges);
        assert forall|k: int| 0 <= k < r.len() implies ranges.contains(#[trigger] r[k]) by {
            if r[k] == ranges.last() {
                assert(ranges[ranges.len() - 1] == r[k]);
            } else {
                let w = choose|w: int| 0 <= w < sort_by_start(d).len() && sort_by_start(d)[w] == r[k];
                let v = choose|v: int| 0 <= v < d.len() && d[v] == sort_by_start(d)[w];
                assert(ranges[v] == d[v]);
            }
        }
    }
}

/// A stable sort of `ranges` by start.
pub fn sort_ranges_by_start(ranges: &Vec<(usize, usize)>) -> (res: Vec<(usize, usize)>)
    ensures
        res@ == sort_by_start(ranges@),
{
    let mut res: Vec<(usize, usize)> = Vec::new();
    let n = ranges.len();
    let mut i: usize = 0;
    while i < n
        invariant
            n == ranges@.len(),
            i <= n,
            res@ == sort_by_start(ranges@.subrange(0, i as int)),
        decreases n - i,
    {
        let x = ranges[i];
        let ghost before = res@;
        res.push(x);
        let mut j: usize = res.len() - 1;
        proof {
            assert(before.subrange(0, j as int) =~= before);
            assert(before.subrange(j as int, before.len() as int) =~= seq![]);
            assert(insert_by_start(before, x) + seq![] =~= insert_by_start(before, x));
            assert(res@ =~= before + seq![x] + seq![]);
        }
        while j > 0 && res[j - 1].0 > x.0
            invariant
                j < res@.len(),
                res@.len() == before.len() + 1,
                res@ == before.subrange(0, j as int) + seq![x] + before.subrange(j as int, before.len() as int),
                insert_by_start(before, x) == insert_by_start(before.subrange(0, j as int), x)
                    + before.subrange(j as int, before.len() as int),
            decreases j,
        {
            let ghost pre = before.subrange(0, j as int);
            let y = res[j - 1];
            res.set(j - 1, x);
            res.set(j, y);
            proof {
                assert(pre.drop_last() =~= before.subrange(0, j - 1));
                assert(pre.last() == y);
                assert(insert_by_start(pre, x) == insert_by_start(pre.drop_last(), x).push(y));
                assert(seq![y] + before.subrange(j as int, before.len() as int)
                    =~= before.subrange(j - 1, before.len() as int));
                assert(insert_by_start(pre.drop_last(), x).push(y) + before.subrange(j as int, before.len() as int)
                    =~= insert_by_start(pre.drop_last(), x) + before.subrange(j - 1, before.len() as int));
                assert(res@ =~= before.subrange(0, j - 1) + seq![x] + before.subrange(j - 1, before.len() as int));
            }
            j = j - 1;
        }
        proof {
            let pre = before.subrange(0, j as int);
            if j == 0 {
                assert(insert_by_start(pre, x) == seq![x]);
            } else {
                assert(pre.last() == before[j - 1]);
                assert(insert_by_start(pre, x) == pre.push(x));
            }
            assert(res@ =~= insert_by_start(pre, x) + before.subrange(j as int, before.len() as int));
            assert(ranges@.subrange(0, i + 1).drop_last() =~= ranges@.subrange(0, i as int));
            assert(ranges@.subrange(0, i + 1).last() == x);
        }
        i = i + 1;
    }
    proof {
        assert(ranges@.subrange(0, n as int) =~= ranges@);
    }
    res
}

/// A piece of a line: the half-open byte range `start..end`, and whether
/// it is shown highlighted (as a match).
#[derive(Clone, Copy, PartialEq, Eq, Debug, Structural)]
pub struct Segment {
    pub start: usize,
    pub end: usize,
    pub highlighted: bool,
}

/// Where the text shown so far ends after the first `k` sorted ranges.
pub open spec fn cursor_after(sorted: Seq<(usize, usize)>, k: int) -> usize {
    if k <= 0 { 0 } else { sorted[k - 1].1 }
}

/// The pieces for the first `k` sorted ranges: before each range the
/// plain text from the cursor up to it, if the range starts later, then
/// the range highlighted.
pub open spec fn segments_upto(sorted: Seq<(usize, usize)>, k: int) -> Seq<Segment>
    decreases k,
{
    if k <= 0 {
        seq![]
    } else {
        let cur = cursor_after(sorted, k - 1);
        let r = sorted[k - 1];
        let plain = if r.0 > cur { seq![Segment { start: cur, end: r.0, highlighted: false }] } else { seq![] };
        segments_upto(sorted, k - 1) + plain + seq![Segment { start: r.0, end: r.1, highlighted: true }]
    }
}

/// The pieces of a line of `len` bytes with the match ranges `ranges`:
/// the ranges taken in order of their starts, then the rest of the line
/// plain, if any is left.
pub open spec fn line_segments(len: usize, ranges: Seq<(usize, usize)>) -> Seq<Segment> {
    let sorted = sort_by_start(ranges);
    let cur = cursor_after(sorted, sorted.len() as int);
    segments_upto(sorted, sorted.len() as int) + if cur < len {
        seq![Segment { start: cur, end: len, highlighted: false }]
    } else {
        seq![]
    }
}

/// The ranges can be cut out of `content`: each lies within it, begins no
/// later than it ends, and both ends fall on character boundaries.
pub open spec fn ranges_fit(content: &str, ranges: Seq<(usize, usize)>) -> bool {
    forall|k: int|
        0 <= k < ranges.len() ==> {
            let r = #[trigger] ranges[k];
            &&& r.0 <= r.1 <= content.spec_bytes().len()
            &&& is_char_boundary(content.spec_bytes(), r.0 as int)
            &&& is_char_boundary(content.spec_bytes(), r.1 as int)
        }
}

/// Cuts a line into plain and highlighted pieces; see `line_segments`.
pub fn highlight_segments(content: &str, positions: &Vec<(usize, usize)>) -> (res: Vec<Segment>)
    requires
        ranges_fit(content, positions@),
    ensures
        res@ == line_segments(content.spec_bytes().len() as usize, positions@),
{
    let len = content.len();
    let sorted = sort_ranges_by_start(positions);
    let mut res: Vec<Segment> = Vec::new();
    let mut current_pos: usize = 0;
    let n = sorted.len();
    let mut k: usize = 0;
    while k < n
        invariant
            n == sorted@.len(),
            k <= n,
            current_pos == cursor_after(sorted@, k as int),
            res@ == segments_upto(sorted@, k as int),
        decreases n - k,
    {
        let (start, end) = sorted[k];
        if start > current_pos {
            res.push(Segment { start: current_pos, end: start, highlighted: false });
        }
        res.push(Segment { start, end, highlighted: true });
        proof {
            let plain = if start > current_pos {
                seq![Segment { start: current_pos, end: start, highlighted: false }]
            } else {
                seq![]
            };
            assert(res@ =~= segments_upto(sorted@, k as int) + plain
                + seq![Segment { start: start, end: end, highlighted: true }]);
        }
        current_pos = end;
        k = k + 1;
    }
    if current_pos < len {
        res.push(Segment { start: current_pos, end: len, highlighted: false });
    } else {
        assert(res@ =~= res@ + seq![]);
    }
    res
}

/// The pieces lie next to each other from `from` to `to`, each starting
/// no later than it ends.
pub open spec fn contiguous(segs: Seq<Segment>, from: int, to: int) -> bool {
    &&& segs.len() == 0 ==> from == to
    &&& segs.len() > 0 ==> segs[0].start == from && segs.last().end == to
    &&& forall|k: int| 0 <= k < segs.len() ==> (#[trigger] segs[k]).start <= segs[k].end
    &&& forall|k: int| 0 <= k < segs.len() - 1 ==> (#[trigger] segs[k]).end == segs[k + 1].start
}

/// Sorted ranges that do not overlap: each starts no earlier than the one
/// before ends.
pub open spec fn disjoint_in_order(sorted: Seq<(usize, usize)>) -> bool {
    &&& forall|k: int| 0 <= k < sorted.len() ==> (#[trigger] sorted[k]).0 <= sorted[k].1
    &&& forall|k: int| 0 <= k < sorted.len() - 1 ==> (#[trigger] sorted[k]).1 <= sorted[k + 1].0
}

proof fn lemma_segments_upto_contiguous(sorted: Seq<(usize, usize)>, k: int)
    requires
        0 <= k <= sorted.len(),
        disjoint_in_order(sorted),
    ensures
        contiguous(segments_upto(sorted, k), 0, cursor_after(sorted, k) as int),
    decreases k,
{
    if k > 0 {
        lemma_segments_upto_contiguous(sorted, k - 1);
        let prev = segments_upto(sorted, k - 1);
        let cur = cursor_after(sorted, k - 1);
        let r = sorted[k - 1];
        if k > 1 {
            assert(sorted[k - 2].1 <= sorted[k - 1].0);
        }
        let plain = if r.0 > cur { seq![Segment { start: cur, end: r.0, highlighted: false }] } else { seq![] };
        let segs = prev + plain + seq![Segment { start: r.0, end: r.1, highlighted: true }];
        assert(segments_upto(sorted, k) == segs);
        assert forall|i: int| 0 <= i < segs.len() - 1 implies (#[trigger] segs[i]).end == segs[i + 1].start by {
            if i < prev.len() - 1 {
                assert(segs[i] == prev[i]);
                assert(segs[i + 1] == prev[i + 1]);
            } else if i == prev.len() - 1 {
                assert(segs[i] == prev[i]);
            }
        }
        assert forall|i: int| 0 <= i < segs.len() implies (#[trigger] segs[i]).start <= segs[i].end by {
            if i < prev.len() {
                assert(segs[i] == prev[i]);
            }
        }
        if prev.len() > 0 {
            assert(segs[0] == prev[0]);
        }
    }
}

/// When the ranges, in order of their starts, do not overlap and fit the
/// line, the pieces rebuild the whole line: they lie next to each other
/// from its first byte to its end.
pub proof fn lemma_segments_cover_line(len: usize, ranges: Seq<(usize, usize)>)
    requires
        disjoint_in_order(sort_by_start(ranges)),
        forall|k: int| 0 <= k < ranges.len() ==> (#[trigger] ranges[k]).1 <= len,
    ensures
        contiguous(line_segments(len, ranges), 0, len as int),
{
    let sorted = sort_by_start(ranges);
    lemma_sort_sorts(ranges);
    lemma_sort_keeps_ranges(ranges);
    let n = sorted.len() as int;
    lemma_segments_upto_contiguous(sorted, n);
    let cur = cursor_after(sorted, n);
    if n > 0 {
        let w = choose|w: int| 0 <= w < ranges.len() && ranges[w] == sorted[n - 1];
        assert(ranges[w].1 <= len);
    }
    let head = segments_upto(sorted, n);
    let tail = if cur < len { seq![Segment { start: cur, end: len, highlighted: false }] } else { seq![] };
    let segs = head + tail;
    assert(line_segments(len, ranges) == segs);
    if cur < len {
        assert forall|i: int| 0 <= i < segs.len() - 1 implies (#[trigger] segs[i]).end == segs[i + 1].start by {
            if i < head.len() - 1 {
                assert(segs[i] == head[i]);
                assert(segs[i + 1] == head[i + 1]);
            } else {
                assert(segs[i] == head[i]);
            }
        }
        assert forall|i: int| 0 <= i < segs.len() implies (#[trigger] segs[i]).start <= segs[i].end by {
            if i < head.len() {
                assert(segs[i] == head[i]);
            }
        }
        if head.len() > 0 {
            assert(segs[0] == head[0]);
        }
    } else {
        assert(segs =~= head);
    }
}

/// Sorting ranges already in order of their starts leaves them as they are.
pub proof fn lemma_sort_of_sorted(ranges: Seq<(usize, usize)>)
    requires
        sorted_by_start(ranges),
    ensures
        sort_by_start(ranges) == ranges,
    decreases ranges.len(),
{
    if ranges.len() > 0 {
        let d = ranges.drop_last();
        assert(sorted_by_start(d));
        lemma_sort_of_sorted(d);
        if d.len() > 0 {
            assert(d.last().0 <= ranges.last().0);
        }
        assert(d.push(ranges.last()) =~= ranges);
    }
}

/// For every line the search reports, the pieces rebuild the whole line:
/// the occurrences of the keyword, highlighted, with the plain text
/// between and around them, from the first byte to the end.
pub proof fn lemma_hit_segments_cover_line(line: Seq<char>, keyword: Seq<char>, positions: Seq<(usize, usize)>)
    requires
        ranges_view(positions) == occurrences(utf8_of(line), utf8_of(keyword)),
        utf8_of(line).len() <= usize::MAX,
    ensures
        contiguous(line_segments(utf8_of(line).len() as usize, positions), 0, utf8_of(line).len() as int),
{
    let hay = utf8_of(line);
    let needle = utf8_of(keyword);
    lemma_occurrences_sound(hay, needle, 0);
    let occ = occurrences(hay, needle);
    assert forall|k: int| 0 <= k < positions.len() implies
        (#[trigger] positions[k]).0 as int == occ[k].0 && positions[k].1 as int == occ[k].1 by {
        assert(ranges_view(positions)[k] == occ[k]);
    }
    assert forall|i: int, j: int| 0 <= i < j < positions.len() implies #[trigger] positions[i].0 <= #[trigger] positions[j].0 by {
        assert(positions[i].0 as int == occ[i].0);
        assert(positions[j].0 as int == occ[j].0);
        assert(occ[i].1 <= occ[j].0);
    }
    lemma_sort_of_sorted(positions);
    assert forall|k: int| 0 <= k < positions.len() - 1 implies (#[trigger] positions[k]).1 <= positions[k + 1].0 by {
        assert(positions[k].1 as int == occ[k].1);
        assert(positions[k + 1].0 as int == occ[k + 1].0);
        assert(occ[k].1 <= occ[k + 1].0);
    }
    assert forall|k: int| 0 <= k < positions.len() implies (#[trigger] positions[k]).1 <= utf8_of(line).len() as usize by {
        assert(positions[k].1 as int == occ[k].1);
        assert(matches_at(hay, needle, occ[k].0));
    }
    lemma_segments_cover_line(utf8_of(line).len() as usize, positions);
}

/// Whether the ranges can be cut out of `content`; see `ranges_fit`.
pub fn check_ranges_fit(content: &str, positions: &Vec<(usize, usize)>) -> (b: bool)
    ensures
        b == ranges_fit(content, positions@),
{
    let len = content.as_bytes().len();
    let mut k: usize = 0;
    while k < positions.len()
        invariant
            len == content.spec_bytes().len(),
            k <= positions@.len(),
            forall|i: int| 0 <= i < k ==> {
                let r = #[trigger] positions@[i];
                &&& r.0 <= r.1 <= content.spec_bytes().len()
                &&& is_char_boundary(content.spec_bytes(), r.0 as int)
                &&& is_char_boundary(content.spec_bytes(), r.1 as int)
            },
        decreases positions@.len() - k,
    {
        let (start, end) = positions[k];
        if !(start <= end && end <= len && content.is_char_boundary(start) && content.is_char_boundary(end)) {
            assert(!({
                let r = positions@[k as int];
                &&& r.0 <= r.1 <= content.spec_bytes().len()
                &&& is_char_boundary(content.spec_bytes(), r.0 as int)
                &&& is_char_boundary(content.spec_bytes(), r.1 as int)
            }));
            return false;
        }
        k = k + 1;
    }
    true
}

/// The ranges the search reports for a line can always be cut out of it,
/// so a hit line can always be split into pieces.
pub proof fn lemma_hit_ranges_fit(content: &str, keyword: Seq<char>, positions: Seq<(usize, usize)>)
    requires
        ranges_view(positions) == occurrences(utf8_of(content@), utf8_of(keyword)),
    ensures
        ranges_fit(content, positions),
{
    broadcast use vstd::utf8::encode_utf8_valid_utf8;
    let hay = utf8_of(content@);
    let needle = utf8_of(keyword);
    assert(content.spec_bytes() == hay);
    lemma_occurrences_sound(hay, needle, 0);
    lemma_occurrences_on_char_boundaries(hay, needle);
    let occ = occurrences(hay, needle);
    assert forall|k: int| 0 <= k < positions.len() implies {
        let r = #[trigger] positions[k];
        &&& r.0 <= r.1 <= content.spec_bytes().len()
        &&& is_char_boundary(content.spec_bytes(), r.0 as int)
        &&& is_char_boundary(content.spec_bytes(), r.1 as int)
    } by {
        assert(ranges_view(positions)[k] == occ[k]);
        assert(matches_at(hay, needle, occ[k].0));
    }
}

/// The ranges of the highlighted pieces, in order.
pub open spec fn highlighted_ranges(segs: Seq<Segment>) -> Seq<(usize, usize)>
    decreases segs.len(),
{
    if segs.len() == 0 {
        seq![]
    } else {
        let before = highlighted_ranges(segs.drop_last());
        if segs.last().highlighted {
            before.push((segs.last().start, segs.last().end))
        } else {
            before
        }
    }
}

proof fn lemma_highlighted_ranges_concat(a: Seq<Segment>, b: Seq<Segment>)
    ensures
        highlighted_ranges(a + b) == highlighted_ranges(a) + highlighted_ranges(b),
    decreases b.len(),
{
    if b.len() == 0 {
        assert(a + b =~= a);
        assert(highlighted_ranges(a) + seq![] =~= highlighted_ranges(a));
    } else {
        lemma_highlighted_ranges_concat(a, b.drop_last());
        assert((a + b).drop_last() =~= a + b.drop_last());
        assert((a + b).last() == b.last());
        if b.last().highlighted {
            assert(highlighted_ranges(a) + highlighted_ranges(b.drop_last()).push((b.last().start, b.last().end))
                =~= (highlighted_ranges(a) + highlighted_ranges(b.drop_last())).push((b.last().start, b.last().end)));
        }
    }
}

proof fn lemma_segments_upto_highlight(sorted: Seq<(usize, usize)>, k: int)
    requires
        0 <= k <= sorted.len(),
    ensures
        highlighted_ranges(segments_upto(sorted, k)) == sorted.take(k),
    decreases k,
{
    if k == 0 {
        assert(sorted.take(0) =~= seq![]);
    } else {
        lemma_segments_upto_highlight(sorted, k - 1);
        let cur = cursor_after(sorted, k - 1);
        let r = sorted[k - 1];
        let plain = if r.0 > cur { seq![Segment { start: cur, end: r.0, highlighted: false }] } else { seq![] };
        let hl = seq![Segment { start: r.0, end: r.1, highlighted: true }];
        let prev = segments_upto(sorted, k - 1);
        lemma_highlighted_ranges_concat(prev + plain, hl);
        lemma_highlighted_ranges_concat(prev, plain);
        assert(highlighted_ranges(plain) =~= seq![]) by {
            if r.0 > cur {
                assert(plain.drop_last() =~= Seq::<Segment>::empty());
                assert(highlighted_ranges(plain.drop_last()) =~= Seq::<(usize, usize)>::empty());
                assert(!plain.last().highlighted);
            } else {
                assert(plain =~= Seq::<Segment>::empty());
            }
        }
        assert(hl.drop_last() =~= Seq::<Segment>::empty());
        assert(highlighted_ranges(hl.drop_last()) =~= Seq::<(usize, usize)>::empty());
        assert(highlighted_ranges(hl) =~= seq![(r.0, r.1)]);
        assert(sorted.take(k) =~= sorted.take(k - 1) + seq![r]);
    }
}

/// The highlighted pieces of a line are exactly its match ranges, in order
/// of their starts (ranges with equal starts in their given order); every
/// other piece is plain text.
pub proof fn lemma_highlighted_pieces_are_ranges(len: usize, ranges: Seq<(usize, usize)>)
    ensures
        highlighted_ranges(line_segments(len, ranges)) == sort_by_start(ranges),
{
    let sorted = sort_by_start(ranges);
    let n = sorted.len() as int;
    let cur = cursor_after(sorted, n);
    let tail = if cur < len { seq![Segment { start: cur, end: len, highlighted: false }] } else { seq![] };
    lemma_segments_upto_highlight(sorted, n);
    lemma_highlighted_ranges_concat(segments_upto(sorted, n), tail);
    assert(highlighted_ranges(tail) =~= seq![]) by {
        if cur < len {
            assert(tail.drop_last() =~= Seq::<Segment>::empty());
            assert(highlighted_ranges(tail.drop_last()) =~= Seq::<(usize, usize)>::empty());
            assert(!tail.last().highlighted);
        } else {
            assert(tail =~= Seq::<Segment>::empty());
        }
    }
    assert(sorted.take(n) =~= sorted);
}

} // verus!
