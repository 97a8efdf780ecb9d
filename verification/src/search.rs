use vstd::prelude::*;
use vstd::string::*;
use vstd::utf8::*;

verus! {

/// The UTF-8 bytes of a text.
pub open spec fn utf8_of(text: Seq<char>) -> Seq<u8> {
    encode_utf8(text)
}

/// `needle` occurs in `hay` starting at byte `i`.
pub open spec fn matches_at(hay: Seq<u8>, needle: Seq<u8>, i: int) -> bool {
    &&& 0 <= i
    &&& i + needle.len() <= hay.len()
    &&& hay.subrange(i, i + needle.len()) == needle
}

/// Byte `i` starts a character of the UTF-8 text `hay`, or is its end.
pub open spec fn starts_char(hay: Seq<u8>, i: int) -> bool {
    i == hay.len() || (0 <= i < hay.len() && !is_continuation_byte(hay[i]))
}

/// The empty ranges at every character start of `hay` from byte `from`
/// on, and at its end: where an empty needle occurs.
pub open spec fn empty_matches_from(hay: Seq<u8>, from: int) -> Seq<(int, int)>
    decreases hay.len() + 1 - from,
{
    if from < 0 || from > hay.len() {
        seq![]
    } else if starts_char(hay, from) {
        seq![(from, from)] + empty_matches_from(hay, from + 1)
    } else {
        empty_matches_from(hay, from + 1)
    }
}

/// The occurrences of `needle` in `hay` at or after byte `from`, found
/// from left to right without overlap, as half-open byte ranges: after an
/// occurrence the search goes on at its end. An empty needle occurs,
/// empty, at every character start and at the end.
pub open spec fn occurrences_from(hay: Seq<u8>, needle: Seq<u8>, from: int) -> Seq<(int, int)>
    decreases hay.len() - from,
{
    if needle.len() == 0 {
        empty_matches_from(hay, from)
    } else if from < 0 || from + needle.len() > hay.len() {
        seq![]
    } else if matches_at(hay, needle, from) {
        seq![(from, from + needle.len())] + occurrences_from(hay, needle, from + needle.len())
    } else {
        occurrences_from(hay, needle, from + 1)
    }
}

/// All left-to-right, non-overlapping occurrences of `needle` in `hay`.
pub open spec fn occurrences(hay: Seq<u8>, needle: Seq<u8>) -> Seq<(int, int)> {
    occurrences_from(hay, needle, 0)
}

/// Byte ranges held as machine integers, read as integers.
pub open spec fn ranges_view(v: Seq<(usize, usize)>) -> Seq<(int, int)> {
    v.map_values(|p: (usize, usize)| (p.0 as int, p.1 as int))
}

/// The empty matches lie at character starts (or the end) at or after
/// `from`, in strictly increasing order.
pub proof fn lemma_empty_matches_sound(hay: Seq<u8>, from: int)
    ensures
        forall|k: int|
            0 <= k < empty_matches_from(hay, from).len() ==> {
                let r = #[trigger] empty_matches_from(hay, from)[k];
                &&& from <= r.0 <= hay.len()
                &&& r.1 == r.0
                &&& starts_char(hay, r.0)
            },
        forall|k: int, l: int|
            0 <= k < l < empty_matches_from(hay, from).len() ==>
                #[trigger] empty_matches_from(hay, from)[k].0 < #[trigger] empty_matches_from(hay, from)[l].0,
    decreases hay.len() + 1 - from,
{
    if from < 0 || from > hay.len() {
        assert(empty_matches_from(hay, from).len() == 0);
    } else if starts_char(hay, from) {
        lemma_empty_matches_sound(hay, from + 1);
        let rest = empty_matches_from(hay, from + 1);
        let all = empty_matches_from(hay, from);
        assert(all == seq![(from, from)] + rest);
        assert forall|k: int, l: int| 0 <= k < l < all.len() implies #[trigger] all[k].0 < #[trigger] all[l].0 by {
            assert(all[l] == rest[l - 1]);
            if k > 0 {
                assert(all[k] == rest[k - 1]);
            }
        }
        assert forall|k: int| 0 <= k < all.len() implies {
            let r = #[trigger] all[k];
            &&& from <= r.0 <= hay.len()
            &&& r.1 == r.0
            &&& starts_char(hay, r.0)
        } by {
            if k > 0 {
                assert(all[k] == rest[k - 1]);
            }
        }
    } else {
        lemma_empty_matches_sound(hay, from + 1);
        assert(empty_matches_from(hay, from) == empty_matches_from(hay, from + 1));
    }
}

/// Every range that `occurrences_from` reports is an occurrence of the
/// needle; the ranges lie at or after `from`, in increasing order, and do
/// not overlap.
pub proof fn lemma_occurrences_sound(hay: Seq<u8>, needle: Seq<u8>, from: int)
    ensures
        forall|k: int|
            0 <= k < occurrences_from(hay, needle, from).len() ==> {
                let r = #[trigger] occurrences_from(hay, needle, from)[k];
                &&& from <= r.0
                &&& r.1 == r.0 + needle.len()
                &&& matches_at(hay, needle, r.0)
            },
        forall|k: int, l: int|
            0 <= k < l < occurrences_from(hay, needle, from).len() ==>
                #[trigger] occurrences_from(hay, needle, from)[k].1
                    <= #[trigger] occurrences_from(hay, needle, from)[l].0,
    decreases hay.len() - from,
{
    if needle.len() == 0 {
        lemma_empty_matches_sound(hay, from);
        let all = occurrences_from(hay, needle, from);
        assert(all == empty_matches_from(hay, from));
        assert forall|k: int| 0 <= k < all.len() implies matches_at(hay, needle, (#[trigger] all[k]).0) by {
            assert(hay.subrange(all[k].0, all[k].0) =~= needle);
        }
    } else if from < 0 || from + needle.len() > hay.len() {
        assert(occurrences_from(hay, needle, from).len() == 0);
    } else if matches_at(hay, needle, from) {
        lemma_occurrences_sound(hay, needle, from + needle.len());
        let rest = occurrences_from(hay, needle, from + needle.len());
        let all = occurrences_from(hay, needle, from);
        assert(all == seq![(from, from + needle.len())] + rest);
        assert forall|k: int, l: int| 0 <= k < l < all.len() implies #[trigger] all[k].1 <= #[trigger] all[l].0 by {
            if k > 0 {
                assert(all[k] == rest[k - 1]);
                assert(all[l] == rest[l - 1]);
            } else {
                assert(all[l] == rest[l - 1]);
            }
        }
        assert forall|k: int| 0 <= k < all.len() implies {
            let r = #[trigger] all[k];
            &&& from <= r.0
            &&& r.1 == r.0 + needle.len()
            &&& matches_at(hay, needle, r.0)
        } by {
            if k > 0 {
                assert(all[k] == rest[k - 1]);
            }
        }
    } else {
        lemma_occurrences_sound(hay, needle, from + 1);
        assert(occurrences_from(hay, needle, from) == occurrences_from(hay, needle, from + 1));
    }
}

/// An occurrence of a non-empty needle at `i`, at or after `from`, lies in
/// one of the ranges reported from `from` on: it is reported, or it
/// overlaps the reported occurrence that covers byte `i`.
proof fn lemma_occurrence_covered(hay: Seq<u8>, needle: Seq<u8>, from: int, i: int) -> (k: int)
    requires
        needle.len() > 0,
        0 <= from <= i,
        matches_at(hay, needle, i),
    ensures
        0 <= k < occurrences_from(hay, needle, from).len(),
        occurrences_from(hay, needle, from)[k].0 <= i < occurrences_from(hay, needle, from)[k].1,
    decreases hay.len() - from,
{
    let n = needle.len() as int;
    if matches_at(hay, needle, from) {
        let rest = occurrences_from(hay, needle, from + n);
        assert(occurrences_from(hay, needle, from) == seq![(from, from + n)] + rest);
        if i < from + n {
            0
        } else {
            let k = lemma_occurrence_covered(hay, needle, from + n, i);
            assert(occurrences_from(hay, needle, from)[k + 1] == rest[k]);
            k + 1
        }
    } else {
        assert(from != i);
        assert(occurrences_from(hay, needle, from) == occurrences_from(hay, needle, from + 1));
        lemma_occurrence_covered(hay, needle, from + 1, i)
    }
}

/// A character start (or the end) at or after `from` is among the empty
/// matches from `from` on.
proof fn lemma_empty_match_reported(hay: Seq<u8>, from: int, i: int) -> (k: int)
    requires
        0 <= from <= i <= hay.len(),
        starts_char(hay, i),
    ensures
        0 <= k < empty_matches_from(hay, from).len(),
        empty_matches_from(hay, from)[k].0 == i,
    decreases hay.len() + 1 - from,
{
    if starts_char(hay, from) {
        let rest = empty_matches_from(hay, from + 1);
        assert(empty_matches_from(hay, from) == seq![(from, from)] + rest);
        if i == from {
            0
        } else {
            let k = lemma_empty_match_reported(hay, from + 1, i);
            assert(empty_matches_from(hay, from)[k + 1] == rest[k]);
            k + 1
        }
    } else {
        assert(from != i);
        lemma_empty_match_reported(hay, from + 1, i)
    }
}

/// No occurrence is missed: every place where a non-empty needle occurs is
/// reported or overlaps a reported occurrence, so the search skips only
/// occurrences that overlap an earlier one; an empty needle is reported at
/// every character start and at the end.
pub proof fn lemma_occurrences_complete(hay: Seq<u8>, needle: Seq<u8>)
    ensures
        needle.len() > 0 ==> forall|i: int| #[trigger] matches_at(hay, needle, i) ==>
            exists|k: int| 0 <= k < occurrences(hay, needle).len()
                && (#[trigger] occurrences(hay, needle)[k]).0 <= i < occurrences(hay, needle)[k].1,
        needle.len() == 0 ==> forall|i: int| 0 <= i <= hay.len() && #[trigger] starts_char(hay, i) ==>
            exists|k: int| 0 <= k < occurrences(hay, needle).len()
                && (#[trigger] occurrences(hay, needle)[k]).0 == i,
{
    if needle.len() > 0 {
        assert forall|i: int| #[trigger] matches_at(hay, needle, i) implies
            exists|k: int| 0 <= k < occurrences(hay, needle).len()
                && (#[trigger] occurrences(hay, needle)[k]).0 <= i < occurrences(hay, needle)[k].1 by {
            let k = lemma_occurrence_covered(hay, needle, 0, i);
            assert(occurrences(hay, needle)[k].0 <= i);
        }
    } else {
        assert forall|i: int| 0 <= i <= hay.len() && #[trigger] starts_char(hay, i) implies
            exists|k: int| 0 <= k < occurrences(hay, needle).len()
                && (#[trigger] occurrences(hay, needle)[k]).0 == i by {
            let k = lemma_empty_match_reported(hay, 0, i);
            assert(occurrences(hay, needle) == empty_matches_from(hay, 0));
            assert(occurrences(hay, needle)[k].0 == i);
        }
    }
}

/// Whether `needle` occurs in `hay` at byte `i`.
fn bytes_match_at(hay: &[u8], needle: &[u8], i: usize) -> (b: bool)
    requires
        i + needle@.len() <= hay@.len(),
    ensures
        b == matches_at(hay@, needle@, i as int),
{
    let n = needle.len();
    let mut j: usize = 0;
    while j < n
        invariant
            n == needle@.len(),
            i + n <= hay@.len(),
            hay@.len() == hay.len(),
            j <= n,
            forall|k: int| 0 <= k < j ==> hay@[i + k] == needle@[k],
        decreases n - j,
    {
        if hay[i + j] != needle[j] {
            assert(hay@.subrange(i as int, i + n)[j as int] != needle@[j as int]);
            return false;
        }
        j = j + 1;
    }
    assert(hay@.subrange(i as int, i + n) =~= needle@);
    true
}

/// The left-to-right, non-overlapping occurrences of `needle` in `hay`,
/// as half-open byte ranges.
pub fn find_occurrences(hay: &[u8], needle: &[u8]) -> (res: Vec<(usize, usize)>)
    ensures
        ranges_view(res@) == occurrences(hay@, needle@),
{
    let mut res: Vec<(usize, usize)> = Vec::new();
    let n = needle.len();
    let h = hay.len();
    if n == 0 {
        let mut i: usize = 0;
        while i < h
            invariant
                n == needle@.len(),
                n == 0,
                h == hay@.len(),
                i <= h,
                occurrences(hay@, needle@) == ranges_view(res@) + empty_matches_from(hay@, i as int),
            decreases h - i,
        {
            let ghost before = res@;
            let b = hay[i];
            if b < 0x80u8 || b > 0xbfu8 {
                res.push((i, i));
                assert(ranges_view(res@) =~= ranges_view(before) + seq![(i as int, i as int)]);
                assert(ranges_view(before) + empty_matches_from(hay@, i as int)
                    =~= ranges_view(res@) + empty_matches_from(hay@, i + 1));
            } else {
                assert(empty_matches_from(hay@, i as int) == empty_matches_from(hay@, i + 1));
            }
            i = i + 1;
        }
        let ghost before = res@;
        res.push((h, h));
        proof {
            assert(empty_matches_from(hay@, h + 1) =~= seq![]);
            assert(empty_matches_from(hay@, h as int) =~= seq![(h as int, h as int)]);
            assert(ranges_view(res@) =~= ranges_view(before) + seq![(h as int, h as int)]);
        }
        return res;
    }
    let mut i: usize = 0;
    while i <= h && n <= h - i
        invariant
            n == needle@.len(),
            h == hay@.len(),
            n > 0,
            i <= h,
            occurrences(hay@, needle@) == ranges_view(res@) + occurrences_from(hay@, needle@, i as int),
        decreases h - i,
    {
        let ghost before = res@;
        if bytes_match_at(hay, needle, i) {
            res.push((i, i + n));
            assert(ranges_view(res@) =~= ranges_view(before) + seq![(i as int, i + n)]);
            assert(occurrences_from(hay@, needle@, i as int)
                =~= seq![(i as int, i + n)] + occurrences_from(hay@, needle@, i + n));
            i = i + n;
        } else {
            i = i + 1;
        }
    }
    assert(occurrences_from(hay@, needle@, i as int) =~= seq![]);
    assert(ranges_view(res@) + seq![] =~= ranges_view(res@));
    res
}

/// Whether two texts are equal.
pub fn same_text(a: &str, b: &str) -> (r: bool)
    ensures
        r == (a@ == b@),
{
    broadcast use group_utf8_lib;
    let x = a.as_bytes();
    let y = b.as_bytes();
    if x.len() != y.len() {
        return false;
    }
    let mut i: usize = 0;
    while i < x.len()
        invariant
            x@ == a.spec_bytes(),
            y@ == b.spec_bytes(),
            x@.len() == y@.len(),
            i <= x@.len(),
            forall|k: int| 0 <= k < i ==> x@[k] == y@[k],
        decreases x@.len() - i,
    {
        if x[i] != y[i] {
            return false;
        }
        i = i + 1;
    }
    assert(x@ =~= y@);
    assert(decode_utf8(encode_utf8(a@)) == a@);
    assert(decode_utf8(encode_utf8(b@)) == b@);
    true
}

/// Valid UTF-8 followed by more valid UTF-8: the join point is a
/// character boundary of the whole.
proof fn lemma_prefix_ends_on_boundary(a: Seq<u8>, b: Seq<u8>)
    requires
        valid_utf8(a),
        valid_utf8(a + b),
    ensures
        is_char_boundary(a + b, a.len() as int),
    decreases a.len(),
{
    let ab = a + b;
    if a.len() > 0 {
        let w = length_of_first_scalar(a);
        assert(ab[0] == a[0]);
        assert(length_of_first_scalar(ab) == w);
        assert(pop_first_scalar(ab) =~= pop_first_scalar(a) + b);
        lemma_prefix_ends_on_boundary(pop_first_scalar(a), b);
    }
}

/// A boundary of the tail of valid UTF-8 that starts at a boundary is a
/// boundary of the whole.
proof fn lemma_boundary_in_tail(h: Seq<u8>, i: int, m: int)
    requires
        valid_utf8(h),
        0 <= i <= h.len(),
        is_char_boundary(h, i),
        valid_utf8(h.subrange(i, h.len() as int)),
        is_char_boundary(h.subrange(i, h.len() as int), m),
    ensures
        is_char_boundary(h, i + m),
    decreases i,
{
    if i == 0 {
        assert(h.subrange(0, h.len() as int) =~= h);
    } else {
        let w = length_of_first_scalar(h);
        let p = pop_first_scalar(h);
        assert(is_char_boundary(p, i - w));
        assert(p.subrange(i - w, p.len() as int) =~= h.subrange(i, h.len() as int));
        lemma_boundary_in_tail(p, i - w, m);
        if m != 0 || i != 0 {
            assert(is_char_boundary(h, i + m) == is_char_boundary(p, i + m - w));
        }
    }
}

/// In valid UTF-8, every occurrence of a valid UTF-8 needle starts and
/// ends on character boundaries, so it can be cut out as text.
pub proof fn lemma_occurrences_on_char_boundaries(hay: Seq<u8>, needle: Seq<u8>)
    requires
        valid_utf8(hay),
        valid_utf8(needle),
    ensures
        forall|k: int|
            0 <= k < occurrences(hay, needle).len() ==> {
                &&& is_char_boundary(hay, (#[trigger] occurrences(hay, needle)[k]).0)
                &&& is_char_boundary(hay, occurrences(hay, needle)[k].1)
            },
{
    broadcast use is_char_boundary_iff_not_is_continuation_byte, is_char_boundary_start_end_of_seq;
    lemma_occurrences_sound(hay, needle, 0);
    let occ = occurrences(hay, needle);
    if needle.len() == 0 {
        lemma_empty_matches_sound(hay, 0);
        assert(occ == empty_matches_from(hay, 0));
        assert forall|k: int| 0 <= k < occ.len() implies {
            &&& is_char_boundary(hay, (#[trigger] occ[k]).0)
            &&& is_char_boundary(hay, occ[k].1)
        } by {
            assert(starts_char(hay, occ[k].0));
        }
    } else {
        assert forall|k: int| 0 <= k < occ.len() implies {
            &&& is_char_boundary(hay, (#[trigger] occ[k]).0)
            &&& is_char_boundary(hay, occ[k].1)
        } by {
            let i = occ[k].0;
            let n = needle.len() as int;
            assert(matches_at(hay, needle, i));
            assert(n > 0);
            assert(hay[i] == hay.subrange(i, i + n)[0]);
            assert(is_char_boundary(needle, 0));
            assert(!is_continuation_byte(needle[0]));
            assert(is_char_boundary(hay, i));
            valid_utf8_split(hay, i);
            let tail = hay.subrange(i, hay.len() as int);
            let rest = hay.subrange(i + n, hay.len() as int);
            assert(tail =~= needle + rest);
            lemma_prefix_ends_on_boundary(needle, rest);
            lemma_boundary_in_tail(hay, i, n);
        }
    }
}

} // verus!
