//! Stroke post-processing: removal of consecutive duplicate points, and
//! the "pixel perfect" corner filter that collapses one-pixel staircase
//! "L" corners.

use vstd::prelude::*;

use crate::geom::Point2;
use crate::geom::all_in_bounds;
use crate::geom::in_bounds;

verus! {

/// The suffix of `s` from index `i` on, with every element equal to its
/// predecessor dropped.
pub open spec fn dedup_from(s: Seq<Point2>, i: int) -> Seq<Point2>
    decreases s.len() - i,
{
    if i < 0 || i >= s.len() {
        Seq::empty()
    } else if i > 0 && s[i] == s[i - 1] {
        dedup_from(s, i + 1)
    } else {
        seq![s[i]] + dedup_from(s, i + 1)
    }
}

/// `s` with consecutive duplicate points removed; the first point of each
/// run is kept.
pub open spec fn dedup(s: Seq<Point2>) -> Seq<Point2> {
    dedup_from(s, 0)
}

/// Whether the consecutive triple forms a one-pixel right-angle step.
pub open spec fn is_corner(prev: Point2, curr: Point2, next: Point2) -> bool {
    (prev.y == curr.y && next.x == curr.x) || (prev.x == curr.x && next.y == curr.y)
}

/// The middle part of the corner filter: a left-to-right pass over the
/// consecutive triples of `s` starting at index `i`.  A corner triple
/// emits its last point and skips one position; any other triple emits its
/// middle point and advances by one.
pub open spec fn filter_mid(s: Seq<Point2>, i: int) -> Seq<Point2>
    decreases s.len() - i,
{
    if i < 0 || i + 2 >= s.len() {
        Seq::empty()
    } else if is_corner(s[i], s[i + 1], s[i + 2]) {
        seq![s[i + 2]] + filter_mid(s, i + 2)
    } else {
        seq![s[i + 1]] + filter_mid(s, i + 1)
    }
}

/// The corner-filtered stroke: the first point, the filtered middle, and
/// the last point.
pub open spec fn corner_filter(s: Seq<Point2>) -> Seq<Point2> {
    if s.len() == 0 {
        Seq::empty()
    } else {
        seq![s[0]] + filter_mid(s, 0) + seq![s[s.len() - 1]]
    }
}

/// Whether no consecutive triple of `s` forms a right-angle step.
pub open spec fn has_no_corner(s: Seq<Point2>) -> bool {
    forall|i: int| 0 <= i && i + 2 < s.len() ==> !is_corner(#[trigger] s[i], s[i + 1], s[i + 2])
}

/// Remove consecutive duplicate points, keeping the first point of each
/// run.
pub fn dedup_vec(v: &Vec<Point2>) -> (r: Vec<Point2>)
    ensures
        r@ == dedup(v@),
{
    let mut out: Vec<Point2> = Vec::new();
    let n = v.len();
    let mut i: usize = 0;
    while i < n
        invariant
            n == v@.len(),
            0 <= i <= n,
            dedup_from(v@, 0) == out@ + dedup_from(v@, i as int),
        decreases n - i,
    {
        if i == 0 || !(v[i].x == v[i - 1].x && v[i].y == v[i - 1].y) {
            out.push(v[i]);
        }
        proof {
            assert(dedup_from(v@, 0) =~= out@ + dedup_from(v@, i + 1));
        }
        i = i + 1;
    }
    proof {
        assert(out@ =~= dedup(v@));
    }
    out
}

/// Every point that the deduplicated sequence holds is a point of the
/// input.
pub proof fn lemma_dedup_from_members(s: Seq<Point2>, i: int, j: int)
    requires
        0 <= j < dedup_from(s, i).len(),
    ensures
        s.contains(dedup_from(s, i)[j]),
    decreases s.len() - i,
{
    if i < 0 || i >= s.len() {
    } else if i > 0 && s[i] == s[i - 1] {
        lemma_dedup_from_members(s, i + 1, j);
    } else {
        if j > 0 {
            lemma_dedup_from_members(s, i + 1, j - 1);
        }
    }
}

/// Every point that the corner filter emits in the middle is a point of
/// the input.
pub proof fn lemma_filter_mid_members(s: Seq<Point2>, i: int, j: int)
    requires
        0 <= j < filter_mid(s, i).len(),
    ensures
        s.contains(filter_mid(s, i)[j]),
    decreases s.len() - i,
{
    if i < 0 || i + 2 >= s.len() {
    } else if is_corner(s[i], s[i + 1], s[i + 2]) {
        if j > 0 {
            lemma_filter_mid_members(s, i + 2, j - 1);
        }
    } else {
        if j > 0 {
            lemma_filter_mid_members(s, i + 1, j - 1);
        }
    }
}

/// Deduplication keeps every point within bounds.
pub proof fn lemma_dedup_in_bounds(s: Seq<Point2>)
    requires
        all_in_bounds(s),
    ensures
        all_in_bounds(dedup(s)),
{
    assert forall|j: int| 0 <= j < dedup(s).len() implies in_bounds(dedup(s)[j]) by {
        lemma_dedup_from_members(s, 0, j);
        let k = choose|k: int| 0 <= k < s.len() && s[k] == dedup(s)[j];
        assert(in_bounds(s[k]));
    }
}

/// The corner filter keeps every point within bounds.
pub proof fn lemma_corner_filter_in_bounds(s: Seq<Point2>)
    requires
        all_in_bounds(s),
    ensures
        all_in_bounds(corner_filter(s)),
{
    if s.len() > 0 {
        let f = corner_filter(s);
        assert forall|j: int| 0 <= j < f.len() implies in_bounds(f[j]) by {
            if j == 0 {
                assert(f[j] == s[0]);
            } else if j == f.len() - 1 {
                assert(f[j] == s[s.len() - 1]);
            } else {
                assert(f[j] == filter_mid(s, 0)[j - 1]);
                lemma_filter_mid_members(s, 0, j - 1);
                let k = choose|k: int| 0 <= k < s.len() && s[k] == filter_mid(s, 0)[j - 1];
                assert(in_bounds(s[k]));
            }
        }
    }
}

/// The corner filter always keeps the first and the last point of a
/// non-empty stroke verbatim.
pub proof fn lemma_corner_filter_endpoints(s: Seq<Point2>)
    requires
        s.len() >= 1,
    ensures
        corner_filter(s).len() >= 2,
        corner_filter(s).first() == s.first(),
        corner_filter(s).last() == s.last(),
{
}

/// On an input without right-angle triples the middle pass emits exactly
/// the points strictly between the first and the last.
proof fn lemma_filter_mid_no_corner(s: Seq<Point2>, i: int)
    requires
        has_no_corner(s),
        0 <= i,
        i + 2 <= s.len(),
    ensures
        filter_mid(s, i) =~= s.subrange(i + 1, s.len() - 1),
    decreases s.len() - i,
{
    if i + 2 == s.len() {
        assert(filter_mid(s, i) =~= s.subrange(i + 1, s.len() - 1));
    } else {
        assert(!is_corner(s[i], s[i + 1], s[i + 2]));
        lemma_filter_mid_no_corner(s, i + 1);
        assert(filter_mid(s, i) =~= s.subrange(i + 1, s.len() - 1));
    }
}

/// On an input without right-angle triples and at least two points the
/// corner filter returns its input unchanged.
pub proof fn lemma_corner_filter_no_corner(s: Seq<Point2>)
    requires
        has_no_corner(s),
        s.len() >= 2,
    ensures
        corner_filter(s) == s,
{
    lemma_filter_mid_no_corner(s, 0);
    assert(corner_filter(s) =~= s);
}

/// The corner filter is idempotent on an input without right-angle
/// triples.
pub proof fn lemma_corner_filter_idempotent(s: Seq<Point2>)
    requires
        has_no_corner(s),
    ensures
        corner_filter(corner_filter(s)) == corner_filter(s),
{
    if s.len() == 0 {
        assert(corner_filter(corner_filter(s)) =~= corner_filter(s));
    } else if s.len() == 1 {
        let f = corner_filter(s);
        assert(f =~= seq![s[0], s[0]]);
        assert(has_no_corner(f));
        lemma_corner_filter_no_corner(f);
    } else {
        lemma_corner_filter_no_corner(s);
    }
}

} // verus!
