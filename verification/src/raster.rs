//! Integer line rasterization (Bresenham).
//!
//! The rasterized segment is specified in closed form: the major axis
//! advances by one pixel per step, and the minor axis advances whenever the
//! error accumulator of the classic integer algorithm falls below the minor
//! delta.  The accumulator itself is the specification (`bres_err`,
//! `bres_steps`), so the executable loop is proved to follow it exactly,
//! which pins the output bit for bit.

use vstd::prelude::*;

use crate::geom::MAX_COORD;
use crate::geom::Point2;
use crate::geom::in_bounds;

verus! {

/// Absolute value of an integer.
pub open spec fn iabs(a: int) -> int {
    if a >= 0 {
        a
    } else {
        -a
    }
}

/// Horizontal delta of the segment from `a` to `b`.
pub open spec fn seg_dx(a: Point2, b: Point2) -> int {
    iabs(b.x - a.x)
}

/// Vertical delta of the segment from `a` to `b`.
pub open spec fn seg_dy(a: Point2, b: Point2) -> int {
    iabs(b.y - a.y)
}

/// Horizontal step direction of the segment from `a` to `b`.
pub open spec fn seg_sx(a: Point2, b: Point2) -> int {
    if a.x < b.x {
        1
    } else {
        -1
    }
}

/// Vertical step direction of the segment from `a` to `b`.
pub open spec fn seg_sy(a: Point2, b: Point2) -> int {
    if a.y < b.y {
        1
    } else {
        -1
    }
}

/// Number of steps of the rasterized segment: the larger of the two deltas.
pub open spec fn seg_n(a: Point2, b: Point2) -> int {
    if seg_dx(a, b) > seg_dy(a, b) {
        seg_dx(a, b)
    } else {
        seg_dy(a, b)
    }
}

/// The error accumulator after `i` steps of a run whose major delta is
/// `big` and whose minor delta is `small`.  It starts at `big / 2`, loses
/// `small` every step, and gains `big` on every step in which the minor
/// axis advances (that is, whenever it has fallen below `small`).
pub open spec fn bres_err(big: int, small: int, i: nat) -> int
    decreases i,
{
    if i == 0 {
        big / 2
    } else {
        let e = bres_err(big, small, (i - 1) as nat);
        if e < small {
            e + big - small
        } else {
            e - small
        }
    }
}

/// How often the minor axis has advanced within the first `i` steps.
pub open spec fn bres_steps(big: int, small: int, i: nat) -> int
    decreases i,
{
    if i == 0 {
        0
    } else {
        let e = bres_err(big, small, (i - 1) as nat);
        bres_steps(big, small, (i - 1) as nat) + if e < small {
            1int
        } else {
            0int
        }
    }
}

/// The x coordinate of the `i`-th point of the rasterized segment.
pub open spec fn line_x(a: Point2, b: Point2, i: int) -> int {
    if seg_dx(a, b) > seg_dy(a, b) {
        a.x + seg_sx(a, b) * i
    } else {
        a.x + seg_sx(a, b) * bres_steps(seg_dy(a, b), seg_dx(a, b), i as nat)
    }
}

/// The y coordinate of the `i`-th point of the rasterized segment.
pub open spec fn line_y(a: Point2, b: Point2, i: int) -> int {
    if seg_dx(a, b) > seg_dy(a, b) {
        a.y + seg_sy(a, b) * bres_steps(seg_dx(a, b), seg_dy(a, b), i as nat)
    } else {
        a.y + seg_sy(a, b) * i
    }
}

/// The `i`-th point of the rasterized segment.
pub open spec fn line_pt(a: Point2, b: Point2, i: int) -> Point2 {
    Point2 { x: line_x(a, b, i) as i32, y: line_y(a, b, i) as i32 }
}

/// The rasterized segment from `a` to `b`, both endpoints included.
pub open spec fn line_seq(a: Point2, b: Point2) -> Seq<Point2> {
    Seq::new((seg_n(a, b) + 1) as nat, |i: int| line_pt(a, b, i))
}

/// The error accumulator stays within `[0, big)` and is linear in the step
/// count and the number of minor advances.
pub proof fn lemma_bres_invariant(big: int, small: int, i: nat)
    requires
        0 < big,
        0 <= small <= big,
    ensures
        0 <= bres_err(big, small, i) < big,
        bres_err(big, small, i) == big / 2 - i * small + bres_steps(big, small, i) * big,
        0 <= bres_steps(big, small, i) <= i,
    decreases i,
{
    if i == 0 {
        assert(0 <= big / 2 < big);
    } else {
        let j = (i - 1) as nat;
        lemma_bres_invariant(big, small, j);
        let e = bres_err(big, small, j);
        let s = bres_steps(big, small, j);
        assert(i * small == j * small + small) by (nonlinear_arith)
            requires i == j + 1;
        assert((s + 1) * big == s * big + big) by (nonlinear_arith);
    }
}

/// Within a run of `big` steps the minor axis advances at most `small`
/// times.
pub proof fn lemma_bres_steps_bound(big: int, small: int, i: nat)
    requires
        0 < big,
        0 <= small <= big,
        i <= big,
    ensures
        0 <= bres_steps(big, small, i) <= small,
{
    lemma_bres_invariant(big, small, i);
    let e = bres_err(big, small, i);
    let s = bres_steps(big, small, i);
    assert(s * big == e - big / 2 + i * small);
    assert(i * small <= big * small) by (nonlinear_arith)
        requires 0 <= i <= big, 0 <= small;
    assert(s * big < big + big * small);
    assert(s <= small) by (nonlinear_arith)
        requires s * big < big + big * small, big > 0;
}

/// After exactly `big` steps the minor axis has advanced exactly `small`
/// times, so the run ends on the second endpoint.
pub proof fn lemma_bres_steps_final(big: int, small: int)
    requires
        0 < big,
        0 <= small <= big,
    ensures
        bres_steps(big, small, big as nat) == small,
{
    lemma_bres_invariant(big, small, big as nat);
    let e = bres_err(big, small, big as nat);
    let s = bres_steps(big, small, big as nat);
    assert(s * big == e - big / 2 + big * small);
    assert(0 <= big / 2 < big);
    assert(s * big > big * small - big);
    assert(s * big < big + big * small);
    assert(s == small) by (nonlinear_arith)
        requires
            s * big > big * small - big,
            s * big < big + big * small,
            big > 0;
}

/// With a zero minor delta the minor axis never advances.
pub proof fn lemma_bres_steps_zero(big: int, i: nat)
    requires
        0 < big,
    ensures
        bres_steps(big, 0, i) == 0,
    decreases i,
{
    if i > 0 {
        let j = (i - 1) as nat;
        lemma_bres_steps_zero(big, j);
        lemma_bres_invariant(big, 0, j);
    }
}

/// With equal deltas the minor axis advances on every step.
pub proof fn lemma_bres_steps_diag(big: int, i: nat)
    requires
        0 < big,
    ensures
        bres_steps(big, big, i) == i,
    decreases i,
{
    if i > 0 {
        let j = (i - 1) as nat;
        lemma_bres_steps_diag(big, j);
        lemma_bres_invariant(big, big, j);
    }
}

/// Every point of the rasterized segment lies within the bounding box of
/// the endpoints, so its coordinates fit `i32` exactly.
pub proof fn lemma_line_pt_range(a: Point2, b: Point2, i: int)
    requires
        in_bounds(a),
        in_bounds(b),
        0 <= i <= seg_n(a, b),
    ensures
        -MAX_COORD <= line_x(a, b, i) <= MAX_COORD,
        -MAX_COORD <= line_y(a, b, i) <= MAX_COORD,
        line_pt(a, b, i).x == line_x(a, b, i),
        line_pt(a, b, i).y == line_y(a, b, i),
        in_bounds(line_pt(a, b, i)),
{
    let dx = seg_dx(a, b);
    let dy = seg_dy(a, b);
    if dx > dy {
        lemma_bres_steps_bound(dx, dy, i as nat);
        let s = bres_steps(dx, dy, i as nat);
        assert(0 <= s <= dy);
        assert(line_y(a, b, i) == a.y + seg_sy(a, b) * s);
        if a.y < b.y {
            assert(seg_sy(a, b) * s == s);
        } else {
            assert(seg_sy(a, b) * s == -s);
        }
        if a.x < b.x {
            assert(seg_sx(a, b) * i == i);
        } else {
            assert(seg_sx(a, b) * i == -i);
        }
    } else {
        if dy > 0 {
            lemma_bres_steps_bound(dy, dx, i as nat);
            let s = bres_steps(dy, dx, i as nat);
            assert(0 <= s <= dx);
            assert(line_x(a, b, i) == a.x + seg_sx(a, b) * s);
            if a.x < b.x {
                assert(seg_sx(a, b) * s == s);
            } else {
                assert(seg_sx(a, b) * s == -s);
            }
            if a.y < b.y {
                assert(seg_sy(a, b) * i == i);
            } else {
                assert(seg_sy(a, b) * i == -i);
            }
        }
    }
}

/// The rasterized segment always starts at the first endpoint and ends at
/// the second, whatever the two endpoints are; a degenerate segment is a
/// single point.
pub proof fn lemma_line_seq_endpoints(a: Point2, b: Point2)
    requires
        in_bounds(a),
        in_bounds(b),
    ensures
        line_seq(a, b).len() == seg_n(a, b) + 1,
        line_seq(a, b).first() == a,
        line_seq(a, b).last() == b,
{
    let dx = seg_dx(a, b);
    let dy = seg_dy(a, b);
    let n = seg_n(a, b);
    lemma_line_pt_range(a, b, 0);
    lemma_line_pt_range(a, b, n);
    assert(bres_steps(dx, dy, 0) == 0);
    assert(bres_steps(dy, dx, 0) == 0);
    if dx > dy {
        lemma_bres_steps_final(dx, dy);
        if a.y < b.y {
            assert(seg_sy(a, b) * dy == dy);
        } else {
            assert(seg_sy(a, b) * dy == -dy);
        }
        if a.x < b.x {
            assert(seg_sx(a, b) * dx == dx);
        } else {
            assert(seg_sx(a, b) * dx == -dx);
        }
    } else if dy > 0 {
        lemma_bres_steps_final(dy, dx);
        if a.x < b.x {
            assert(seg_sx(a, b) * dx == dx);
        } else {
            assert(seg_sx(a, b) * dx == -dx);
        }
        if a.y < b.y {
            assert(seg_sy(a, b) * dy == dy);
        } else {
            assert(seg_sy(a, b) * dy == -dy);
        }
    }
}

/// Rasterizing a segment whose endpoints coincide yields exactly that one
/// point.
pub proof fn lemma_line_seq_single(a: Point2)
    requires
        in_bounds(a),
    ensures
        line_seq(a, a) == seq![a],
{
    lemma_line_seq_endpoints(a, a);
    assert(line_seq(a, a) =~= seq![a]);
}

/// Consecutive points of the rasterized segment differ by at most one
/// pixel along each axis, so the segment is 8-connected.
pub proof fn lemma_line_seq_adjacent(a: Point2, b: Point2, i: int)
    requires
        in_bounds(a),
        in_bounds(b),
        0 <= i,
        i + 1 <= seg_n(a, b),
    ensures
        iabs(line_seq(a, b)[i + 1].x - line_seq(a, b)[i].x) <= 1,
        iabs(line_seq(a, b)[i + 1].y - line_seq(a, b)[i].y) <= 1,
{
    let dx = seg_dx(a, b);
    let dy = seg_dy(a, b);
    lemma_line_pt_range(a, b, i);
    lemma_line_pt_range(a, b, i + 1);
    if dx > dy {
        let s = bres_steps(dx, dy, i as nat);
        let s1 = bres_steps(dx, dy, (i + 1) as nat);
        assert(s <= s1 <= s + 1);
        if a.x < b.x {
            assert(seg_sx(a, b) * (i + 1) - seg_sx(a, b) * i == 1);
        } else {
            assert(seg_sx(a, b) * (i + 1) - seg_sx(a, b) * i == -1);
        }
        if a.y < b.y {
            assert(seg_sy(a, b) * s1 - seg_sy(a, b) * s == s1 - s);
        } else {
            assert(seg_sy(a, b) * s1 - seg_sy(a, b) * s == s - s1);
        }
    } else {
        let s = bres_steps(dy, dx, i as nat);
        let s1 = bres_steps(dy, dx, (i + 1) as nat);
        assert(s <= s1 <= s + 1);
        if a.y < b.y {
            assert(seg_sy(a, b) * (i + 1) - seg_sy(a, b) * i == 1);
        } else {
            assert(seg_sy(a, b) * (i + 1) - seg_sy(a, b) * i == -1);
        }
        if a.x < b.x {
            assert(seg_sx(a, b) * s1 - seg_sx(a, b) * s == s1 - s);
        } else {
            assert(seg_sx(a, b) * s1 - seg_sx(a, b) * s == s - s1);
        }
    }
}

/// Only the final point of the rasterized segment equals the second
/// endpoint, so the rasterizing loop stops exactly there.
pub proof fn lemma_line_pt_reaches(a: Point2, b: Point2, i: int)
    requires
        in_bounds(a),
        in_bounds(b),
        0 <= i <= seg_n(a, b),
        line_pt(a, b, i) == b,
    ensures
        i == seg_n(a, b),
{
    let dx = seg_dx(a, b);
    let dy = seg_dy(a, b);
    lemma_line_pt_range(a, b, i);
    if dx > dy {
        if a.x < b.x {
            assert(seg_sx(a, b) * i == i);
        } else {
            assert(seg_sx(a, b) * i == -i);
        }
    } else if dy > 0 {
        if a.y < b.y {
            assert(seg_sy(a, b) * i == i);
        } else {
            assert(seg_sy(a, b) * i == -i);
        }
    }
}

/// On horizontal, vertical and exact-diagonal segments, swapping the two
/// endpoints reverses the rasterized sequence and changes nothing else.
pub proof fn lemma_line_seq_swap_straight(a: Point2, b: Point2)
    requires
        in_bounds(a),
        in_bounds(b),
        a.x == b.x || a.y == b.y || seg_dx(a, b) == seg_dy(a, b),
    ensures
        line_seq(a, b) == line_seq(b, a).reverse(),
{
    let dx = seg_dx(a, b);
    let dy = seg_dy(a, b);
    let n = seg_n(a, b);
    assert(seg_dx(b, a) == dx && seg_dy(b, a) == dy && seg_n(b, a) == n);
    assert forall|i: int| 0 <= i <= n implies line_pt(a, b, i) == line_pt(b, a, n - i) by {
        lemma_line_pt_range(a, b, i);
        lemma_line_pt_range(b, a, n - i);
        if dx == 0 && dy == 0 {
            assert(line_pt(a, b, i) == a && line_pt(b, a, n - i) == b);
        } else if dy == 0 {
            // horizontal: the major axis is x and the minor never advances
            lemma_bres_steps_zero(dx, i as nat);
            lemma_bres_steps_zero(dx, (n - i) as nat);
            if a.x < b.x {
                assert(b.x == a.x + dx);
                assert(seg_sx(a, b) * i == i && seg_sx(b, a) * (n - i) == -(n - i));
            } else {
                assert(b.x == a.x - dx);
                assert(seg_sx(a, b) * i == -i && seg_sx(b, a) * (n - i) == n - i);
            }
        } else if dx == 0 {
            // vertical: the major axis is y and the minor never advances
            lemma_bres_steps_zero(dy, i as nat);
            lemma_bres_steps_zero(dy, (n - i) as nat);
            if a.y < b.y {
                assert(b.y == a.y + dy);
                assert(seg_sy(a, b) * i == i && seg_sy(b, a) * (n - i) == -(n - i));
            } else {
                assert(b.y == a.y - dy);
                assert(seg_sy(a, b) * i == -i && seg_sy(b, a) * (n - i) == n - i);
            }
        } else {
            // exact diagonal: the minor axis advances on every step
            lemma_bres_steps_diag(dy, i as nat);
            lemma_bres_steps_diag(dy, (n - i) as nat);
            if a.x < b.x {
                assert(b.x == a.x + dx);
                assert(seg_sx(a, b) * i == i && seg_sx(b, a) * (n - i) == -(n - i));
            } else {
                assert(b.x == a.x - dx);
                assert(seg_sx(a, b) * i == -i && seg_sx(b, a) * (n - i) == n - i);
            }
            if a.y < b.y {
                assert(b.y == a.y + dy);
                assert(seg_sy(a, b) * i == i && seg_sy(b, a) * (n - i) == -(n - i));
            } else {
                assert(b.y == a.y - dy);
                assert(seg_sy(a, b) * i == -i && seg_sy(b, a) * (n - i) == n - i);
            }
        }
    }
    assert(line_seq(a, b) =~= line_seq(b, a).reverse());
}

/// Rasterize the segment from `p0` to `p1` with Bresenham's line
/// algorithm, appending the points to `canvas` in order, both endpoints
/// included.
pub fn line(p0: Point2, p1: Point2, canvas: &mut Vec<Point2>)
    requires
        in_bounds(p0),
        in_bounds(p1),
    ensures
        final(canvas)@ == old(canvas)@ + line_seq(p0, p1),
{
    let ghost canvas0 = canvas@;
    let dx: i32 = if p1.x >= p0.x {
        p1.x - p0.x
    } else {
        p0.x - p1.x
    };
    let dy: i32 = if p1.y >= p0.y {
        p1.y - p0.y
    } else {
        p0.y - p1.y
    };
    let sx: i32 = if p0.x < p1.x {
        1
    } else {
        -1
    };
    let sy: i32 = if p0.y < p1.y {
        1
    } else {
        -1
    };
    let mut err1: i32 = if dx > dy {
        dx / 2
    } else {
        -(dy / 2)
    };
    let mut p = p0;
    let ghost mut i: int = 0;

    assert(dx == seg_dx(p0, p1) && dy == seg_dy(p0, p1));
    assert(sx == seg_sx(p0, p1) && sy == seg_sy(p0, p1));

    loop
        invariant_except_break
            canvas@ == canvas0 + Seq::new(i as nat, |j: int| line_pt(p0, p1, j)),
        invariant
            in_bounds(p0),
            in_bounds(p1),
            dx == seg_dx(p0, p1),
            dy == seg_dy(p0, p1),
            sx == seg_sx(p0, p1),
            sy == seg_sy(p0, p1),
            0 <= i <= seg_n(p0, p1),
            p.x == line_x(p0, p1, i),
            p.y == line_y(p0, p1, i),
            err1 == if dx > dy {
                bres_err(dx as int, dy as int, i as nat)
            } else {
                -bres_err(dy as int, dx as int, i as nat)
            },
        ensures
            canvas@ == canvas0 + line_seq(p0, p1),
        decreases seg_n(p0, p1) - i,
    {
        proof {
            lemma_line_pt_range(p0, p1, i);
        }
        canvas.push(p);
        proof {
            assert(canvas@ =~= canvas0 + Seq::new((i + 1) as nat, |j: int| line_pt(p0, p1, j)));
        }
        if p.x == p1.x && p.y == p1.y {
            proof {
                lemma_line_pt_reaches(p0, p1, i);
                assert(canvas@ =~= canvas0 + line_seq(p0, p1));
            }
            break;
        }
        proof {
            // The loop has not reached the second endpoint yet.
            lemma_line_seq_endpoints(p0, p1);
            if i == seg_n(p0, p1) {
                assert(line_pt(p0, p1, i) == p1);
                assert(false);
            }
            if dx > dy {
                lemma_bres_invariant(dx as int, dy as int, i as nat);
            } else {
                if dy == 0 {
                    assert(seg_n(p0, p1) == 0);
                    assert(false);
                }
                lemma_bres_invariant(dy as int, dx as int, i as nat);
            }
        }
        let err2 = err1;
        if err2 > -dx {
            err1 = err1 - dy;
            p.x = p.x + sx;
        }
        if err2 < dy {
            err1 = err1 + dx;
            p.y = p.y + sy;
        }
        proof {
            let di = dx as int;
            let dj = dy as int;
            if dx > dy {
                lemma_bres_invariant(di, dj, (i + 1) as nat);
                let e = bres_err(di, dj, i as nat);
                let s = bres_steps(di, dj, i as nat);
                assert(bres_steps(di, dj, (i + 1) as nat) == s + if e < dj { 1int } else { 0int });
                if p0.x < p1.x {
                    assert(seg_sx(p0, p1) * (i + 1) == i + 1);
                    assert(seg_sx(p0, p1) * i == i);
                } else {
                    assert(seg_sx(p0, p1) * (i + 1) == -(i + 1));
                    assert(seg_sx(p0, p1) * i == -i);
                }
                if p0.y < p1.y {
                    assert(seg_sy(p0, p1) * (s + 1) == s + 1);
                    assert(seg_sy(p0, p1) * s == s);
                } else {
                    assert(seg_sy(p0, p1) * (s + 1) == -(s + 1));
                    assert(seg_sy(p0, p1) * s == -s);
                }
            } else {
                lemma_bres_invariant(dj, di, (i + 1) as nat);
                let e = bres_err(dj, di, i as nat);
                let s = bres_steps(dj, di, i as nat);
                assert(bres_steps(dj, di, (i + 1) as nat) == s + if e < di { 1int } else { 0int });
                if p0.y < p1.y {
                    assert(seg_sy(p0, p1) * (i + 1) == i + 1);
                    assert(seg_sy(p0, p1) * i == i);
                } else {
                    assert(seg_sy(p0, p1) * (i + 1) == -(i + 1));
                    assert(seg_sy(p0, p1) * i == -i);
                }
                if p0.x < p1.x {
                    assert(seg_sx(p0, p1) * (s + 1) == s + 1);
                    assert(seg_sx(p0, p1) * s == s);
                } else {
                    assert(seg_sx(p0, p1) * (s + 1) == -(s + 1));
                    assert(seg_sx(p0, p1) * s == -s);
                }
            }
            i = i + 1;
            lemma_line_pt_range(p0, p1, i);
        }
    }
}

} // verus!
