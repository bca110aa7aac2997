//! The brush: its mode set, its drawing state machine, the per-move
//! stroke rebuilding, and symmetry / multi-frame point expansion.

use vstd::prelude::*;

use crate::filter::corner_filter;
use crate::filter::dedup;
use crate::filter::dedup_from;
use crate::filter::dedup_vec;
use crate::filter::filter_mid;
use crate::filter::is_corner;
use crate::filter::lemma_corner_filter_in_bounds;
use crate::filter::lemma_dedup_in_bounds;
use crate::geom::Point2;
use crate::geom::Rgba8;
use crate::geom::ViewCoords;
use crate::geom::ViewExtent;
use crate::geom::all_in_bounds;
use crate::geom::in_bounds;
use crate::raster::line_seq;
use crate::raster::lemma_line_pt_range;
use crate::raster::lemma_line_seq_single;

verus! {

/// Input state of the brush.
#[derive(PartialEq, Eq, Clone, Debug, Structural)]
pub enum BrushState {
    /// Not currently drawing.
    NotDrawing,
    /// Drawing has just started.
    DrawStarted(ViewExtent),
    /// Drawing.
    Drawing(ViewExtent),
    /// Drawing has just ended.
    DrawEnded(ViewExtent),
}

impl BrushState {
    /// The extent recorded when the stroke started.
    pub open spec fn extent(self) -> ViewExtent
        recommends
            !(self is NotDrawing),
    {
        match self {
            BrushState::NotDrawing => ViewExtent { fw: 0, fh: 0, nframes: 0 },
            BrushState::DrawStarted(e) => e,
            BrushState::Drawing(e) => e,
            BrushState::DrawEnded(e) => e,
        }
    }
}

/// Brush mode. Any number of these modes can be active at once, except
/// that at most one `Line` variant is ever active.
#[derive(PartialEq, Eq, Copy, Clone, Debug, Structural)]
pub enum BrushMode {
    /// Erase pixels.
    Erase,
    /// Draw on all frames at once.
    Multi,
    /// Pixel-perfect mode.
    Perfect,
    /// X-Symmetry mode.
    XSym,
    /// Y-Symmetry mode.
    YSym,
    /// X-Ray mode.
    XRay,
    /// Confine the stroke to a straight line from the starting point,
    /// optionally snapped to multiples of an angle in degrees.
    Line(Option<u32>),
}

/// Whether a mode belongs to the `Line` family.
pub open spec fn is_line_mode(m: BrushMode) -> bool {
    m is Line
}

/// Whether a mode is a `Line` mode with a snap angle.
pub open spec fn is_snap_line_mode(m: BrushMode) -> bool {
    match m {
        BrushMode::Line(o) => o is Some,
        _ => false,
    }
}

/// A mode set with every `Line` member dropped.
pub open spec fn strip_line(s: Set<BrushMode>) -> Set<BrushMode> {
    Set::new(|m: BrushMode| s.contains(m) && !is_line_mode(m))
}

/// Truncating integer division: what the division of `i32` computes.
pub open spec fn tdiv(a: int, b: int) -> int {
    if a >= 0 {
        a / b
    } else {
        -((-a) / b)
    }
}

/// `tdiv(a, b)` rounds toward zero: the product `tdiv(a, b) * b` differs
/// from `a` by less than `b`, on the side of zero.
pub proof fn lemma_tdiv_range(a: int, b: int)
    requires
        1 <= b,
    ensures
        a >= 0 ==> a - b < tdiv(a, b) * b <= a && 0 <= tdiv(a, b) <= a,
        a < 0 ==> a <= tdiv(a, b) * b < a + b && a <= tdiv(a, b) <= 0,
{
    if a >= 0 {
        vstd::arithmetic::div_mod::lemma_fundamental_div_mod(a, b);
        vstd::arithmetic::div_mod::lemma_mod_bound(a, b);
        let q = a / b;
        assert(a - b < q * b <= a && 0 <= q <= a) by (nonlinear_arith)
            requires b * q + (a % b) == a, 0 <= a % b < b, 1 <= b, 0 <= a;
    } else {
        vstd::arithmetic::div_mod::lemma_fundamental_div_mod(-a, b);
        vstd::arithmetic::div_mod::lemma_mod_bound(-a, b);
        let q = (-a) / b;
        assert(a <= (-q) * b < a + b && a <= -q <= 0) by (nonlinear_arith)
            requires b * q + ((-a) % b) == -a, 0 <= (-a) % b < b, 1 <= b, 0 <= -a;
    }
}

/// The x coordinate of the horizontal mirror of `q` within its own frame
/// of a strip of `fw`-wide frames, before narrowing to `i32`.
pub open spec fn mirror_x_val(q: Point2, fw: int) -> int {
    let t = tdiv(q.x as int, fw) * fw;
    t + fw - (q.x - t) - 1
}

/// Horizontal mirror of a point within its own frame.
pub open spec fn mirror_x(q: Point2, fw: int) -> Point2 {
    Point2 { x: mirror_x_val(q, fw) as i32, y: q.y }
}

/// Vertical mirror of a point within the whole extent.
pub open spec fn mirror_y(q: Point2, fh: int) -> Point2 {
    Point2 { x: q.x, y: (fh - q.y - 1) as i32 }
}

/// The copies of `q` stamped into its own and every later frame of the
/// strip, the copy in its own frame included.
pub open spec fn frames_of(q: Point2, fw: int, nframes: int) -> Seq<Point2> {
    let cnt = nframes - tdiv(q.x as int, fw);
    Seq::new(
        if cnt >= 0 {
            cnt as nat
        } else {
            0
        },
        |k: int| Point2 { x: (q.x + k * fw) as i32, y: q.y },
    )
}

/// The concatenated frame copies of the points of `s`, from index `j` on.
pub open spec fn frames_cat(s: Seq<Point2>, j: int, fw: int, nframes: int) -> Seq<Point2>
    decreases s.len() - j,
{
    if j < 0 || j >= s.len() {
        Seq::empty()
    } else {
        frames_of(s[j], fw, nframes) + frames_cat(s, j + 1, fw, nframes)
    }
}

/// The expansion of one point under a mode set: under `XSym` its mirror
/// within its own frame is added, under `YSym` the vertical mirror of
/// everything accumulated so far, and under `Multi` a copy of everything
/// accumulated so far in every later frame, in that fixed order.
pub open spec fn spec_expand(ms: Set<BrushMode>, p: Point2, e: ViewExtent) -> Seq<Point2> {
    let s0 = seq![p];
    let s1 = if ms.contains(BrushMode::XSym) {
        s0.push(mirror_x(p, e.fw as int))
    } else {
        s0
    };
    let s2 = if ms.contains(BrushMode::YSym) {
        s1 + Seq::new(s1.len(), |k: int| mirror_y(s1[k], e.fh as int))
    } else {
        s1
    };
    if ms.contains(BrushMode::Multi) {
        s2 + frames_cat(s2, 0, e.fw as int, e.nframes as int)
    } else {
        s2
    }
}

/// The same points, seen as view coordinates.
pub open spec fn as_view_seq(s: Seq<Point2>) -> Seq<ViewCoords> {
    Seq::new(s.len(), |k: int| ViewCoords { x: s[k].x, y: s[k].y })
}

/// Truncating division of `i32` values, the divisor positive.
fn tdiv_i32(a: i32, b: i32) -> (r: i32)
    requires
        1 <= b,
        -0x7fff_ffff <= a,
    ensures
        r == tdiv(a as int, b as int),
{
    proof {
        lemma_tdiv_range(a as int, b as int);
    }
    if a >= 0 {
        let q = (a as u32) / (b as u32);
        q as i32
    } else {
        let na = -a;
        let q = (na as u32) / (b as u32);
        -(q as i32)
    }
}

/// Appending a mode to a mode list inserts it into the mode set.
proof fn lemma_mode_push_to_set(s: Seq<BrushMode>, m: BrushMode)
    ensures
        s.push(m).to_set() == s.to_set().insert(m),
{
    assert forall|x: BrushMode| s.push(m).to_set().contains(x)
        implies s.to_set().insert(m).contains(x) by {
        let k = choose|k: int| 0 <= k < s.push(m).len() && s.push(m)[k] == x;
        if k < s.len() {
            assert(s[k] == x);
            assert(s.contains(x));
        }
    }
    assert forall|x: BrushMode| s.to_set().insert(m).contains(x)
        implies s.push(m).to_set().contains(x) by {
        if x == m {
            assert(s.push(m)[s.len() as int] == x);
        } else {
            let k = choose|k: int| 0 <= k < s.len() && s[k] == x;
            assert(s.push(m)[k] == x);
        }
        assert(s.push(m).contains(x));
    }
    assert(s.push(m).to_set() =~= s.to_set().insert(m));
}

/// Removing the only occurrence of a mode from a duplicate-free mode list
/// removes it from the mode set.
proof fn lemma_mode_remove_to_set(s: Seq<BrushMode>, i: int)
    requires
        0 <= i < s.len(),
        forall|a: int, b: int| 0 <= a < b < s.len() ==> s[a] != s[b],
    ensures
        s.remove(i).to_set() == s.to_set().remove(s[i]),
{
    let m = s[i];
    s.remove_ensures(i);
    assert forall|x: BrushMode| s.remove(i).to_set().contains(x)
        implies s.to_set().remove(m).contains(x) by {
        let k = choose|k: int| 0 <= k < s.remove(i).len() && s.remove(i)[k] == x;
        if k < i {
            assert(s[k] == x);
        } else {
            assert(s[k + 1] == x);
        }
        assert(s.contains(x));
    }
    assert forall|x: BrushMode| s.to_set().remove(m).contains(x)
        implies s.remove(i).to_set().contains(x) by {
        let k = choose|k: int| 0 <= k < s.len() && s[k] == x;
        if k < i {
            assert(s.remove(i)[k] == x);
            assert(s.remove(i).contains(x));
        } else {
            assert(k != i);
            assert(s.remove(i)[k - 1] == x);
            assert(s.remove(i).contains(x));
        }
    }
    assert(s.remove(i).to_set() =~= s.to_set().remove(m));
}

/// At most one `Line` mode is ever active: any two active `Line` modes
/// of a well-formed brush are the same mode.
pub proof fn lemma_line_mode_unique(b: Brush, m1: BrushMode, m2: BrushMode)
    requires
        b.modes_wf(),
        b.mode_set().contains(m1),
        b.mode_set().contains(m2),
        is_line_mode(m1),
        is_line_mode(m2),
    ensures
        m1 == m2,
{
    let i = choose|i: int| 0 <= i < b.modes@.len() && b.modes@[i] == m1;
    let j = choose|j: int| 0 <= j < b.modes@.len() && b.modes@[j] == m2;
    assert(is_line_mode(b.modes@[i]) && is_line_mode(b.modes@[j]));
}

/// A line member of a mode list witnesses an active line mode.
proof fn lemma_line_member_witness(s: Seq<BrushMode>, i: int)
    requires
        0 <= i < s.len(),
        is_line_mode(s[i]),
    ensures
        exists|o: Option<u32>| s.to_set().contains(BrushMode::Line(o)),
{
    assert(s.contains(s[i]));
    assert(s.to_set().contains(BrushMode::Line(s[i]->0)));
}

/// Brush context.
#[derive(PartialEq, Eq, Debug, Clone)]
pub struct Brush {
    /// Brush size in pixels.
    pub size: usize,
    /// Current brush state.
    pub state: BrushState,
    /// Current brush stroke.
    pub stroke: Vec<Point2>,
    /// Current stroke color.
    pub color: Rgba8,
    /// Currently active brush modes.
    pub modes: Vec<BrushMode>,
    /// Current brush position.
    pub curr: Point2,
    /// Previous brush position.
    pub prev: Point2,
}

impl Brush {
    /// The set of active brush modes.
    pub open spec fn mode_set(self) -> Set<BrushMode> {
        self.modes@.to_set()
    }

    /// The current cursor sample.
    pub open spec fn cursor_curr(self) -> Point2 {
        self.curr
    }

    /// The previous cursor sample.
    pub open spec fn cursor_prev(self) -> Point2 {
        self.prev
    }

    /// The mode list holds no duplicates and at most one `Line` member.
    pub open spec fn modes_wf(self) -> bool {
        (forall|i: int, j: int|
            0 <= i < j < self.modes@.len() ==> self.modes@[i] != self.modes@[j])
        && (forall|i: int, j: int|
            0 <= i < self.modes@.len() && 0 <= j < self.modes@.len()
                && is_line_mode(#[trigger] self.modes@[i]) && is_line_mode(#[trigger] self.modes@[j])
                ==> i == j)
    }

    /// Well-formedness: the mode invariants hold and every recorded
    /// coordinate lies within the engine's bounds.
    pub open spec fn wf(self) -> bool {
        self.modes_wf()
        && in_bounds(self.cursor_curr())
        && in_bounds(self.cursor_prev())
        && all_in_bounds(self.stroke@)
    }

    /// Whether some `Line` mode is active.
    pub open spec fn has_line_mode(self) -> bool {
        exists|o: Option<u32>| self.mode_set().contains(BrushMode::Line(o))
    }

    /// Whether a `Line` mode with a snap angle is active.
    pub open spec fn has_snap_line_mode(self) -> bool {
        exists|d: u32| self.mode_set().contains(BrushMode::Line(Some(d)))
    }

    /// Check whether the given mode is active.
    pub fn is_set(&self, m: BrushMode) -> (r: bool)
        ensures
            r == self.mode_set().contains(m),
    {
        let n = self.modes.len();
        let mut i: usize = 0;
        while i < n
            invariant
                n == self.modes@.len(),
                0 <= i <= n,
                forall|j: int| 0 <= j < i ==> self.modes@[j] != m,
            decreases n - i,
        {
            if self.modes[i] == m {
                assert(self.modes@.contains(m));
                return true;
            }
            i = i + 1;
        }
        assert(!self.modes@.contains(m));
        false
    }

    /// Insert a mode known to be absent; private helper of `set`.
    fn insert_mode(&mut self, m: BrushMode)
        requires
            old(self).modes_wf(),
            !old(self).mode_set().contains(m),
            is_line_mode(m) ==> !old(self).has_line_mode(),
        ensures
            final(self).modes_wf(),
            final(self).mode_set() == old(self).mode_set().insert(m),
            final(self).size == old(self).size,
            final(self).state == old(self).state,
            final(self).stroke == old(self).stroke,
            final(self).color == old(self).color,
            final(self).cursor_curr() == old(self).cursor_curr(),
            final(self).cursor_prev() == old(self).cursor_prev(),
    {
        let ghost old_modes = self.modes@;
        self.modes.push(m);
        proof {
            lemma_mode_push_to_set(old_modes, m);
            assert forall|i: int, j: int|
                0 <= i < self.modes@.len() && 0 <= j < self.modes@.len()
                    && is_line_mode(#[trigger] self.modes@[i]) && is_line_mode(#[trigger] self.modes@[j])
                implies i == j by {
                if i < old_modes.len() && is_line_mode(old_modes[i]) {
                    lemma_line_member_witness(old_modes, i);
                }
                if j < old_modes.len() && is_line_mode(old_modes[j]) {
                    lemma_line_member_witness(old_modes, j);
                }
            }
            assert forall|i: int, j: int|
                0 <= i < j < self.modes@.len() implies self.modes@[i] != self.modes@[j] by {
                if j < old_modes.len() {
                } else {
                    assert(old_modes.contains(old_modes[i]));
                }
            }
        }
    }

    /// Remove a mode if present; private helper of `unset`.
    fn remove_mode(&mut self, m: BrushMode) -> (r: bool)
        requires
            old(self).modes_wf(),
        ensures
            final(self).modes_wf(),
            final(self).mode_set() == old(self).mode_set().remove(m),
            r == old(self).mode_set().contains(m),
            final(self).size == old(self).size,
            final(self).state == old(self).state,
            final(self).stroke == old(self).stroke,
            final(self).color == old(self).color,
            final(self).cursor_curr() == old(self).cursor_curr(),
            final(self).cursor_prev() == old(self).cursor_prev(),
    {
        let n = self.modes.len();
        let mut i: usize = 0;
        while i < n
            invariant
                n == self.modes@.len(),
                0 <= i <= n,
                forall|j: int| 0 <= j < i ==> self.modes@[j] != m,
            ensures
                0 <= i <= n,
                n == self.modes@.len(),
                i < n ==> self.modes@[i as int] == m,
                forall|j: int| 0 <= j < i ==> self.modes@[j] != m,
            decreases n - i,
        {
            if self.modes[i] == m {
                break;
            }
            i = i + 1;
        }
        if i < n {
            let ghost old_modes = self.modes@;
            self.modes.remove(i);
            proof {
                assert(old_modes.contains(m));
                lemma_mode_remove_to_set(old_modes, i as int);
                assert(self.mode_set() =~= old(self).mode_set().remove(m));
                old_modes.remove_ensures(i as int);
                assert forall|a: int, b: int|
                    0 <= a < b < self.modes@.len() implies self.modes@[a] != self.modes@[b] by {
                    let a0: int = if a < i { a } else { a + 1 };
                    let b0: int = if b < i { b } else { b + 1 };
                    assert(self.modes@[a] == old_modes[a0]);
                    assert(self.modes@[b] == old_modes[b0]);
                }
                assert forall|a: int, b: int|
                    0 <= a < self.modes@.len() && 0 <= b < self.modes@.len()
                        && is_line_mode(#[trigger] self.modes@[a])
                        && is_line_mode(#[trigger] self.modes@[b])
                    implies a == b by {
                    let a0: int = if a < i { a } else { a + 1 };
                    let b0: int = if b < i { b } else { b + 1 };
                    assert(self.modes@[a] == old_modes[a0]);
                    assert(self.modes@[b] == old_modes[b0]);
                }
            }
            true
        } else {
            proof {
                assert(!self.modes@.contains(m));
                assert(self.mode_set() =~= old(self).mode_set().remove(m));
            }
            false
        }
    }

    /// If a line mode is active, return it.
    pub fn line_mode(&self) -> (r: Option<BrushMode>)
        requires
            self.modes_wf(),
        ensures
            match r {
                Some(m) => is_line_mode(m) && self.mode_set().contains(m)
                    && forall|x: BrushMode|
                        self.mode_set().contains(x) && is_line_mode(x) ==> x == m,
                None => !self.has_line_mode(),
            },
    {
        let n = self.modes.len();
        let mut i: usize = 0;
        while i < n
            invariant
                n == self.modes@.len(),
                0 <= i <= n,
                self.modes_wf(),
                forall|j: int| 0 <= j < i ==> !is_line_mode(self.modes@[j]),
            decreases n - i,
        {
            let m = self.modes[i];
            if let BrushMode::Line(_) = m {
                proof {
                    assert(self.modes@.contains(m));
                    assert forall|x: BrushMode|
                        self.mode_set().contains(x) && is_line_mode(x) implies x == m by {
                        let k = choose|k: int| 0 <= k < self.modes@.len() && self.modes@[k] == x;
                        assert(is_line_mode(self.modes@[k]) && is_line_mode(self.modes@[i as int]));
                    }
                }
                return Some(m);
            }
            i = i + 1;
        }
        proof {
            if self.has_line_mode() {
                let o = choose|o: Option<u32>| self.mode_set().contains(BrushMode::Line(o));
                let k = choose|k: int|
                    0 <= k < self.modes@.len() && self.modes@[k] == BrushMode::Line(o);
                assert(is_line_mode(self.modes@[k]));
            }
        }
        None
    }

    /// Activate the given brush mode.  Activating any `Line` mode first
    /// evicts whichever `Line` mode is active, so only one snap
    /// configuration is ever active; activating a `Line` mode therefore
    /// always reports an insertion.
    pub fn set(&mut self, m: BrushMode) -> (r: bool)
        requires
            old(self).modes_wf(),
        ensures
            final(self).modes_wf(),
            is_line_mode(m) ==> final(self).mode_set() == strip_line(old(self).mode_set()).insert(m)
                && r == true,
            !is_line_mode(m) ==> final(self).mode_set() == old(self).mode_set().insert(m)
                && r == !old(self).mode_set().contains(m),
            final(self).size == old(self).size,
            final(self).state == old(self).state,
            final(self).stroke == old(self).stroke,
            final(self).color == old(self).color,
            final(self).cursor_curr() == old(self).cursor_curr(),
            final(self).cursor_prev() == old(self).cursor_prev(),
    {
        let is_line = matches!(m, BrushMode::Line(_));
        if is_line {
            // only one line sub-mode may be active at a time
            if let Some(line_mode) = self.line_mode() {
                self.unset(line_mode);
            } else {
                proof {
                    assert forall|x: BrushMode| old(self).mode_set().contains(x)
                        implies !is_line_mode(x) by {
                        if is_line_mode(x) {
                            assert(old(self).mode_set().contains(BrushMode::Line(x->0)));
                        }
                    }
                    assert(self.mode_set() =~= strip_line(old(self).mode_set()));
                }
            }
        }
        if self.is_set(m) {
            proof {
                if is_line {
                    assert(strip_line(old(self).mode_set()).contains(m));
                    assert(false);
                }
                assert(self.mode_set() =~= old(self).mode_set().insert(m));
            }
            false
        } else {
            proof {
                if is_line && self.has_line_mode() {
                    let o = choose|o: Option<u32>| self.mode_set().contains(BrushMode::Line(o));
                    assert(strip_line(old(self).mode_set()).contains(BrushMode::Line(o)));
                    assert(false);
                }
            }
            self.insert_mode(m);
            true
        }
    }

    /// De-activate the given brush mode.  Passing any `Line` mode removes
    /// whichever `Line` mode is active, not necessarily the exact value
    /// passed.
    pub fn unset(&mut self, m: BrushMode) -> (r: bool)
        requires
            old(self).modes_wf(),
        ensures
            final(self).modes_wf(),
            is_line_mode(m) ==> final(self).mode_set() == strip_line(old(self).mode_set())
                && r == old(self).has_line_mode(),
            !is_line_mode(m) ==> final(self).mode_set() == old(self).mode_set().remove(m)
                && r == old(self).mode_set().contains(m),
            final(self).size == old(self).size,
            final(self).state == old(self).state,
            final(self).stroke == old(self).stroke,
            final(self).color == old(self).color,
            final(self).cursor_curr() == old(self).cursor_curr(),
            final(self).cursor_prev() == old(self).cursor_prev(),
    {
        let is_line = matches!(m, BrushMode::Line(_));
        if is_line {
            if let Some(line_mode) = self.line_mode() {
                let r = self.remove_mode(line_mode);
                proof {
                    assert forall|x: BrushMode|
                        old(self).mode_set().remove(line_mode).contains(x)
                            == strip_line(old(self).mode_set()).contains(x) by {
                        if old(self).mode_set().contains(x) && is_line_mode(x) {
                            assert(x == line_mode);
                        }
                    }
                    assert(self.mode_set() =~= strip_line(old(self).mode_set()));
                    assert(old(self).mode_set().contains(BrushMode::Line(line_mode->0)));
                }
                return r;
            }
            let r = self.remove_mode(m);
            proof {
                if old(self).mode_set().contains(m) {
                    assert(old(self).mode_set().contains(BrushMode::Line(m->0)));
                }
                assert(!old(self).mode_set().contains(m));
                assert forall|x: BrushMode| old(self).mode_set().contains(x)
                    implies !is_line_mode(x) by {
                    if is_line_mode(x) {
                        assert(old(self).mode_set().contains(BrushMode::Line(x->0)));
                    }
                }
                assert(self.mode_set() =~= strip_line(old(self).mode_set()));
            }
            return r;
        }
        self.remove_mode(m)
    }

    /// Toggle the given brush mode.
    pub fn toggle(&mut self, m: BrushMode)
        requires
            old(self).modes_wf(),
        ensures
            final(self).modes_wf(),
            old(self).mode_set().contains(m) ==> final(self).mode_set() == (
                if is_line_mode(m) {
                    strip_line(old(self).mode_set())
                } else {
                    old(self).mode_set().remove(m)
                }
            ),
            !old(self).mode_set().contains(m) ==> final(self).mode_set() == (
                if is_line_mode(m) {
                    strip_line(old(self).mode_set()).insert(m)
                } else {
                    old(self).mode_set().insert(m)
                }
            ),
            final(self).size == old(self).size,
            final(self).state == old(self).state,
            final(self).stroke == old(self).stroke,
            final(self).color == old(self).color,
            final(self).cursor_curr() == old(self).cursor_curr(),
            final(self).cursor_prev() == old(self).cursor_prev(),
    {
        if self.is_set(m) {
            self.unset(m);
        } else {
            self.set(m);
        }
    }

    /// De-activate every brush mode.
    pub fn reset(&mut self)
        ensures
            final(self).modes_wf(),
            final(self).mode_set() == Set::<BrushMode>::empty(),
            final(self).size == old(self).size,
            final(self).state == old(self).state,
            final(self).stroke == old(self).stroke,
            final(self).color == old(self).color,
            final(self).cursor_curr() == old(self).cursor_curr(),
            final(self).cursor_prev() == old(self).cursor_prev(),
    {
        self.modes.clear();
        proof {
            assert(self.mode_set() =~= Set::<BrushMode>::empty());
        }
    }

    /// The stroke buffer that one `draw` step rebuilds, given the
    /// incoming point `p` and the line-mode segment endpoint `end`.
    /// With a line mode active, the segment from the stroke's first point
    /// (or `p`) to `end` replaces the buffer; otherwise the segment from
    /// the previous to the current cursor sample is appended and
    /// consecutive duplicates are removed.  `Perfect` mode then corner
    /// filters the whole buffer.
    pub open spec fn stroke_after(self, p: Point2, end: Point2) -> Seq<Point2> {
        let base = if self.has_line_mode() {
            let anchor = if self.stroke@.len() > 0 {
                self.stroke@[0]
            } else {
                p
            };
            line_seq(anchor, end)
        } else {
            let prev = if self.state is DrawStarted {
                p
            } else {
                self.cursor_curr()
            };
            dedup(self.stroke@ + line_seq(prev, p))
        };
        if self.mode_set().contains(BrushMode::Perfect) {
            corner_filter(base)
        } else {
            base
        }
    }

    /// One step of stroke rebuilding, shared by `start_drawing`, `draw`
    /// and `draw_snapped`.
    fn draw_step(&mut self, p: Point2, end: Point2)
        requires
            old(self).wf(),
            in_bounds(p),
            in_bounds(end),
            old(self).state is DrawStarted || old(self).state is Drawing,
            !old(self).has_snap_line_mode() ==> end == p,
        ensures
            final(self).wf(),
            final(self).stroke@ == old(self).stroke_after(p, end),
            final(self).state == BrushState::Drawing(old(self).state.extent()),
            final(self).cursor_curr() == p,
            final(self).cursor_prev() == (if old(self).state is DrawStarted {
                p
            } else {
                old(self).cursor_curr()
            }),
            final(self).modes == old(self).modes,
            final(self).size == old(self).size,
            final(self).color == old(self).color,
    {
        self.prev = if matches!(self.state, BrushState::DrawStarted(_)) {
            p
        } else {
            self.curr
        };
        self.curr = p;

        let lm = self.line_mode();
        proof {
            match lm {
                Some(act) => {
                    assert(self.mode_set().contains(BrushMode::Line(act->0)));
                    assert(old(self).has_line_mode());
                }
                None => {
                    if old(self).has_line_mode() {
                        let o = choose|o: Option<u32>|
                            old(self).mode_set().contains(BrushMode::Line(o));
                        assert(self.mode_set().contains(BrushMode::Line(o)));
                        assert(false);
                    }
                }
            }
        }
        if lm.is_some() {
            let anchor = if self.stroke.len() > 0 {
                self.stroke[0]
            } else {
                p
            };
            self.stroke.clear();
            crate::raster::line(anchor, end, &mut self.stroke);
            proof {
                assert forall|k: int| 0 <= k < self.stroke@.len()
                    implies in_bounds(self.stroke@[k]) by {
                    lemma_line_pt_range(anchor, end, k);
                }
            }
        } else {
            let prev = self.prev;
            crate::raster::line(prev, p, &mut self.stroke);
            proof {
                assert forall|k: int| 0 <= k < self.stroke@.len()
                    implies in_bounds(self.stroke@[k]) by {
                    if k < old(self).stroke@.len() {
                        assert(self.stroke@[k] == old(self).stroke@[k]);
                    } else {
                        let j = k - old(self).stroke@.len();
                        assert(self.stroke@[k] == line_seq(prev, p)[j]);
                        lemma_line_pt_range(prev, p, j);
                    }
                }
            }
            let d = dedup_vec(&self.stroke);
            proof {
                lemma_dedup_in_bounds(self.stroke@);
            }
            self.stroke = d;
        }

        if self.is_set(BrushMode::Perfect) {
            proof {
                lemma_corner_filter_in_bounds(self.stroke@);
            }
            let f = Brush::filter(&self.stroke);
            self.stroke = f;
        }

        match &self.state {
            BrushState::Drawing(_) => {}
            BrushState::DrawStarted(ex) => {
                let e = *ex;
                self.state = BrushState::Drawing(e);
            }
            _ => {
                proof {
                    assert(false);
                }
            }
        }
    }

    /// Draw. Called while input is pressed and no snap-angle line mode is
    /// active; the rebuilt stroke is `stroke_after` with the incoming
    /// point itself as the segment endpoint.
    pub fn draw(&mut self, p: ViewCoords)
        requires
            old(self).wf(),
            in_bounds(p.as_point()),
            old(self).state is DrawStarted || old(self).state is Drawing,
            !old(self).has_snap_line_mode(),
        ensures
            final(self).wf(),
            final(self).stroke@ == old(self).stroke_after(p.as_point(), p.as_point()),
            final(self).state == BrushState::Drawing(old(self).state.extent()),
            final(self).cursor_curr() == p.as_point(),
            final(self).cursor_prev() == (if old(self).state is DrawStarted {
                p.as_point()
            } else {
                old(self).cursor_curr()
            }),
            final(self).modes == old(self).modes,
            final(self).size == old(self).size,
            final(self).color == old(self).color,
    {
        let q = p.to_point();
        self.draw_step(q, q);
    }

    /// One `draw` step while a snap-angle line mode is active.  The
    /// caller supplies the snapped segment endpoint, computed outside the
    /// engine from the anchor, the cursor and the snap angle.
    pub fn draw_snapped(&mut self, p: ViewCoords, end: ViewCoords)
        requires
            old(self).wf(),
            in_bounds(p.as_point()),
            in_bounds(end.as_point()),
            old(self).state is DrawStarted || old(self).state is Drawing,
            old(self).has_snap_line_mode(),
        ensures
            final(self).wf(),
            final(self).stroke@ == old(self).stroke_after(p.as_point(), end.as_point()),
            final(self).state == BrushState::Drawing(old(self).state.extent()),
            final(self).cursor_curr() == p.as_point(),
            final(self).cursor_prev() == (if old(self).state is DrawStarted {
                p.as_point()
            } else {
                old(self).cursor_curr()
            }),
            final(self).modes == old(self).modes,
            final(self).size == old(self).size,
            final(self).color == old(self).color,
    {
        self.draw_step(p.to_point(), end.to_point());
    }

    /// Start drawing. Called when input is first pressed; valid from
    /// `NotDrawing` only.  Resets the stroke buffer and performs one
    /// `draw` step on the incoming point, so the buffer holds exactly
    /// that point (twice under `Perfect` mode, which always duplicates a
    /// single-point stroke).
    pub fn start_drawing(&mut self, p: ViewCoords, color: Rgba8, extent: ViewExtent)
        requires
            old(self).wf(),
            in_bounds(p.as_point()),
            old(self).state is NotDrawing,
        ensures
            final(self).wf(),
            final(self).state == BrushState::Drawing(extent),
            final(self).color == color,
            final(self).stroke@ == (if old(self).mode_set().contains(BrushMode::Perfect) {
                seq![p.as_point(), p.as_point()]
            } else {
                seq![p.as_point()]
            }),
            final(self).cursor_curr() == p.as_point(),
            final(self).cursor_prev() == p.as_point(),
            final(self).modes == old(self).modes,
            final(self).size == old(self).size,
    {
        self.state = BrushState::DrawStarted(extent);
        self.color = color;
        self.stroke = Vec::new();
        let ghost b1 = *self;
        let q = p.to_point();
        self.draw_step(q, q);
        proof {
            lemma_line_seq_single(q);
            assert(dedup_from(seq![q], 1) == Seq::<Point2>::empty());
            assert(dedup(Seq::<Point2>::empty() + line_seq(q, q)) =~= seq![q]);
            if b1.has_line_mode() {
                assert(b1.stroke_after(q, q) == if b1.mode_set().contains(BrushMode::Perfect) {
                    corner_filter(seq![q])
                } else {
                    seq![q]
                });
            }
            assert(filter_mid(seq![q], 0) == Seq::<Point2>::empty());
            assert(corner_filter(seq![q]) =~= seq![q, q]);
        }
    }

    /// Expand a point into all brush heads: its frame mirror under
    /// `XSym`, the vertical mirror of everything so far under `YSym`,
    /// and a copy of everything so far in every later frame under
    /// `Multi`.
    pub fn expand(&self, p: ViewCoords, extent: ViewExtent) -> (r: Vec<ViewCoords>)
        requires
            in_bounds(p.as_point()),
            extent.wf(),
        ensures
            r@ == as_view_seq(spec_expand(self.mode_set(), p.as_point(), extent)),
    {
        let q = p.to_point();
        let fwi: i32 = extent.fw as i32;
        let fhi: i32 = extent.fh as i32;
        proof {
            assert((extent.nframes as int) <= (extent.fw as int) * (extent.nframes as int))
                by (nonlinear_arith)
                requires 1 <= extent.fw as int, 0 <= extent.nframes as int;
        }
        let nfi: i32 = extent.nframes as i32;
        let ghost fw = extent.fw as int;
        let ghost fh = extent.fh as int;
        let ghost nf = extent.nframes as int;

        let mut pixels: Vec<Point2> = Vec::new();
        pixels.push(q);
        let ghost s0 = seq![q];

        if self.is_set(BrushMode::XSym) {
            proof {
                lemma_tdiv_range(q.x as int, fw);
            }
            let fi = tdiv_i32(q.x, fwi);
            let t = fi * fwi;
            let mx = t + fwi - (q.x - t) - 1;
            pixels.push(Point2 { x: mx, y: q.y });
        }
        let ghost s1 = if self.mode_set().contains(BrushMode::XSym) {
            s0.push(mirror_x(q, fw))
        } else {
            s0
        };
        proof {
            assert(pixels@ =~= s1);
            assert forall|k: int| 0 <= k < s1.len()
                implies #[trigger] s1[k].y == q.y && -0x2030_0000 <= s1[k].x <= 0x2030_0000 by {
                if k == 1 {
                    lemma_tdiv_range(q.x as int, fw);
                }
            }
        }

        if self.is_set(BrushMode::YSym) {
            let n1 = pixels.len();
            let ghost base1 = pixels@;
            let mut j: usize = 0;
            while j < n1
                invariant
                    n1 == base1.len(),
                    base1 == s1,
                    s1.len() <= 2,
                    0 <= j <= n1,
                    in_bounds(q),
                    1 <= fhi <= 0x10_0000,
                    fh == fhi as int,
                    forall|k: int| 0 <= k < s1.len()
                        ==> #[trigger] s1[k].y == q.y && -0x2030_0000 <= s1[k].x <= 0x2030_0000,
                    pixels@ == base1 + Seq::new(j as nat, |k: int| mirror_y(base1[k], fh)),
                decreases n1 - j,
            {
                let q2 = pixels[j];
                let my = fhi - q2.y - 1;
                pixels.push(Point2 { x: q2.x, y: my });
                proof {
                    assert(pixels@ =~= base1 + Seq::new((j + 1) as nat, |k: int| mirror_y(base1[k], fh)));
                }
                j = j + 1;
            }
        }
        let ghost s2 = if self.mode_set().contains(BrushMode::YSym) {
            s1 + Seq::new(s1.len(), |k: int| mirror_y(s1[k], fh))
        } else {
            s1
        };
        proof {
            assert(pixels@ =~= s2);
            assert forall|k: int| 0 <= k < s2.len()
                implies -0x2030_0000 <= #[trigger] s2[k].x <= 0x2030_0000 by {
                if k >= s1.len() {
                    assert(s2[k].x == mirror_y(s1[k - s1.len()], fh).x);
                }
            }
        }

        if self.is_set(BrushMode::Multi) {
            let n2 = pixels.len();
            let ghost base2 = pixels@;
            let mut j: usize = 0;
            while j < n2
                invariant
                    n2 == base2.len(),
                    base2 == s2,
                    0 <= j <= n2,
                    1 <= fwi <= 0x10_0000,
                    fw == fwi as int,
                    nf == nfi as int,
                    1 <= nf <= 0x4000_0000,
                    fw * nf <= 0x4000_0000,
                    forall|k: int| 0 <= k < base2.len()
                        ==> -0x2030_0000 <= #[trigger] base2[k].x <= 0x2030_0000,
                    pixels@.len() >= n2,
                    forall|x: int| 0 <= x < n2 ==> pixels@[x] == base2[x],
                    base2 + frames_cat(base2, 0, fw, nf) == pixels@ + frames_cat(
                        base2,
                        j as int,
                        fw,
                        nf,
                    ),
                decreases n2 - j,
            {
                proof {
                    assert(pixels@[j as int] == base2[j as int]);
                }
                let q2 = pixels[j];
                proof {
                    lemma_tdiv_range(q2.x as int, fw);
                }
                let fi = tdiv_i32(q2.x, fwi);
                let ghost t = tdiv(q2.x as int, fw) * fw;
                proof {
                    assert(fi as int * fw == t);
                }
                let cnt = nfi - fi;
                let ghost fr = frames_of(base2[j as int], fw, nf);
                proof {
                    assert(fr.len() == if cnt >= 0 { cnt as int } else { 0 });
                }
                let mut k: i32 = 0;
                while k < cnt
                    invariant
                        0 <= k,
                        cnt > 0 ==> k <= cnt,
                        cnt <= 0 ==> k == 0,
                        cnt == nf - tdiv(q2.x as int, fw),
                        fi as int == tdiv(q2.x as int, fw),
                        t == tdiv(q2.x as int, fw) * fw,
                        q2.x as int - fw < t <= q2.x as int || q2.x as int <= t < q2.x as int + fw,
                        1 <= fwi <= 0x10_0000,
                        fw == fwi as int,
                        nf == nfi as int,
                        1 <= nf <= 0x4000_0000,
                        fw * nf <= 0x4000_0000,
                        -0x2030_0000 <= q2.x as int <= 0x2030_0000,
                        q2 == base2[j as int],
                        0 <= j < base2.len(),
                        fr == frames_of(base2[j as int], fw, nf),
                        pixels@.len() >= n2,
                        n2 == base2.len(),
                        forall|x: int| 0 <= x < n2 ==> pixels@[x] == base2[x],
                        base2 + frames_cat(base2, 0, fw, nf) == pixels@ + fr.skip(k as int)
                            + frames_cat(base2, j + 1, fw, nf),
                    decreases cnt - k,
                {
                    proof {
                        assert(((fi + k) as int) * fw < nf * fw) by (nonlinear_arith)
                            requires ((fi + k) as int) < nf, 1 <= fw;
                        assert(((fi + k) as int) * fw == (fi as int) * fw + (k as int) * fw)
                            by (nonlinear_arith);
                        assert(0 <= (k as int) * fw) by (nonlinear_arith)
                            requires 0 <= k as int, 0 <= fw;
                        assert(nf * fw <= 0x4000_0000) by (nonlinear_arith)
                            requires fw * nf <= 0x4000_0000;
                    }
                    let off = k * fwi;
                    let nx = q2.x + off;
                    pixels.push(Point2 { x: nx, y: q2.y });
                    proof {
                        assert(fr[k as int] == (Point2 { x: nx, y: q2.y }));
                        assert(fr.skip(k as int) =~= seq![fr[k as int]] + fr.skip(k + 1));
                        assert(base2 + frames_cat(base2, 0, fw, nf) =~= pixels@ + fr.skip(k + 1)
                            + frames_cat(base2, j + 1, fw, nf));
                    }
                    k = k + 1;
                }
                proof {
                    assert(fr.skip(k as int) =~= Seq::<Point2>::empty());
                    assert(frames_cat(base2, j as int, fw, nf) == fr + frames_cat(
                        base2,
                        j + 1,
                        fw,
                        nf,
                    ));
                    assert(base2 + frames_cat(base2, 0, fw, nf) =~= pixels@ + frames_cat(
                        base2,
                        j + 1,
                        fw,
                        nf,
                    ));
                }
                j = j + 1;
            }
            proof {
                assert(frames_cat(base2, n2 as int, fw, nf) == Seq::<Point2>::empty());
                assert(pixels@ =~= s2 + frames_cat(s2, 0, fw, nf));
            }
        }
        proof {
            assert(pixels@ == spec_expand(self.mode_set(), p.as_point(), extent));
        }

        let m = pixels.len();
        let mut out: Vec<ViewCoords> = Vec::new();
        let mut k2: usize = 0;
        while k2 < m
            invariant
                m == pixels@.len(),
                0 <= k2 <= m,
                out@ == as_view_seq(pixels@).take(k2 as int),
            decreases m - k2,
        {
            let q3 = pixels[k2];
            out.push(ViewCoords { x: q3.x, y: q3.y });
            proof {
                assert(out@ =~= as_view_seq(pixels@).take(k2 + 1));
            }
            k2 = k2 + 1;
        }
        proof {
            assert(out@ =~= as_view_seq(pixels@));
        }
        out
    }

    /// Run every frame by the session; a stroke that has just ended is
    /// retired and the brush returns to `NotDrawing`.
    pub fn update(&mut self)
        ensures
            old(self).state is DrawEnded ==> final(self).state == BrushState::NotDrawing
                && final(self).stroke@ == Seq::<Point2>::empty(),
            !(old(self).state is DrawEnded) ==> *final(self) == *old(self),
            final(self).size == old(self).size,
            final(self).color == old(self).color,
            final(self).modes == old(self).modes,
            final(self).curr == old(self).curr,
            final(self).prev == old(self).prev,
            old(self).wf() ==> final(self).wf(),
    {
        if let BrushState::DrawEnded(_) = self.state {
            self.state = BrushState::NotDrawing;
            self.stroke.clear();
        }
    }

    /// Stop drawing. Called when input is released; valid while a stroke
    /// is in progress.
    pub fn stop_drawing(&mut self)
        requires
            old(self).state is DrawStarted || old(self).state is Drawing,
        ensures
            final(self).state == BrushState::DrawEnded(old(self).state.extent()),
            final(self).stroke == old(self).stroke,
            final(self).size == old(self).size,
            final(self).color == old(self).color,
            final(self).modes == old(self).modes,
            final(self).curr == old(self).curr,
            final(self).prev == old(self).prev,
            old(self).wf() ==> final(self).wf(),
    {
        match &self.state {
            BrushState::DrawStarted(ex) => {
                let e = *ex;
                self.state = BrushState::DrawEnded(e);
            }
            BrushState::Drawing(ex) => {
                let e = *ex;
                self.state = BrushState::DrawEnded(e);
            }
            _ => {
                proof {
                    assert(false);
                }
            }
        }
    }

    /// Draw a line between two points. Uses Bresenham's line algorithm.
    pub fn line(p0: Point2, p1: Point2, canvas: &mut Vec<Point2>)
        requires
            in_bounds(p0),
            in_bounds(p1),
        ensures
            final(canvas)@ == old(canvas)@ + line_seq(p0, p1),
    {
        crate::raster::line(p0, p1, canvas);
    }

    /// Filter a brush stroke to remove 'L' shapes. This is often called
    /// *pixel perfect* mode.
    pub fn filter(stroke: &Vec<Point2>) -> (r: Vec<Point2>)
        ensures
            r@ == corner_filter(stroke@),
    {
        let mut out: Vec<Point2> = Vec::new();
        let n = stroke.len();
        if n == 0 {
            proof {
                assert(out@ =~= corner_filter(stroke@));
            }
            return out;
        }
        out.push(stroke[0]);
        let mut i: usize = 0;
        while n - i > 2
            invariant
                n == stroke@.len(),
                n >= 1,
                0 <= i <= n,
                seq![stroke@[0]] + filter_mid(stroke@, 0) == out@ + filter_mid(stroke@, i as int),
            decreases n - i,
        {
            let a = stroke[i];
            let b = stroke[i + 1];
            let c = stroke[i + 2];
            if (a.y == b.y && c.x == b.x) || (a.x == b.x && c.y == b.y) {
                out.push(c);
                proof {
                    assert(is_corner(stroke@[i as int], stroke@[i + 1], stroke@[i + 2]));
                    assert(seq![stroke@[0]] + filter_mid(stroke@, 0) =~= out@ + filter_mid(
                        stroke@,
                        i + 2,
                    ));
                }
                i = i + 2;
            } else {
                out.push(b);
                proof {
                    assert(!is_corner(stroke@[i as int], stroke@[i + 1], stroke@[i + 2]));
                    assert(seq![stroke@[0]] + filter_mid(stroke@, 0) =~= out@ + filter_mid(
                        stroke@,
                        i + 1,
                    ));
                }
                i = i + 1;
            }
        }
        proof {
            assert(filter_mid(stroke@, i as int) == Seq::<Point2>::empty());
        }
        out.push(stroke[n - 1]);
        proof {
            assert(out@ =~= corner_filter(stroke@));
        }
        out
    }

    /// Check whether the brush is currently drawing.
    pub fn is_drawing(&self) -> (r: bool)
        ensures
            r == !(self.state is NotDrawing),
    {
        !matches!(self.state, BrushState::NotDrawing)
    }
}

impl Default for Brush {
    /// A fresh brush: size one, not drawing, empty stroke, transparent
    /// color, no modes, cursor at the origin.
    fn default() -> (b: Brush)
        ensures
            b.wf(),
            b.size == 1,
            b.state == BrushState::NotDrawing,
            b.stroke@ == Seq::<Point2>::empty(),
            b.color == (Rgba8 { r: 0, g: 0, b: 0, a: 0 }),
            b.mode_set() == Set::<BrushMode>::empty(),
            b.cursor_curr() == (Point2 { x: 0, y: 0 }),
            b.cursor_prev() == (Point2 { x: 0, y: 0 }),
    {
        let b = Brush {
            size: 1,
            state: BrushState::NotDrawing,
            stroke: Vec::new(),
            color: Rgba8 { r: 0, g: 0, b: 0, a: 0 },
            modes: Vec::new(),
            curr: Point2 { x: 0, y: 0 },
            prev: Point2 { x: 0, y: 0 },
        };
        proof {
            assert(b.mode_set() =~= Set::<BrushMode>::empty());
        }
        b
    }
}

} // verus!
