//! Axes, mixed-radix layouts, and the arithmetic that places a logical index in memory.
use vstd::arithmetic::div_mod::{
    lemma_div_denominator, lemma_fundamental_div_mod, lemma_fundamental_div_mod_converse,
    lemma_hoist_over_denominator, lemma_mod_bound, lemma_mod_breakdown, lemma_mod_self_0,
    lemma_small_mod,
};
use vstd::arithmetic::mul::{lemma_mul_inequality, lemma_mul_is_commutative};
use vstd::prelude::*;

verus! {

/// The logical axes that the kernels index their tensors by.
#[derive(Clone, Copy, PartialEq, Eq, Structural, Debug)]
pub enum Axis {
    /// No axis: the factor only reserves room.
    Unit,
    /// Hidden features.
    H,
    /// Feed-forward features.
    L,
    /// Query features, all heads side by side.
    Q,
    /// Key or value features, all heads side by side.
    P,
    /// The high and the low half of a compensated value.
    Part,
    /// Independent groups of slices that each hold a copy.
    Group,
    /// Slices of one ring, or of the whole row of slices, that each hold a copy.
    Ring,
    /// Words of a plain copy.
    Word,
}

/// A logical index: one coordinate per axis.
#[verifier::ext_equal]
pub struct Point {
    pub h: int,
    pub l: int,
    pub q: int,
    pub p: int,
    pub part: int,
    pub group: int,
    pub ring: int,
    pub word: int,
}

/// The point with every coordinate zero.
pub open spec fn origin() -> Point {
    Point { h: 0, l: 0, q: 0, p: 0, part: 0, group: 0, ring: 0, word: 0 }
}

/// The point with coordinate `v` on `axis` and zero elsewhere.
pub open spec fn only(axis: Axis, v: int) -> Point {
    match axis {
        Axis::Unit => origin(),
        Axis::H => Point { h: v, ..origin() },
        Axis::L => Point { l: v, ..origin() },
        Axis::Q => Point { q: v, ..origin() },
        Axis::P => Point { p: v, ..origin() },
        Axis::Part => Point { part: v, ..origin() },
        Axis::Group => Point { group: v, ..origin() },
        Axis::Ring => Point { ring: v, ..origin() },
        Axis::Word => Point { word: v, ..origin() },
    }
}

/// The point of a hidden feature.
pub open spec fn at_h(h: int) -> Point {
    Point { h, ..origin() }
}

/// The point of a feed-forward feature.
pub open spec fn at_l(l: int) -> Point {
    Point { l, ..origin() }
}

/// The point of a query feature.
pub open spec fn at_q(q: int) -> Point {
    Point { q, ..origin() }
}

/// The point of a key or value feature.
pub open spec fn at_p(p: int) -> Point {
    Point { p, ..origin() }
}

/// The point of a hidden and a feed-forward feature.
pub open spec fn at_hl(h: int, l: int) -> Point {
    Point { h, l, ..origin() }
}

/// The point of a hidden and a query feature.
pub open spec fn at_hq(h: int, q: int) -> Point {
    Point { h, q, ..origin() }
}

/// The point of a hidden and a key or value feature.
pub open spec fn at_hp(h: int, p: int) -> Point {
    Point { h, p, ..origin() }
}

impl Point {
    /// The coordinate on `axis`.
    pub open spec fn get(self, axis: Axis) -> int {
        match axis {
            Axis::Unit => 0,
            Axis::H => self.h,
            Axis::L => self.l,
            Axis::Q => self.q,
            Axis::P => self.p,
            Axis::Part => self.part,
            Axis::Group => self.group,
            Axis::Ring => self.ring,
            Axis::Word => self.word,
        }
    }

    /// Coordinate-wise sum.
    pub open spec fn plus(self, other: Point) -> Point {
        Point {
            h: self.h + other.h,
            l: self.l + other.l,
            q: self.q + other.q,
            p: self.p + other.p,
            part: self.part + other.part,
            group: self.group + other.group,
            ring: self.ring + other.ring,
            word: self.word + other.word,
        }
    }

    /// No coordinate is negative or above `bound`.
    pub open spec fn within(self, bound: int) -> bool {
        &&& 0 <= self.h <= bound
        &&& 0 <= self.l <= bound
        &&& 0 <= self.q <= bound
        &&& 0 <= self.p <= bound
        &&& 0 <= self.part <= bound
        &&& 0 <= self.group <= bound
        &&& 0 <= self.ring <= bound
        &&& 0 <= self.word <= bound
    }
}

/// Largest coordinate that a layout or a shift may produce.
pub const REACH_LIMIT: usize = 0x10_0000;

/// Largest number of cells that a layout may span.
pub const VOLUME_LIMIT: usize = 0x4000_0000;

/// A logical index at run time.
#[derive(Clone, Copy, PartialEq, Eq, Debug)]
pub struct Coords {
    pub h: usize,
    pub l: usize,
    pub q: usize,
    pub p: usize,
    pub part: usize,
    pub group: usize,
    pub ring: usize,
    pub word: usize,
}

impl View for Coords {
    type V = Point;

    open spec fn view(&self) -> Point {
        Point {
            h: self.h as int,
            l: self.l as int,
            q: self.q as int,
            p: self.p as int,
            part: self.part as int,
            group: self.group as int,
            ring: self.ring as int,
            word: self.word as int,
        }
    }
}

impl Coords {
    /// The index with every coordinate zero.
    pub fn zero() -> (c: Coords)
        ensures
            c@ == origin(),
    {
        Coords { h: 0, l: 0, q: 0, p: 0, part: 0, group: 0, ring: 0, word: 0 }
    }

    /// The index with coordinate `v` on `axis` and zero elsewhere.
    pub fn on(axis: Axis, v: usize) -> (c: Coords)
        ensures
            c@ == only(axis, v as int),
    {
        let mut c = Coords::zero();
        match axis {
            Axis::Unit => {},
            Axis::H => { c.h = v; },
            Axis::L => { c.l = v; },
            Axis::Q => { c.q = v; },
            Axis::P => { c.p = v; },
            Axis::Part => { c.part = v; },
            Axis::Group => { c.group = v; },
            Axis::Ring => { c.ring = v; },
            Axis::Word => { c.word = v; },
        }
        c
    }

    /// The coordinate on `axis`.
    pub fn get(&self, axis: Axis) -> (v: usize)
        ensures
            v == self@.get(axis),
    {
        match axis {
            Axis::Unit => 0,
            Axis::H => self.h,
            Axis::L => self.l,
            Axis::Q => self.q,
            Axis::P => self.p,
            Axis::Part => self.part,
            Axis::Group => self.group,
            Axis::Ring => self.ring,
            Axis::Word => self.word,
        }
    }

    /// The index with coordinate `v` less on `axis`.
    pub fn back(&self, axis: Axis, v: usize) -> (c: Coords)
        requires
            v <= self@.get(axis),
        ensures
            c@ == self@.plus(only(axis, -v)),
    {
        let mut c = *self;
        match axis {
            Axis::Unit => {},
            Axis::H => { c.h = c.h - v; },
            Axis::L => { c.l = c.l - v; },
            Axis::Q => { c.q = c.q - v; },
            Axis::P => { c.p = c.p - v; },
            Axis::Part => { c.part = c.part - v; },
            Axis::Group => { c.group = c.group - v; },
            Axis::Ring => { c.ring = c.ring - v; },
            Axis::Word => { c.word = c.word - v; },
        }
        c
    }

    /// Coordinate-wise sum.
    pub fn plus(&self, other: &Coords) -> (c: Coords)
        requires
            self@.plus(other@).within(usize::MAX as int),
        ensures
            c@ == self@.plus(other@),
    {
        Coords {
            h: self.h + other.h,
            l: self.l + other.l,
            q: self.q + other.q,
            p: self.p + other.p,
            part: self.part + other.part,
            group: self.group + other.group,
            ring: self.ring + other.ring,
            word: self.word + other.word,
        }
    }
}

/// One factor of a layout: the digit `(coordinate / div) % len` of an axis, stored in a field
/// of `padded` cells of which the last `padded - len` hold nothing.
#[derive(Clone, Copy, PartialEq, Eq, Structural, Debug)]
pub struct Term {
    pub axis: Axis,
    pub div: usize,
    pub len: usize,
    pub padded: usize,
}

impl Term {
    /// The factor divides by something, holds a digit, and stays within the coordinate range.
    pub open spec fn wf(self) -> bool {
        &&& 0 < self.div
        &&& 0 < self.len <= self.padded
        &&& self.div * self.padded <= REACH_LIMIT
    }

    /// The digit that `p` has in this factor.
    pub open spec fn digit(self, p: Point) -> int {
        (p.get(self.axis) / (self.div as int)) % (self.len as int)
    }
}

/// An ordered product of factors, outermost first.
#[derive(PartialEq, Eq, Debug)]
pub enum Layout {
    /// A single cell.
    End,
    /// A factor, and what each of its digits holds.
    Then(Term, Box<Layout>),
}

impl Layout {
    /// Number of cells, padding included.
    pub open spec fn volume(self) -> int
        decreases self,
    {
        match self {
            Layout::End => 1,
            Layout::Then(t, rest) => t.padded * rest.volume(),
        }
    }

    /// Upper bound on every coordinate that a cell of the layout can stand for.
    pub open spec fn reach(self) -> int
        decreases self,
    {
        match self {
            Layout::End => 0,
            Layout::Then(t, rest) => t.div * t.padded + rest.reach(),
        }
    }

    /// Every factor is well-formed.
    pub open spec fn terms_wf(self) -> bool
        decreases self,
    {
        match self {
            Layout::End => true,
            Layout::Then(t, rest) => t.wf() && rest.terms_wf(),
        }
    }

    /// Every factor is well-formed and the whole fits the machine.
    pub open spec fn wf(self) -> bool {
        &&& self.terms_wf()
        &&& self.volume() <= VOLUME_LIMIT
        &&& self.reach() <= REACH_LIMIT
    }

    /// The cell that holds the value at `p`.
    pub open spec fn position(self, p: Point) -> int
        decreases self,
    {
        match self {
            Layout::End => 0,
            Layout::Then(t, rest) => t.digit(p) * rest.volume() + rest.position(p),
        }
    }

    /// Cell `i` is not padding.
    pub open spec fn live(self, i: int) -> bool
        decreases self,
    {
        match self {
            Layout::End => true,
            Layout::Then(t, rest) => i / rest.volume() < t.len && rest.live(i % rest.volume()),
        }
    }

    /// The point that cell `i` stands for.
    pub open spec fn coordinate(self, i: int) -> Point
        decreases self,
    {
        match self {
            Layout::End => origin(),
            Layout::Then(t, rest) => only(t.axis, (i / rest.volume()) * t.div).plus(
                rest.coordinate(i % rest.volume()),
            ),
        }
    }

    /// No factor has padding.
    pub open spec fn dense(self) -> bool
        decreases self,
    {
        match self {
            Layout::End => true,
            Layout::Then(t, rest) => t.len == t.padded && rest.dense(),
        }
    }

    /// What of `p` the layout keeps: the digits of its factors, put back together.
    pub open spec fn kept(self, p: Point) -> Point
        decreases self,
    {
        match self {
            Layout::End => origin(),
            Layout::Then(t, rest) => only(t.axis, t.digit(p) * t.div).plus(rest.kept(p)),
        }
    }

    /// The layout has a cell of its own for `p`: nothing of `p` is lost.
    pub open spec fn covers(self, p: Point) -> bool {
        self.kept(p) == p
    }
}

impl Layout {
    /// A second layout with the same factors.
    pub fn duplicate(&self) -> (m: Layout)
        ensures
            m == *self,
        decreases self,
    {
        match self {
            Layout::End => Layout::End,
            Layout::Then(t, rest) => Layout::Then(*t, Box::new(rest.duplicate())),
        }
    }

    /// The layouts have the same factors.
    pub fn same(&self, other: &Layout) -> (r: bool)
        ensures
            r == (*self == *other),
        decreases self,
    {
        match (self, other) {
            (Layout::End, Layout::End) => true,
            (Layout::Then(s, a), Layout::Then(t, b)) => *s == *t && a.same(b),
            _ => false,
        }
    }

    /// The number of cells and the reach, where the layout is well-formed.
    pub fn sizes(&self) -> (r: Option<(usize, usize)>)
        ensures
            r is Some <==> self.wf(),
            r matches Some((n, m)) ==> n == self.volume() && m == self.reach(),
        decreases self,
    {
        match self {
            Layout::End => Some((1, 0)),
            Layout::Then(t, rest) => {
                if t.div == 0 || t.len == 0 || t.len > t.padded {
                    return None;
                }
                let (n, m): (usize, usize) = match rest.sizes() {
                    None => {
                        proof {
                            if t.wf() && rest.terms_wf() {
                                lemma_rest_fits(*t, **rest);
                            }
                        }
                        return None;
                    },
                    Some(sizes) => sizes,
                };
                let stretch: usize = match t.div.checked_mul(t.padded) {
                    None => {
                        return None;
                    },
                    Some(v) => v,
                };
                let total: usize = match t.padded.checked_mul(n) {
                    None => {
                        return None;
                    },
                    Some(v) => v,
                };
                if stretch > REACH_LIMIT || m > REACH_LIMIT - stretch || total > VOLUME_LIMIT {
                    return None;
                }
                Some((total, stretch + m))
            },
        }
    }

    /// Number of cells, padding included.
    pub fn cells(&self) -> (n: usize)
        requires
            self.wf(),
        ensures
            n == self.volume(),
        decreases self,
    {
        match self {
            Layout::End => 1,
            Layout::Then(t, rest) => {
                proof {
                    lemma_rest_fits(*t, **rest);
                }
                let n: usize = rest.cells();
                t.padded * n
            },
        }
    }

    /// The number of cells, and the cell that holds the value at `c`.
    fn measure(&self, c: &Coords) -> (r: (usize, usize))
        requires
            self.wf(),
        ensures
            r.0 == self.volume(),
            r.1 == self.position(c@),
        decreases self,
    {
        match self {
            Layout::End => (1, 0),
            Layout::Then(t, rest) => {
                proof {
                    lemma_rest_fits(*t, **rest);
                    lemma_position(*self, c@);
                    lemma_position(**rest, c@);
                }
                let (n, inner): (usize, usize) = rest.measure(c);
                let digit: usize = (c.get(t.axis) / t.div) % t.len;
                proof {
                    assert(0 <= digit * n) by (nonlinear_arith)
                        requires
                            0 <= digit,
                            0 <= n,
                    ;
                }
                (t.padded * n, digit * n + inner)
            },
        }
    }

    /// The cell that holds the value at `c`.
    pub fn locate(&self, c: &Coords) -> (i: usize)
        requires
            self.wf(),
        ensures
            i == self.position(c@),
            i < self.volume(),
    {
        proof {
            lemma_position(*self, c@);
        }
        let (_, i): (usize, usize) = self.measure(c);
        i
    }

    /// The quotient of `i` by the number of cells, and the point that the remainder stands for, or
    /// nothing where that is padding.
    fn peel(&self, i: usize) -> (r: (usize, Option<Coords>))
        requires
            self.wf(),
        ensures
            r.0 == i as int / self.volume(),
            r.1 is Some <==> self.live(i as int % self.volume()),
            r.1 matches Some(c) ==> c@ == self.coordinate(i as int % self.volume()) && c@.within(
                self.reach(),
            ),
        decreases self,
    {
        match self {
            Layout::End => {
                assert(i as int / 1 == i);
                (i, Some(Coords::zero()))
            },
            Layout::Then(t, rest) => {
                proof {
                    lemma_rest_fits(*t, **rest);
                    lemma_volume_positive(**rest);
                    lemma_peel(*t, **rest, i as int);
                }
                let (outer, inner): (usize, Option<Coords>) = rest.peel(i);
                let digit: usize = outer % t.padded;
                proof {
                    assert(0 <= digit * t.div <= t.div * t.padded) by (nonlinear_arith)
                        requires
                            0 <= digit < t.padded,
                            0 < t.div,
                    ;
                }
                let point: Option<Coords> = if digit >= t.len {
                    None
                } else {
                    match inner {
                        None => None,
                        Some(c) => Some(Coords::on(t.axis, digit * t.div).plus(&c)),
                    }
                };
                (outer / t.padded, point)
            },
        }
    }

    /// The point that cell `i` stands for, or nothing where it is padding.
    pub fn decode(&self, i: usize) -> (r: Option<Coords>)
        requires
            self.wf(),
            i < self.volume(),
        ensures
            r is Some <==> self.live(i as int),
            r matches Some(c) ==> c@ == self.coordinate(i as int) && c@.within(self.reach()),
    {
        proof {
            lemma_small_mod(i as nat, self.volume() as nat);
        }
        self.peel(i).1
    }
}

/// Steps of `div` along an axis from `p` on, `n` in all, go from one cell to the next.
pub open spec fn consecutive(m: Layout, p: Point, axis: Axis, div: int, n: int) -> bool {
    forall|k: int|
        0 <= k < n ==> #[trigger] m.position(p.plus(only(axis, k * div))) == m.position(p) + k
}

/// A step along an axis moves that coordinate and no other.
proof fn lemma_step(p: Point, axis: Axis, other: Axis, d: int)
    ensures
        axis != Axis::Unit ==> p.plus(only(axis, d)).get(axis) == p.get(axis) + d,
        axis != other ==> p.plus(only(axis, d)).get(other) == p.get(other),
{
}

/// The last factor of a layout counts steps of its own size, up to its end.
proof fn lemma_steps_in_last(t: Term, p: Point, n: int)
    requires
        t.wf(),
        t.axis != Axis::Unit,
        0 <= p.get(t.axis),
        0 < n,
        t.digit(p) + n <= t.len,
    ensures
        consecutive(Layout::Then(t, Box::new(Layout::End)), p, t.axis, t.div as int, n),
{
    let m = Layout::Then(t, Box::new(Layout::End));
    let v = p.get(t.axis);
    let d = t.div as int;
    let len = t.len as int;
    assert forall|k: int| 0 <= k < n implies #[trigger] m.position(p.plus(only(t.axis, k * d)))
        == m.position(p) + k by {
        let q = p.plus(only(t.axis, k * d));
        lemma_step(p, t.axis, t.axis, k * d);
        lemma_hoist_over_denominator(v, k, t.div as nat);
        lemma_fundamental_div_mod(v / d, len);
        lemma_mod_bound(v / d, len);
        lemma_mul_is_commutative((v / d) / len, len);
        lemma_fundamental_div_mod_converse(v / d + k, len, (v / d) / len, (v / d) % len + k);
        lemma_place_one(t, p);
        lemma_place_one(t, q);
    }
}

/// A factor that the steps do not reach keeps its digit.
proof fn lemma_steps_past(t: Term, rest: Layout, p: Point, axis: Axis, div: int, n: int)
    requires
        t.wf(),
        0 < div,
        0 < n,
        t.axis == axis ==> p.get(axis) % (t.div as int) + (n - 1) * div < t.div,
        consecutive(rest, p, axis, div, n),
    ensures
        consecutive(Layout::Then(t, Box::new(rest)), p, axis, div, n),
{
    let m = Layout::Then(t, Box::new(rest));
    let v = p.get(t.axis);
    let d = t.div as int;
    assert forall|k: int| 0 <= k < n implies #[trigger] m.position(p.plus(only(axis, k * div)))
        == m.position(p) + k by {
        let q = p.plus(only(axis, k * div));
        lemma_step(p, axis, t.axis, k * div);
        assert(rest.position(q) == rest.position(p) + k);
        if t.axis == axis && axis != Axis::Unit {
            assert(0 <= k * div <= (n - 1) * div) by (nonlinear_arith)
                requires
                    0 <= k <= n - 1,
                    0 < div,
            ;
            lemma_fundamental_div_mod(v, d);
            lemma_mod_bound(v, d);
            lemma_mul_is_commutative(v / d, d);
            lemma_fundamental_div_mod_converse(v + k * div, d, v / d, v % d + k * div);
        }
        assert(t.digit(q) == t.digit(p));
    }
}

impl Layout {
    /// Steps of `div` along an axis from `p` on, `n` in all, stay inside the last factor, which
    /// counts them, and inside one digit of every factor before it.
    pub open spec fn steady(self, p: Point, axis: Axis, div: int, n: int) -> bool
        decreases self,
    {
        match self {
            Layout::End => n == 1,
            Layout::Then(t, rest) => if t.axis != axis {
                rest.steady(p, axis, div, n)
            } else if *rest == Layout::End {
                axis != Axis::Unit && t.div == div && t.digit(p) + n <= t.len
            } else {
                p.get(axis) % (t.div as int) + (n - 1) * div < t.div && rest.steady(
                    p,
                    axis,
                    div,
                    n,
                )
            },
        }
    }

    /// Steps of `div` along an axis from `c` on, `n` in all, stay inside the last factor, which
    /// counts them, and inside one digit of every factor before it.
    pub fn runs(&self, c: &Coords, axis: Axis, div: usize, n: usize) -> (r: bool)
        requires
            self.wf(),
            0 < div,
            0 < n,
        ensures
            r == self.steady(c@, axis, div as int, n as int),
        decreases self,
    {
        match self {
            Layout::End => n == 1,
            Layout::Then(t, rest) => {
                proof {
                    lemma_rest_fits(*t, **rest);
                }
                let v: usize = c.get(t.axis);
                if t.axis != axis {
                    return rest.runs(c, axis, div, n);
                }
                if let Layout::End = **rest {
                    let digit: usize = (v / t.div) % t.len;
                    return axis != Axis::Unit && t.div == div && n <= t.len && digit <= t.len - n;
                }
                let room: usize = t.div - 1 - v % t.div;
                proof {
                    lemma_fits_room((n - 1) as int, div as int, room as int);
                }
                n - 1 <= room / div && rest.runs(c, axis, div, n)
            },
        }
    }
}

/// As many steps fit into a room as the room's quotient by their size.
proof fn lemma_fits_room(n: int, div: int, room: int)
    requires
        0 < div,
    ensures
        n <= room / div <==> n * div <= room,
{
    lemma_fundamental_div_mod(room, div);
    lemma_mod_bound(room, div);
    let q = room / div;
    let r = room % div;
    assert(n <= q ==> n * div <= room) by (nonlinear_arith)
        requires
            room == div * q + r,
            0 <= r < div,
            0 < div,
    ;
    assert(n > q ==> n * div > room) by (nonlinear_arith)
        requires
            room == div * q + r,
            0 <= r < div,
            0 < div,
    ;
}

/// Steady steps go from one cell to the next.
pub proof fn lemma_steady(m: Layout, p: Point, axis: Axis, div: int, n: int)
    requires
        m.terms_wf(),
        m.steady(p, axis, div, n),
        0 <= p.get(axis),
        0 < div,
        0 < n,
    ensures
        consecutive(m, p, axis, div, n),
    decreases m,
{
    match m {
        Layout::End => {
            assert(p.plus(only(axis, 0 * div)) == p);
        },
        Layout::Then(t, rest) => {
            if t.axis == axis && *rest == Layout::End {
                lemma_steps_in_last(t, p, n);
            } else {
                lemma_steady(*rest, p, axis, div, n);
                lemma_steps_past(t, *rest, p, axis, div, n);
            }
        },
    }
}

/// A number below `a * n` is put together again from its two digits.
pub proof fn lemma_two_digits(v: int, a: int, n: int)
    requires
        0 < a,
        0 < n,
        0 <= v < a * n,
    ensures
        ((v / a) % n) * a + v % a == v,
        (v / a) % n == v / a,
        0 <= v / a < n,
        0 <= v % a < a,
        v / 1 == v,
{
    lemma_fundamental_div_mod(v, a);
    lemma_mod_bound(v, a);
    assert(0 <= v / a < n) by (nonlinear_arith)
        requires
            0 < a,
            0 <= v < a * n,
    ;
    lemma_small_mod((v / a) as nat, n as nat);
    lemma_mul_is_commutative(a, v / a);
}

/// A number below `c * b`, where `b` is `a * n`, is put together again from its three digits.
pub proof fn lemma_three_digits(v: int, a: int, n: int, b: int, c: int)
    requires
        0 < a,
        0 < n,
        0 < c,
        b == a * n,
        0 <= v < b * c,
    ensures
        ((v / b) % c) * b + ((v / a) % n) * a + v % a == v,
        (v / b) % c == v / b,
        v / 1 == v,
{
    assert(0 < b) by (nonlinear_arith)
        requires
            0 < a,
            0 < n,
            b == a * n,
    ;
    lemma_two_digits(v, b, c);
    lemma_mod_breakdown(v, a, n);
    lemma_mul_is_commutative(a, (v / a) % n);
}

/// A number `k` above the multiple of `a` that begins the run of `v` lies in the same run.
pub proof fn lemma_same_run(v: int, a: int, n: int, k: int)
    requires
        0 < a,
        0 < n,
        0 <= v < a * n,
        0 <= k < a,
    ensures
        0 <= v - v % a,
        v - v % a + k < a * n,
        (v - v % a + k) % a == k,
        (v - v % a + k) / a == v / a,
{
    lemma_two_digits(v, a, n);
    let j = v / a;
    lemma_mul_is_commutative(j, a);
    lemma_fundamental_div_mod_converse(v - v % a + k, a, j, k);
    assert(a * j + k < a * n) by (nonlinear_arith)
        requires
            0 <= k < a,
            0 <= j < n,
    ;
    assert(0 <= a * j) by (nonlinear_arith)
        requires
            0 <= j,
            0 < a,
    ;
}

/// A well-formed layout has at least one cell.
pub proof fn lemma_volume_positive(m: Layout)
    requires
        m.terms_wf(),
    ensures
        m.volume() >= 1,
        m.reach() >= 0,
    decreases m,
{
    match m {
        Layout::End => {},
        Layout::Then(t, rest) => {
            lemma_volume_positive(*rest);
            lemma_mul_inequality(1, t.padded as int, rest.volume());
            assert(t.div * t.padded >= 0) by (nonlinear_arith);
        },
    }
}

/// The volume and the reach of what follows a factor are no larger than those of the whole.
pub proof fn lemma_rest_fits(t: Term, rest: Layout)
    requires
        t.wf(),
        rest.terms_wf(),
    ensures
        rest.volume() <= t.padded * rest.volume(),
        rest.reach() <= t.div * t.padded + rest.reach(),
        0 <= t.div * t.padded,
{
    lemma_volume_positive(rest);
    lemma_mul_inequality(1, t.padded as int, rest.volume());
    assert(t.div * t.padded >= 0) by (nonlinear_arith);
}

/// A cell index of a layout splits into a digit of the first factor and a cell of the rest.
pub proof fn lemma_split(t: Term, rest: Layout, i: int)
    requires
        t.wf(),
        rest.terms_wf(),
        0 <= i < t.padded * rest.volume(),
    ensures
        0 <= i / rest.volume() < t.padded,
        0 <= i % rest.volume() < rest.volume(),
{
    lemma_volume_positive(rest);
    let v = rest.volume();
    let n = t.padded as int;
    lemma_mod_bound(i, v);
    assert(0 <= i / v < n) by (nonlinear_arith)
        requires
            v > 0,
            0 <= i < n * v,
    ;
}

/// A number's quotient by the cells of the rest, digit by digit.
proof fn lemma_peel(t: Term, rest: Layout, i: int)
    requires
        t.wf(),
        rest.terms_wf(),
        0 <= i,
    ensures
        (i / rest.volume()) % (t.padded as int) == (i % (t.padded * rest.volume()))
            / rest.volume(),
        (i / rest.volume()) / (t.padded as int) == i / (t.padded * rest.volume()),
        (i % (t.padded * rest.volume())) % rest.volume() == i % rest.volume(),
{
    lemma_volume_positive(rest);
    let v = rest.volume();
    let n = t.padded as int;
    lemma_mul_is_commutative(n, v);
    lemma_mod_breakdown(i, v, n);
    lemma_div_denominator(i, v, n);
    lemma_mod_bound(i, v);
    lemma_mul_is_commutative(v, (i / v) % n);
    lemma_fundamental_div_mod_converse(i % (n * v), v, (i / v) % n, i % v);
}

/// A layout without padding has no padding cell.
pub proof fn lemma_dense_live(m: Layout, i: int)
    requires
        m.terms_wf(),
        m.dense(),
        0 <= i < m.volume(),
    ensures
        m.live(i),
    decreases m,
{
    match m {
        Layout::End => {},
        Layout::Then(t, rest) => {
            lemma_split(t, *rest, i);
            lemma_dense_live(*rest, i % rest.volume());
        },
    }
}

/// Every point lands inside the layout, on a cell that is not padding, and that cell stands for
/// what the layout keeps of the point.
pub proof fn lemma_position(m: Layout, p: Point)
    requires
        m.terms_wf(),
    ensures
        0 <= m.position(p) < m.volume(),
        m.live(m.position(p)),
        m.coordinate(m.position(p)) == m.kept(p),
    decreases m,
{
    match m {
        Layout::End => {},
        Layout::Then(t, rest) => {
            lemma_volume_positive(*rest);
            lemma_position(*rest, p);
            let v = rest.volume();
            let d = t.digit(p);
            let r = rest.position(p);
            lemma_mod_bound(p.get(t.axis) / (t.div as int), t.len as int);
            let i = d * v + r;
            lemma_mul_is_commutative(d, v);
            lemma_fundamental_div_mod_converse(i, v, d, r);
            assert(d * v + r < t.padded * v) by (nonlinear_arith)
                requires
                    0 <= d < t.padded,
                    0 <= r < v,
            ;
            assert(0 <= d * v) by (nonlinear_arith)
                requires
                    0 <= d,
                    0 <= v,
            ;
        },
    }
}

/// The factor `t` in front of a layout.
pub open spec fn then(t: Term, rest: Layout) -> Layout {
    Layout::Then(t, Box::new(rest))
}

/// The cell of a point in a layout with a single factor.
pub proof fn lemma_place_one(a: Term, p: Point)
    ensures
        then(a, Layout::End).volume() == a.padded,
        then(a, Layout::End).position(p) == a.digit(p),
{
    reveal_with_fuel(Layout::volume, 2);
    reveal_with_fuel(Layout::position, 2);
    let n = a.padded as int;
    let x = a.digit(p);
    let v = Layout::End.volume();
    assert(n * v == n && x * v == x) by (nonlinear_arith)
        requires
            v == 1,
    ;
}

/// The cell of a point in a layout with two factors in front.
pub proof fn lemma_place_two(a: Term, b: Term, rest: Layout, p: Point)
    ensures
        then(a, then(b, rest)).volume() == (a.padded * b.padded) * rest.volume(),
        then(a, then(b, rest)).position(p) == (a.digit(p) * b.padded + b.digit(p)) * rest.volume()
            + rest.position(p),
{
    reveal_with_fuel(Layout::volume, 3);
    reveal_with_fuel(Layout::position, 3);
    let v = rest.volume();
    let (m, n) = (a.padded as int, b.padded as int);
    let (x, y) = (a.digit(p), b.digit(p));
    assert(m * (n * v) == (m * n) * v) by (nonlinear_arith);
    assert(x * (n * v) + y * v == (x * n + y) * v) by (nonlinear_arith);
}

/// The cell of a point in a layout with three factors in front.
pub proof fn lemma_place_three(a: Term, b: Term, c: Term, rest: Layout, p: Point)
    ensures
        then(a, then(b, then(c, rest))).volume() == (a.padded * (b.padded * c.padded))
            * rest.volume(),
        then(a, then(b, then(c, rest))).position(p) == (a.digit(p) * (b.padded * c.padded)
            + b.digit(p) * c.padded + c.digit(p)) * rest.volume() + rest.position(p),
{
    reveal_with_fuel(Layout::volume, 2);
    reveal_with_fuel(Layout::position, 2);
    lemma_place_two(b, c, rest, p);
    let v = rest.volume();
    let (m, n) = (a.padded as int, b.padded * c.padded);
    let x = a.digit(p);
    let y = b.digit(p) * c.padded + c.digit(p);
    assert(m * (n * v) == (m * n) * v) by (nonlinear_arith);
    assert(x * (n * v) + y * v == (x * n + y) * v) by (nonlinear_arith);
}

/// The cell of a point in a layout with four factors in front.
pub proof fn lemma_place_four(a: Term, b: Term, c: Term, d: Term, rest: Layout, p: Point)
    ensures
        then(a, then(b, then(c, then(d, rest)))).volume() == (a.padded * (b.padded * (c.padded
            * d.padded))) * rest.volume(),
        then(a, then(b, then(c, then(d, rest)))).position(p) == (a.digit(p) * (b.padded * (c.padded
            * d.padded)) + b.digit(p) * (c.padded * d.padded) + c.digit(p) * d.padded + d.digit(p))
            * rest.volume() + rest.position(p),
{
    reveal_with_fuel(Layout::volume, 2);
    reveal_with_fuel(Layout::position, 2);
    lemma_place_three(b, c, d, rest, p);
    let v = rest.volume();
    let (m, n) = (a.padded as int, b.padded * (c.padded * d.padded));
    let x = a.digit(p);
    let y = b.digit(p) * (c.padded * d.padded) + c.digit(p) * d.padded + d.digit(p);
    assert(m * (n * v) == (m * n) * v) by (nonlinear_arith);
    assert(x * (n * v) + y * v == (x * n + y) * v) by (nonlinear_arith);
}

/// The cell of a point in a layout with five factors in front.
pub proof fn lemma_place_five(a: Term, b: Term, c: Term, d: Term, e: Term, rest: Layout, p: Point)
    ensures
        then(a, then(b, then(c, then(d, then(e, rest))))).volume() == (a.padded * (b.padded * (
        c.padded * (d.padded * e.padded)))) * rest.volume(),
        then(a, then(b, then(c, then(d, then(e, rest))))).position(p) == (a.digit(p) * (b.padded * (
        c.padded * (d.padded * e.padded))) + b.digit(p) * (c.padded * (d.padded * e.padded))
            + c.digit(p) * (d.padded * e.padded) + d.digit(p) * e.padded + e.digit(p))
            * rest.volume() + rest.position(p),
{
    reveal_with_fuel(Layout::volume, 2);
    reveal_with_fuel(Layout::position, 2);
    lemma_place_four(b, c, d, e, rest, p);
    let v = rest.volume();
    let (m, n) = (a.padded as int, b.padded * (c.padded * (d.padded * e.padded)));
    let x = a.digit(p);
    let y = b.digit(p) * (c.padded * (d.padded * e.padded)) + c.digit(p) * (d.padded * e.padded)
        + d.digit(p) * e.padded + e.digit(p);
    assert(m * (n * v) == (m * n) * v) by (nonlinear_arith);
    assert(x * (n * v) + y * v == (x * n + y) * v) by (nonlinear_arith);
}

/// The factor of a single digit on no axis.
#[verifier::allow_in_spec]
pub fn no_term() -> Term
    returns
        (Term { axis: Axis::Unit, div: 1, len: 1, padded: 1 }),
{
    Term { axis: Axis::Unit, div: 1, len: 1, padded: 1 }
}

impl Layout {
    /// The last factor, where it has no padding.
    pub open spec fn tail(self) -> Term
        decreases self,
    {
        match self {
            Layout::End => no_term(),
            Layout::Then(t, rest) => match *rest {
                Layout::End => if t.len == t.padded {
                    t
                } else {
                    no_term()
                },
                _ => rest.tail(),
            },
        }
    }

    /// The last factor, where it has no padding.
    pub fn last(&self) -> (t: Term)
        ensures
            t == self.tail(),
        decreases self,
    {
        match self {
            Layout::End => no_term(),
            Layout::Then(t, rest) => match **rest {
                Layout::End => if t.len == t.padded {
                    *t
                } else {
                    no_term()
                },
                _ => rest.last(),
            },
        }
    }
}

/// The last factor is well-formed and divides the number of cells.
pub proof fn lemma_tail(m: Layout)
    requires
        m.terms_wf(),
    ensures
        m.tail().wf(),
        m.tail().len == m.tail().padded,
        m.volume() % (m.tail().len as int) == 0,
        m.tail().div * m.tail().padded <= m.reach() || m.tail() == no_term(),
    decreases m,
{
    match m {
        Layout::End => {},
        Layout::Then(t, rest) => {
            lemma_rest_fits(t, *rest);
            lemma_volume_positive(*rest);
            match *rest {
                Layout::End => {
                    lemma_place_one(t, origin());
                    if t.len == t.padded {
                        lemma_mod_self_0(t.len as int);
                    }
                },
                _ => {
                    lemma_tail(*rest);
                    let l = rest.tail().len as int;
                    let v = rest.volume();
                    lemma_mod_mul(t.padded as int, v, l);
                },
            }
        },
    }
}

/// A multiple of a multiple.
proof fn lemma_mod_mul(n: int, v: int, l: int)
    requires
        0 < l,
        v % l == 0,
    ensures
        (n * v) % l == 0,
{
    lemma_fundamental_div_mod(v, l);
    let j = v / l;
    assert(n * v == (n * j) * l) by (nonlinear_arith)
        requires
            v == l * j,
    ;
    lemma_fundamental_div_mod_converse(n * v, l, n * j, 0);
}

/// A run of cells that begins with a multiple of the last factor's length stands for points that
/// lie one step of that factor apart.
pub proof fn lemma_tail_run(m: Layout, i: int, k: int)
    requires
        m.terms_wf(),
        0 <= i < m.volume(),
        i % (m.tail().len as int) == 0,
        0 <= k < m.tail().len,
    ensures
        i + k < m.volume(),
        m.live(i + k) == m.live(i),
        m.coordinate(i + k) == m.coordinate(i).plus(only(m.tail().axis, k * m.tail().div)),
    decreases m,
{
    let t = m.tail();
    lemma_tail(m);
    match m {
        Layout::End => {
            assert(m.coordinate(i).plus(only(t.axis, 0)) == m.coordinate(i));
        },
        Layout::Then(s, rest) => {
            lemma_volume_positive(*rest);
            match *rest {
                Layout::End => {
                    lemma_place_one(s, origin());
                    if s.len == s.padded {
                        lemma_small_mod(i as nat, s.len as nat);
                        assert(i == 0);
                        reveal_with_fuel(Layout::coordinate, 2);
                        reveal_with_fuel(Layout::live, 2);
                        assert(k / 1 == k);
                        assert(only(s.axis, k * s.div).plus(origin()) == origin().plus(
                            only(s.axis, k * s.div),
                        ));
                        assert(0 * s.div == 0) by (nonlinear_arith);
                        assert(only(s.axis, 0).plus(origin()) == origin());
                        assert(m.coordinate(0) == origin());
                    } else {
                        assert(m.coordinate(i).plus(only(t.axis, 0)) == m.coordinate(i));
                    }
                },
                _ => {
                    let v = rest.volume();
                    let l = t.len as int;
                    lemma_tail(*rest);
                    lemma_split(s, *rest, i);
                    lemma_fundamental_div_mod(v, l);
                    lemma_fundamental_div_mod(i, v);
                    let j = v / l;
                    lemma_mul_is_commutative(l, j);
                    lemma_mod_mul(i / v, v, l);
                    lemma_mul_is_commutative(v, i / v);
                    lemma_mod_difference(i, (i / v) * v, l);
                    lemma_tail_run(*rest, i % v, k);
                    lemma_mul_is_commutative(i / v, v);
                    lemma_fundamental_div_mod_converse(i + k, v, i / v, i % v + k);
                    assert((i / v) * v + (i % v + k) < s.padded * v) by (nonlinear_arith)
                        requires
                            0 <= i / v < s.padded,
                            0 <= i % v + k < v,
                    ;
                    let a = only(s.axis, (i / v) * s.div);
                    let b = rest.coordinate(i % v);
                    let c = only(t.axis, k * t.div);
                    assert(a.plus(b.plus(c)) == a.plus(b).plus(c));
                },
            }
        },
    }
}

/// The difference of two multiples.
proof fn lemma_mod_difference(x: int, y: int, l: int)
    requires
        0 < l,
        x % l == 0,
        y % l == 0,
    ensures
        (x - y) % l == 0,
{
    lemma_fundamental_div_mod(x, l);
    lemma_fundamental_div_mod(y, l);
    let (a, b) = (x / l, y / l);
    assert(x - y == (a - b) * l) by (nonlinear_arith)
        requires
            x == l * a,
            y == l * b,
    ;
    lemma_fundamental_div_mod_converse(x - y, l, a - b, 0);
}

/// Two points that each have a cell of their own never share one.
pub proof fn law_cells_are_distinct(m: Layout, p: Point, q: Point)
    requires
        m.wf(),
        m.covers(p),
        m.covers(q),
        m.position(p) == m.position(q),
    ensures
        p == q,
{
    lemma_position(m, p);
    lemma_position(m, q);
}

} // verus!
