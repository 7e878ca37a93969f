//! What the single steps of the kernels make of numbers, where the arithmetic unit rounds as its
//! formats do.
use crate::accuracy::{lemma_size_product, lemma_triangle, size, sum, Meaning};
use crate::activation::{gated, rescaled, F32_INVSQRT2, F32_ONE, F32_TWO};
use crate::calm::{calm_group, calm_list, calm_two, Calm};
use crate::engine::{fold, one, two, Arith, Op};
use crate::output::rounded_sum;
use crate::projection::product;
use crate::quantize::{group_scale, largest, magnitude, F32_256, F32_TINY};
use vstd::prelude::*;

verus! {

impl Meaning {
    /// The constants are the numbers that they are called, and the smallest scale is positive.
    #[verifier::opaque]
    pub open spec fn names(self) -> bool {
        &&& (self.full)(F32_ONE) == 1real
        &&& (self.full)(F32_TWO) == 2real
        &&& (self.full)(F32_256) == 256real
        &&& 0real < (self.full)(F32_TINY)
    }

    /// Looking an 8-bit float up as a bfloat16 changes no number.
    #[verifier::opaque]
    pub open spec fn looks_up(self, g: Arith) -> bool {
        forall|a: u32| (self.sixteen)(#[trigger] one(g, Op::LookupF8AsBf16, a)) == (self.eight)(a)
    }

    /// Sums by `op` are off by at most a ten-millionth.
    #[verifier::opaque]
    pub open spec fn adds_near(self, g: Arith, op: Op) -> bool {
        forall|a: u32, b: u32|
            #![trigger two(g, op, a, b)]
            calm_two(self.calm, op, a, b) ==> {
                let s = (self.full)(a) + (self.full)(b);
                10000000real * size((self.full)(two(g, op, a, b)) - s) <= size(s)
            }
    }

    /// Quotients by a positive number are off by at most a ten-millionth.
    #[verifier::opaque]
    pub open spec fn divides_near(self, g: Arith) -> bool {
        forall|a: u32, b: u32|
            #![trigger two(g, Op::Divide, a, b)]
            calm_two(self.calm, Op::Divide, a, b) && 0real < (self.full)(b) ==> 10000000real * size(
                (self.full)(two(g, Op::Divide, a, b)) * (self.full)(b) - (self.full)(a),
            ) <= size((self.full)(a))
    }

    /// The largest of a list is one of its values, and the larger of two is one of them and no
    /// smaller than either.
    #[verifier::opaque]
    pub open spec fn picks(self, g: Arith) -> bool {
        &&& forall|a: Seq<u32>|
            #![trigger fold(g, Op::LargestInSlice, a)]
            a.len() > 0 && calm_list(self.calm, Op::LargestInSlice, a) ==> exists|k: int|
                0 <= k < a.len() && (self.full)(#[trigger] a[k]) == (self.full)(
                    fold(g, Op::LargestInSlice, a),
                )
        &&& forall|a: u32, b: u32|
            #![trigger two(g, Op::ClipMax, a, b)]
            calm_two(self.calm, Op::ClipMax, a, b) ==> {
                let r = two(g, Op::ClipMax, a, b);
                &&& r == a || r == b
                &&& (self.full)(a) <= (self.full)(r)
                &&& (self.full)(b) <= (self.full)(r)
            }
    }

    /// Each of the terms of a contraction of bfloat16 values adds at most a ten-millionth of the
    /// sum of all sizes to its error.
    #[verifier::opaque]
    pub open spec fn contracts_near(self, g: Arith) -> bool {
        forall|w: Seq<u32>, x: Seq<u32>|
            #![trigger g(Op::ContractBf16, w, x)]
            (self.calm)(Op::ContractBf16, w, x) && w.len() == x.len() ==> 10000000real * size(
                (self.full)(g(Op::ContractBf16, w, x)) - sum(
                    w.len() as int,
                    |k: int| (self.sixteen)(w[k]) * (self.sixteen)(x[k]),
                ),
            ) <= (w.len() as real) * sum(
                w.len() as int,
                |k: int| size((self.sixteen)(w[k]) * (self.sixteen)(x[k])),
            )
    }

    /// The unit answers the error function `erf` to within `eps`. The function stays within one,
    /// and moves no further than its argument does in proportion. The constant is near `root`, the
    /// inverse of the square root of two.
    #[verifier::opaque]
    pub open spec fn errs_near(
        self,
        g: Arith,
        erf: spec_fn(real) -> real,
        root: real,
        eps: real,
    ) -> bool {
        &&& forall|a: u32|
            #![trigger one(g, Op::Erf, a)]
            calm_list(self.calm, Op::Erf, seq![a]) ==> size(
                (self.full)(one(g, Op::Erf, a)) - erf((self.full)(a)),
            ) <= eps
        &&& forall|x: real| size(#[trigger] erf(x)) <= 1real
        &&& forall|x: real, y: real|
            #![trigger erf(x), erf(y)]
            2real * size(x - y) <= size(x) ==> size(x) * size(erf(x) - erf(y)) <= size(x - y)
        &&& 0real < root
        &&& 2real * (root * root) == 1real
        &&& 10000000real * size((self.full)(F32_INVSQRT2) - root) <= root
    }
}

/// A factor of two near numbers is one of their distance.
pub(crate) proof fn lemma_near_times(x: real, y: real, d: real, c: real)
    requires
        size(x - y) <= d,
    ensures
        size(x * c - y * c) <= d * size(c),
        size(c * x - c * y) <= d * size(c),
{
    lemma_size_product(x - y, c);
    let (a, b) = (size(x - y), size(c));
    assert(x * c - y * c == (x - y) * c && c * x - c * y == (x - y) * c) by (nonlinear_arith);
    assert(a * b <= d * b) by (nonlinear_arith)
        requires
            a <= d,
            0real <= b,
    ;
}

/// The arithmetic of a rounded product: `v` is near `e`, `p` near `v * s`, and `out` is `p`,
/// rounded.
pub(crate) proof fn lemma_rounded_product(e: real, d: real, v: real, s: real, p: real, out: real)
    requires
        size(v - e) <= d,
        10000000real * size(p - v * s) <= size(v * s),
        512real * size(out - p) <= size(p),
    ensures
        10000000real * size(out - e * s) <= size(s) * (10000000real * d + 19533real * (size(e)
            + d)),
{
    lemma_near_times(v, e, d, s);
    lemma_size_product(e, s);
    let (k, b) = (size(s), size(e));
    let (x, y) = (d * k, b * k);
    assert(k * (10000000real * d + 19533real * (b + d)) == 10000000real * x + 19533real * (y + x))
        by (nonlinear_arith)
        requires
            x == d * k,
            y == b * k,
    ;
    lemma_rounded_sizes(
        x,
        y,
        size(v * s - e * s),
        size(v * s),
        size(p - v * s),
        size(p),
        size(out - p),
        size(out - e * s),
    );
}

proof fn lemma_rounded_sizes(
    x: real,
    y: real,
    d: real,
    v: real,
    dp: real,
    p: real,
    dout: real,
    oe: real,
)
    requires
        d <= x,
        v <= y + d,
        10000000real * dp <= v,
        p <= dp + v,
        512real * dout <= p,
        oe <= dout + dp + d,
        0real <= v,
    ensures
        10000000real * oe <= 10000000real * x + 19533real * (y + x),
{
}

/// The product of two numbers and its rounding are harmless.
pub open spec fn calm_product(calm: Calm, g: Arith, x: u32, s: u32) -> bool {
    let p = two(g, Op::Multiply, one(g, Op::WidenBf16, x), s);
    &&& calm_two(calm, Op::Multiply, one(g, Op::WidenBf16, x), s)
    &&& calm_list(calm, Op::NarrowBf16, seq![p])
}

/// A value that is rescaled is the product with the scale, rounded once.
pub proof fn law_rescaled_is_near_the_product(m: Meaning, g: Arith, x: u32, s: u32)
    requires
        m.rounds_well(g),
        calm_product(m.calm, g, x, s),
    ensures
        10000000real * size(
            (m.sixteen)(rescaled(g, x, s)) - (m.sixteen)(x) * (m.full)(s),
        ) <= 19533real * size((m.sixteen)(x) * (m.full)(s)),
{
    lemma_rescaled_near(m, g, x, s, (m.sixteen)(x), 0real);
    lemma_size_product((m.sixteen)(x), (m.full)(s));
    let (a, b) = (size((m.sixteen)(x)), size((m.full)(s)));
    assert(b * (10000000real * 0real + 19533real * (a + 0real)) == 19533real * (a * b))
        by (nonlinear_arith);
}

/// A value near `e` that is rescaled is near `e` times the scale.
pub(crate) proof fn lemma_rescaled_near(m: Meaning, g: Arith, x: u32, s: u32, e: real, d: real)
    requires
        m.rounds_well(g),
        calm_product(m.calm, g, x, s),
        size((m.sixteen)(x) - e) <= d,
    ensures
        10000000real * size((m.sixteen)(rescaled(g, x, s)) - e * (m.full)(s)) <= size((m.full)(s))
            * (10000000real * d + 19533real * (size(e) + d)),
{
    let w = one(g, Op::WidenBf16, x);
    let p = two(g, Op::Multiply, w, s);
    assert((m.full)(w) == (m.sixteen)(x)) by {
        reveal(Meaning::exact);
    }
    assert(10000000real * size((m.full)(p) - (m.full)(w) * (m.full)(s)) <= size(
        (m.full)(w) * (m.full)(s),
    )) by {
        reveal(Meaning::computes_near);
    }
    let out = one(g, Op::NarrowBf16, p);
    assert(512real * size((m.sixteen)(out) - (m.full)(p)) <= size((m.full)(p))) by {
        reveal(Meaning::rounds_near);
    }
    lemma_rounded_product(
        e,
        d,
        (m.sixteen)(x),
        (m.full)(s),
        (m.full)(p),
        (m.sixteen)(out),
    );
}

/// A value near `e` times a bfloat16 scale is near `e` times that scale.
pub(crate) proof fn lemma_product_near(m: Meaning, g: Arith, x: u32, y: u32, e: real, d: real)
    requires
        m.rounds_well(g),
        calm_product(m.calm, g, x, one(g, Op::WidenBf16, y)),
        size((m.sixteen)(x) - e) <= d,
    ensures
        10000000real * size((m.sixteen)(product(g, x, y)) - e * (m.sixteen)(y)) <= size(
            (m.sixteen)(y),
        ) * (10000000real * d + 19533real * (size(e) + d)),
{
    lemma_rescaled_near(m, g, x, one(g, Op::WidenBf16, y), e, d);
    assert((m.full)(one(g, Op::WidenBf16, y)) == (m.sixteen)(y)) by {
        reveal(Meaning::exact);
    }
}

/// A value times the scale of its channel is the product of the two, rounded once.
pub proof fn law_channel_product_is_near(m: Meaning, g: Arith, x: u32, y: u32)
    requires
        m.rounds_well(g),
        calm_product(m.calm, g, x, one(g, Op::WidenBf16, y)),
    ensures
        10000000real * size(
            (m.sixteen)(product(g, x, y)) - (m.sixteen)(x) * (m.sixteen)(y),
        ) <= 19533real * size((m.sixteen)(x) * (m.sixteen)(y)),
{
    lemma_product_near(m, g, x, y, (m.sixteen)(x), 0real);
    lemma_size_product((m.sixteen)(x), (m.sixteen)(y));
    let (a, b) = (size((m.sixteen)(x)), size((m.sixteen)(y)));
    assert(b * (10000000real * 0real + 19533real * (a + 0real)) == 19533real * (a * b))
        by (nonlinear_arith);
}

/// The sum of two halves and its rounding are harmless.
pub open spec fn calm_halves(calm: Calm, g: Arith, left: u32, right: u32) -> bool {
    let (l, r) = (one(g, Op::WidenBf16, left), one(g, Op::WidenBf16, right));
    &&& calm_two(calm, Op::ClipSum, r, l)
    &&& calm_list(calm, Op::NarrowBf16, seq![two(g, Op::ClipSum, r, l)])
}

/// Two halves that are added up give their sum, rounded once.
pub proof fn law_halves_add_up(m: Meaning, g: Arith, left: u32, right: u32)
    requires
        m.rounds_well(g),
        m.adds_near(g, Op::ClipSum),
        calm_halves(m.calm, g, left, right),
    ensures
        10000000real * size(
            (m.sixteen)(rounded_sum(g, left, right)) - ((m.sixteen)(left) + (m.sixteen)(right)),
        ) <= 19533real * size((m.sixteen)(left) + (m.sixteen)(right)),
{
    let (l, r) = (one(g, Op::WidenBf16, left), one(g, Op::WidenBf16, right));
    let s = two(g, Op::ClipSum, r, l);
    let out = one(g, Op::NarrowBf16, s);
    assert((m.full)(l) == (m.sixteen)(left) && (m.full)(r) == (m.sixteen)(right)) by {
        reveal(Meaning::exact);
    }
    let e = (m.sixteen)(left) + (m.sixteen)(right);
    assert((m.full)(r) + (m.full)(l) == e);
    assert(10000000real * size((m.full)(s) - e) <= size(e)) by {
        reveal(Meaning::adds_near);
    }
    assert(512real * size((m.sixteen)(out) - (m.full)(s)) <= size((m.full)(s))) by {
        reveal(Meaning::rounds_near);
    }
}

/// Every request of a gated value of the rescaled values `up` and `gate` is harmless.
pub open spec fn calm_gate(calm: Calm, g: Arith, up: u32, gate: u32) -> bool {
    let wide = one(g, Op::WidenBf16, gate);
    let n = two(g, Op::Multiply, wide, F32_INVSQRT2);
    let e = one(g, Op::Erf, n);
    let s = two(g, Op::Sum, e, F32_ONE);
    let gelu = two(g, Op::Multiply, s, wide);
    let p = two(g, Op::Multiply, one(g, Op::WidenBf16, up), gelu);
    let h = two(g, Op::Divide, p, F32_TWO);
    &&& calm_two(calm, Op::Multiply, wide, F32_INVSQRT2)
    &&& calm_list(calm, Op::Erf, seq![n])
    &&& calm_two(calm, Op::Sum, e, F32_ONE)
    &&& calm_two(calm, Op::Multiply, s, wide)
    &&& calm_two(calm, Op::Multiply, one(g, Op::WidenBf16, up), gelu)
    &&& calm_two(calm, Op::Divide, p, F32_TWO)
    &&& calm_list(calm, Op::NarrowBf16, seq![h])
}

/// The argument of the error function is near the number divided by the square root of two.
proof fn lemma_erf_argument(v: real, c: real, root: real, n: real)
    requires
        0real < root,
        10000000real * size(c - root) <= root,
        10000000real * size(n - v * c) <= size(v * c),
    ensures
        1000000real * size(v * root - n) <= 3real * size(v * root),
{
    lemma_size_product(v, c);
    lemma_size_product(v, root);
    let (a, b) = (size(v), size(c));
    lemma_near_times(c, root, root / 10000000real, v);
    assert(a * b <= 2real * (a * root)) by (nonlinear_arith)
        requires
            0real <= a,
            b <= 2real * root,
    ;
    let z = a * root;
    assert(root / 10000000real * a == z / 10000000real) by (nonlinear_arith)
        requires
            z == a * root,
    ;
    assert(size(v * c - v * root) <= z / 10000000real);
    lemma_triangle(n - v * c, v * c - v * root, 0real);
}

/// A move of the argument in proportion moves the error function by no more.
proof fn lemma_erf_move(x: real, d: real, f: real)
    requires
        1000000real * d <= 3real * size(x),
        size(x) * size(f) <= d,
        x == 0real ==> f == 0real,
    ensures
        1000000real * size(f) <= 3real,
{
    let (a, b) = (size(x), size(f));
    if a > 0real {
        assert(1000000real * b <= 3real) by (nonlinear_arith)
            requires
                0real < a,
                1000000real * (a * b) <= 3real * a,
        ;
    }
}

/// The arithmetic of a gated value, from the error function's answer `e` on: `s` is raised by one, `gl`
/// multiplied by the number `v`, `p` by the number `u`, `h` halved.
proof fn lemma_gate_sum(
    f: real,
    eps: real,
    e: real,
    s: real,
    v: real,
    gl: real,
    u: real,
    p: real,
    h: real,
    out: real,
)
    requires
        size(f) <= 1real,
        0real <= eps <= 1real,
        1000000real * size(e - f) <= 1000000real * eps + 3real,
        10000000real * size(s - (e + 1real)) <= size(e + 1real),
        10000000real * size(gl - s * v) <= size(s * v),
        10000000real * size(p - u * gl) <= size(u * gl),
        10000000real * size(h * 2real - p) <= size(p),
        512real * size(out - h) <= size(h),
    ensures
        size(out - u * v * (1real + f) / 2real) <= size(u * v * (1real + f) / 2real) / 512real + (
        eps + 5real / 1000000real) * size(u * v),
{
    let d = eps + 4real / 1000000real;
    let t = 1real + f;
    assert(size(s - t) <= d);
    assert(size(s) <= 4real);
    // The unit, doubled.
    lemma_near_times(s, t, d, v);
    lemma_size_product(s, v);
    let a = size(v);
    assert(size(s) * a <= 4real * a) by (nonlinear_arith)
        requires
            size(s) <= 4real,
            0real <= a,
    ;
    let d2 = d * a + 4real * a / 10000000real;
    assert(size(gl - t * v) <= d2);
    // Times the other number.
    lemma_near_times(gl, t * v, d2, u);
    let b = size(u);
    lemma_size_product(u, gl);
    lemma_size_product(t, v);
    assert(size(t) * a <= 2real * a) by (nonlinear_arith)
        requires
            size(t) <= 2real,
            0real <= a,
    ;
    assert(d * a <= 2real * a) by (nonlinear_arith)
        requires
            d <= 2real,
            0real <= a,
    ;
    assert(size(gl) <= 5real * a);
    let z = b * a;
    assert(b * size(gl) <= 5real * z) by (nonlinear_arith)
        requires
            size(gl) <= 5real * a,
            0real <= b,
            z == b * a,
    ;
    assert(d2 * b == d * z + 4real * z / 10000000real) by (nonlinear_arith)
        requires
            d2 == d * a + 4real * a / 10000000real,
            z == b * a,
    ;
    let w = u * v * t;
    assert(u * (t * v) == w) by (nonlinear_arith)
        requires
            w == u * v * t,
    ;
    lemma_size_product(u, v);
    let d3 = d * z + 9real * z / 10000000real;
    assert(size(p - w) <= d3);
    assert(0real <= z) by (nonlinear_arith)
        requires
            0real <= a,
            0real <= b,
            z == b * a,
    ;
    assert(d * z <= 2real * z) by (nonlinear_arith)
        requires
            d <= 2real,
            0real <= z,
    ;
    lemma_size_product(w, 1real);
    assert(size(w) <= 2real * z) by {
        lemma_size_product(u * v, t);
        assert(z * size(t) <= 2real * z) by (nonlinear_arith)
            requires
                size(t) <= 2real,
                0real <= z,
        ;
    }
    assert(size(p) <= 5real * z);
    assert((eps + 5real / 1000000real) * z == d * z + z / 1000000real) by (nonlinear_arith)
        requires
            d == eps + 4real / 1000000real,
    ;
    let half = w / 2real;
    let d4 = d3 / 2real + 5real * z / 20000000real;
    assert(size(h - half) <= d4);
    lemma_triangle(h - half, half, 0real);
    lemma_triangle(out - h, h - half, 0real);
}

/// A gated value is near `u * v * (1 + erf(v / sqrt 2)) / 2`, for the rescaled numbers `u` and `v`
/// of the projections: the one times the Gaussian error linear unit of the other, whatever their
/// signs.
pub proof fn law_gate_is_near_the_unit(
    m: Meaning,
    g: Arith,
    erf: spec_fn(real) -> real,
    root: real,
    eps: real,
    up: u32,
    gate: u32,
    up_scale: u32,
    gate_scale: u32,
)
    requires
        m.rounds_well(g),
        m.names(),
        m.adds_near(g, Op::Sum),
        m.divides_near(g),
        m.errs_near(g, erf, root, eps),
        0real <= eps <= 1real,
        calm_gate(m.calm, g, rescaled(g, up, up_scale), rescaled(g, gate, gate_scale)),
    ensures
        ({
            let u = (m.sixteen)(rescaled(g, up, up_scale));
            let v = (m.sixteen)(rescaled(g, gate, gate_scale));
            let exact = u * v * (1real + erf(v * root)) / 2real;
            size((m.sixteen)(gated(g, up, gate, up_scale, gate_scale)) - exact) <= size(exact)
                / 512real + (eps + 5real / 1000000real) * size(u * v)
        }),
{
    let (x, y) = (rescaled(g, up, up_scale), rescaled(g, gate, gate_scale));
    let (u, v) = ((m.sixteen)(x), (m.sixteen)(y));
    let (wx, wy) = (one(g, Op::WidenBf16, x), one(g, Op::WidenBf16, y));
    let n = two(g, Op::Multiply, wy, F32_INVSQRT2);
    let e = one(g, Op::Erf, n);
    let s = two(g, Op::Sum, e, F32_ONE);
    let gl = two(g, Op::Multiply, s, wy);
    let p = two(g, Op::Multiply, wx, gl);
    let h = two(g, Op::Divide, p, F32_TWO);
    let out = one(g, Op::NarrowBf16, h);
    assert((m.full)(wx) == u && (m.full)(wy) == v) by {
        reveal(Meaning::exact);
    }
    assert((m.full)(F32_ONE) == 1real && (m.full)(F32_TWO) == 2real) by {
        reveal(Meaning::names);
    }
    let c = (m.full)(F32_INVSQRT2);
    assert({
        &&& 10000000real * size((m.full)(n) - v * c) <= size(v * c)
        &&& 10000000real * size((m.full)(gl) - (m.full)(s) * v) <= size((m.full)(s) * v)
        &&& 10000000real * size((m.full)(p) - u * (m.full)(gl)) <= size(u * (m.full)(gl))
    }) by {
        reveal(Meaning::computes_near);
    }
    assert(10000000real * size((m.full)(s) - ((m.full)(e) + 1real)) <= size(
        (m.full)(e) + 1real,
    )) by {
        reveal(Meaning::adds_near);
    }
    assert(10000000real * size((m.full)(h) * 2real - (m.full)(p)) <= size((m.full)(p))) by {
        reveal(Meaning::divides_near);
    }
    assert(512real * size((m.sixteen)(out) - (m.full)(h)) <= size((m.full)(h))) by {
        reveal(Meaning::rounds_near);
    }
    let f = erf(v * root);
    assert(size(f) <= 1real && 1000000real * size((m.full)(e) - f) <= 1000000real * eps
        + 3real) by {
        reveal(Meaning::errs_near);
        lemma_erf_argument(v, c, root, (m.full)(n));
        let k = erf((m.full)(n));
        let (t, d) = (v * root, size(v * root - (m.full)(n)));
        assert(size(t) * size(f - k) <= d);
        lemma_erf_move(t, d, f - k);
        lemma_triangle((m.full)(e) - k, k - f, 0real);
    }
    lemma_gate_sum(
        f,
        eps,
        (m.full)(e),
        (m.full)(s),
        v,
        (m.full)(gl),
        u,
        (m.full)(p),
        (m.full)(h),
        (m.sixteen)(out),
    );
}

/// The scale of a group is the smallest one, or a 256th of the largest magnitude of the group; and
/// no magnitude is much above 256 of it.
pub proof fn law_scale_is_a_256th_of_the_largest(m: Meaning, g: Arith, xs: Seq<u32>)
    requires
        m.rounds_well(g),
        m.names(),
        m.divides_near(g),
        m.picks(g),
        xs.len() > 0,
        calm_group(m.calm, g, xs),
        calm_two(m.calm, Op::ClipMax, two(g, Op::Divide, largest(g, xs), F32_256), F32_TINY),
    ensures
        forall|k: int|
            0 <= k < xs.len() ==> 1000000real * size((m.sixteen)(#[trigger] xs[k]))
                <= 256000100real * (m.full)(group_scale(g, xs)),
        group_scale(g, xs) == F32_TINY || exists|k: int|
            0 <= k < xs.len() && 10000000real * size(
                256real * (m.full)(group_scale(g, xs)) - size((m.sixteen)(#[trigger] xs[k])),
            ) <= size((m.sixteen)(xs[k])),
        0real < (m.full)(group_scale(g, xs)),
{
    let sizes = Seq::new(xs.len(), |k: int| magnitude(g, xs[k]));
    let top = largest(g, xs);
    let q = two(g, Op::Divide, top, F32_256);
    let s = group_scale(g, xs);
    assert(forall|k: int|
        0 <= k < xs.len() ==> (m.full)(#[trigger] sizes[k]) == size((m.sixteen)(xs[k]))) by {
        reveal(Meaning::exact);
    }
    assert(forall|k: int| 0 <= k < sizes.len() ==> (m.full)(#[trigger] sizes[k]) <= (m.full)(top))
        by {
        reveal(Meaning::orders);
    }
    assert(exists|k: int|
        0 <= k < sizes.len() && (m.full)(#[trigger] sizes[k]) == (m.full)(top)) by {
        reveal(Meaning::picks);
    }
    let i = choose|k: int|
        0 <= k < sizes.len() && (m.full)(#[trigger] sizes[k]) == (m.full)(top);
    assert((m.full)(F32_256) == 256real && 0real < (m.full)(F32_TINY)) by {
        reveal(Meaning::names);
    }
    assert(10000000real * size((m.full)(q) * 256real - (m.full)(top)) <= size((m.full)(top))) by {
        reveal(Meaning::divides_near);
    }
    assert((s == q || s == F32_TINY) && (m.full)(q) <= (m.full)(s) && (m.full)(F32_TINY)
        <= (m.full)(s)) by {
        reveal(Meaning::picks);
    }
    assert forall|k: int| 0 <= k < xs.len() implies 1000000real * size(
        (m.sixteen)(#[trigger] xs[k]),
    ) <= 256000100real * (m.full)(s) by {
        assert((m.full)(sizes[k]) <= (m.full)(top));
    }
    assert(size((m.sixteen)(xs[i])) == (m.full)(sizes[i]));
}

} // verus!
