//! How near the feed-forward projections come to the exact products, where the arithmetic unit
//! rounds as its formats do.
use crate::blocks::{block, blocks_total, decoded_f4};
use crate::calm::{
    calm_blocks, calm_down, calm_group, calm_list, calm_output, calm_quarter, calm_split, calm_two,
    calm_up, calm_value, down_totals, half_totals, quarter_totals, row_totals, up_totals, Calm,
};
use crate::engine::{fold, one, two, Arith, Op};
use crate::layout::at_h;
use crate::mlp::{down_feature, half_total, up_feature};
use crate::output::{part_total, quarter_input, quarter_total, quarter_weights, sharded_value};
use crate::places::{term, FEED, HIDDEN};
use crate::projection::product;
use crate::quantize::{
    group_scale, high_part, largest, list_parts, list_scales, low_part, low_scale, magnitude,
    normal, part_of, part_scale, F32_16, F32_256, F32_SIXTEENTH, F32_TINY,
};
use crate::tensor::Tensor;
use vstd::arithmetic::div_mod::lemma_fundamental_div_mod_converse;
use vstd::prelude::*;

verus! {

/// The size of a number.
pub open spec fn size(a: real) -> real {
    if a < 0real {
        -a
    } else {
        a
    }
}

/// The sum of `f` over the first `n` indices.
pub open spec fn sum(n: int, f: spec_fn(int) -> real) -> real
    decreases n,
{
    if n <= 0 {
        0real
    } else {
        sum(n - 1, f) + f(n - 1)
    }
}

/// Sums of equal terms are equal.
pub(crate) proof fn lemma_sum_equal(n: int, f: spec_fn(int) -> real, h: spec_fn(int) -> real)
    requires
        forall|k: int| 0 <= k < n ==> #[trigger] f(k) == h(k),
    ensures
        sum(n, f) == sum(n, h),
    decreases n,
{
    if n > 0 {
        lemma_sum_equal(n - 1, f, h);
        assert(f(n - 1) == h(n - 1));
    }
}

/// Sums of larger terms are larger.
pub(crate) proof fn lemma_sum_below(n: int, f: spec_fn(int) -> real, h: spec_fn(int) -> real)
    requires
        forall|k: int| 0 <= k < n ==> #[trigger] f(k) <= h(k),
    ensures
        sum(n, f) <= sum(n, h),
    decreases n,
{
    if n > 0 {
        lemma_sum_below(n - 1, f, h);
        assert(f(n - 1) <= h(n - 1));
    }
}

/// A factor of all terms is one of the sum.
pub(crate) proof fn lemma_sum_times(
    n: int,
    f: spec_fn(int) -> real,
    h: spec_fn(int) -> real,
    c: real,
)
    requires
        forall|k: int| 0 <= k < n ==> #[trigger] h(k) == c * f(k),
    ensures
        sum(n, h) == c * sum(n, f),
    decreases n,
{
    if n > 0 {
        lemma_sum_times(n - 1, f, h, c);
        let (a, b) = (sum(n - 1, f), f(n - 1));
        assert(h(n - 1) == c * b);
        assert(c * (a + b) == c * a + c * b) by (nonlinear_arith);
    } else {
        assert(c * 0real == 0real) by (nonlinear_arith);
    }
}

/// The sum of sums of terms.
pub(crate) proof fn lemma_sum_plus(
    n: int,
    f: spec_fn(int) -> real,
    h: spec_fn(int) -> real,
    both: spec_fn(int) -> real,
)
    requires
        forall|k: int| 0 <= k < n ==> #[trigger] both(k) == f(k) + h(k),
    ensures
        sum(n, both) == sum(n, f) + sum(n, h),
    decreases n,
{
    if n > 0 {
        lemma_sum_plus(n - 1, f, h, both);
        assert(both(n - 1) == f(n - 1) + h(n - 1));
    }
}

/// Errors of terms add up.
pub(crate) proof fn lemma_sum_error(
    n: int,
    f: spec_fn(int) -> real,
    h: spec_fn(int) -> real,
    e: spec_fn(int) -> real,
    c: real,
)
    requires
        0real < c,
        forall|k: int| 0 <= k < n ==> c * size(#[trigger] f(k) - h(k)) <= e(k),
    ensures
        c * size(sum(n, f) - sum(n, h)) <= sum(n, e),
    decreases n,
{
    if n > 0 {
        lemma_sum_error(n - 1, f, h, e, c);
        let a = sum(n - 1, f) - sum(n - 1, h);
        let b = f(n - 1) - h(n - 1);
        assert(c * size(b) <= e(n - 1));
        assert(c * size(a + b) <= c * size(a) + c * size(b)) by (nonlinear_arith)
            requires
                size(a + b) <= size(a) + size(b),
                0real < c,
        ;
    } else {
        assert(c * 0real == 0real) by (nonlinear_arith);
    }
}

/// A sum over two stretches of indices.
pub(crate) proof fn lemma_sum_stretches(
    a: int,
    b: int,
    f: spec_fn(int) -> real,
    rest: spec_fn(int) -> real,
)
    requires
        0 <= a,
        0 <= b,
        forall|k: int| 0 <= k < b ==> #[trigger] rest(k) == f(a + k),
    ensures
        sum(a + b, f) == sum(a, f) + sum(b, rest),
    decreases b,
{
    if b > 0 {
        lemma_sum_stretches(a, b - 1, f, rest);
        assert(rest(b - 1) == f(a + (b - 1)));
    }
}

/// A sum over blocks of sixteen.
proof fn lemma_sum_blocks(n: int, f: spec_fn(int) -> real, blocks: spec_fn(int) -> real)
    requires
        0 <= n,
        forall|b: int|
            0 <= b < n ==> #[trigger] blocks(b) == sum(16, |k: int| f(16 * b + k)),
    ensures
        sum(16 * n, f) == sum(n, blocks),
    decreases n,
{
    if n > 0 {
        lemma_sum_blocks(n - 1, f, blocks);
        lemma_sum_stretches(16 * (n - 1), 16, f, |k: int| f(16 * (n - 1) + k));
        assert(blocks(n - 1) == sum(16, |k: int| f(16 * (n - 1) + k)));
    }
}

/// The numbers that bit patterns stand for, and which requests are harmless: those on numbers
/// whose answer neither overflows nor underflows.
pub struct Meaning {
    pub four: spec_fn(u32) -> real,
    pub eight: spec_fn(u32) -> real,
    pub sixteen: spec_fn(u32) -> real,
    pub full: spec_fn(u32) -> real,
    pub calm: Calm,
}

impl Meaning {
    /// Table lookups and widening change no number, a magnitude is the size of its number, and
    /// sixteen and a sixteenth are what they are called.
    #[verifier::opaque]
    pub open spec fn exact(self, g: Arith) -> bool {
        &&& forall|a: u32| (self.eight)(#[trigger] one(g, Op::LookupF4AsF8, a)) == (self.four)(a)
        &&& forall|a: u32| (self.full)(#[trigger] one(g, Op::WidenF8, a)) == (self.eight)(a)
        &&& forall|a: u32| (self.full)(#[trigger] one(g, Op::WidenBf16, a)) == (self.sixteen)(a)
        &&& forall|a: u32|
            (self.full)(#[trigger] one(g, Op::WidenBf16, a) & 0x7fff_ffff) == size(
                (self.sixteen)(a),
            )
        &&& (self.full)(F32_16) == 16real
        &&& 16real * (self.full)(F32_SIXTEENTH) == 1real
    }

    /// The largest of a list is no smaller than any of its values.
    #[verifier::opaque]
    pub open spec fn orders(self, g: Arith) -> bool {
        forall|a: Seq<u32>, k: int|
            #![trigger fold(g, Op::LargestInSlice, a), a[k]]
            calm_list(self.calm, Op::LargestInSlice, a) && 0 <= k < a.len() ==> (self.full)(a[k])
                <= (self.full)(fold(g, Op::LargestInSlice, a))
    }

    /// A scale is positive, and its largest value is not much above 256 of it.
    #[verifier::opaque]
    pub open spec fn draws(self, g: Arith) -> bool {
        forall|m: u32|
            #![trigger two(g, Op::Divide, m, F32_256)]
            calm_two(self.calm, Op::Divide, m, F32_256) ==> {
                let s = (self.full)(two(g, Op::ClipMax, two(g, Op::Divide, m, F32_256), F32_TINY));
                &&& 0real < s
                &&& (self.full)(m) <= 257real * s
            }
    }

    /// Products and differences are off by at most a ten-millionth, and quotients by a
    /// ten-millionth of the dividend and of the divisor.
    #[verifier::opaque]
    pub open spec fn computes_near(self, g: Arith) -> bool {
        &&& forall|a: u32, b: u32|
            #![trigger two(g, Op::Multiply, a, b)]
            calm_two(self.calm, Op::Multiply, a, b) ==> {
                let p = (self.full)(a) * (self.full)(b);
                10000000real * size((self.full)(two(g, Op::Multiply, a, b)) - p) <= size(p)
            }
        &&& forall|a: u32, b: u32|
            #![trigger two(g, Op::Subtract, a, b)]
            calm_two(self.calm, Op::Subtract, a, b) ==> {
                let d = (self.full)(a) - (self.full)(b);
                10000000real * size((self.full)(two(g, Op::Subtract, a, b)) - d) <= size(d)
            }
        &&& forall|a: u32, b: u32|
            #![trigger two(g, Op::Divide, a, b)]
            calm_two(self.calm, Op::Divide, a, b) && 0real < (self.full)(b) ==> 10000000real * size(
                (self.full)(two(g, Op::Divide, a, b)) * (self.full)(b) - (self.full)(a),
            ) <= size((self.full)(a)) + (self.full)(b)
    }

    /// Rounding to an 8-bit float is off by at most 8 up to 264, and goes no further than to 256;
    /// up to 132 it is off by at most 4, and goes no further than to 128. Rounding to a bfloat16 is
    /// off by at most a 512th.
    #[verifier::opaque]
    pub open spec fn rounds_near(self, g: Arith) -> bool {
        &&& forall|a: u32|
            #![trigger one(g, Op::NarrowF8, a)]
            calm_list(self.calm, Op::NarrowF8, seq![a]) ==> {
                let r = (self.eight)(one(g, Op::NarrowF8, a));
                let e = size(r - (self.full)(a));
                &&& size((self.full)(a)) <= 264real ==> e <= 8real && size(r) <= 256real
                &&& size((self.full)(a)) <= 132real ==> e <= 4real && size(r) <= 128real
            }
        &&& forall|a: u32|
            #![trigger one(g, Op::NarrowBf16, a)]
            calm_list(self.calm, Op::NarrowBf16, seq![a]) ==> 512real * size(
                (self.sixteen)(one(g, Op::NarrowBf16, a)) - (self.full)(a),
            ) <= size((self.full)(a))
    }

    /// Each of the terms of a total or of a contraction adds at most a ten-millionth of the sum of
    /// all sizes to its error.
    #[verifier::opaque]
    pub open spec fn totals_near(self, g: Arith) -> bool {
        &&& forall|op: Op, a: Seq<u32>|
            #![trigger fold(g, op, a)]
            (op == Op::TotalInSlice || op == Op::TotalAcrossSlices) && calm_list(self.calm, op, a)
                ==> 10000000real * size(
                (self.full)(fold(g, op, a)) - sum(
                    a.len() as int,
                    |k: int| (self.full)(a[k]),
                ),
            ) <= (a.len() as real) * sum(a.len() as int, |k: int| size((self.full)(a[k])))
        &&& forall|w: Seq<u32>, x: Seq<u32>|
            #![trigger g(Op::ContractF8, w, x)]
            (self.calm)(Op::ContractF8, w, x) && w.len() == x.len() ==> 10000000real * size(
                (self.full)(g(Op::ContractF8, w, x)) - sum(
                    w.len() as int,
                    |k: int| (self.eight)(w[k]) * (self.eight)(x[k]),
                ),
            ) <= (w.len() as real) * sum(
                w.len() as int,
                |k: int| size((self.eight)(w[k]) * (self.eight)(x[k])),
            )
    }

    /// The unit rounds as its formats do.
    pub open spec fn rounds_well(self, g: Arith) -> bool {
        &&& self.exact(g)
        &&& self.orders(g)
        &&& self.draws(g)
        &&& self.computes_near(g)
        &&& self.rounds_near(g)
        &&& self.totals_near(g)
    }
}

/// A value is near what its parts make up: off by little more than a quarter of the scale.
proof fn lemma_split_error(m: Meaning, g: Arith, x: u32, s: u32)
    requires
        m.rounds_well(g),
        calm_value(m.calm, g, x, s),
        calm_two(m.calm, Op::Multiply, s, F32_SIXTEENTH),
        0real < (m.full)(s),
        size((m.sixteen)(x)) <= 257real * (m.full)(s),
    ensures
        ({
            let scale = (m.full)(s);
            let low = (m.full)(low_scale(g, s));
            let hi = (m.eight)(high_part(g, x, s));
            let lo = (m.eight)(low_part(g, x, s));
            &&& 0real <= low
            &&& 15real * low <= scale
            &&& size(hi) <= 256real
            &&& size(lo) <= 128real
            &&& 10000real * size((m.sixteen)(x) - (scale * hi + low * lo)) <= 2510real * scale
        }),
{
    reveal(Meaning::exact);
    reveal(Meaning::computes_near);
    reveal(Meaning::rounds_near);
    let sc = (m.full)(s);
    let v = (m.sixteen)(x);
    let np = normal(g, x, s);
    let n = (m.full)(np);
    let hp = high_part(g, x, s);
    let hi = (m.eight)(hp);
    let wp = one(g, Op::WidenF8, hp);
    let rp = two(g, Op::Subtract, np, wp);
    let r = (m.full)(rp);
    let ep = two(g, Op::Multiply, rp, F32_16);
    let e = (m.full)(ep);
    let lo = (m.eight)(low_part(g, x, s));
    let low = (m.full)(low_scale(g, s));
    // The quotient.
    assert(10000000real * size(n * sc - v) <= size(v) + sc);
    assert(n * sc <= 258real * sc);
    assert(n * sc >= -(258real * sc));
    assert(n <= 258real) by (nonlinear_arith)
        requires
            n * sc <= 258real * sc,
            0real < sc,
    ;
    assert(n >= -258real) by (nonlinear_arith)
        requires
            n * sc >= -(258real * sc),
            0real < sc,
    ;
    // The high part and what it leaves.
    assert(size(hi - n) <= 8real);
    let d = n - hi;
    assert((m.full)(wp) == hi);
    assert(10000000real * size(r - d) <= size(d));
    assert(10000000real * size(e - r * 16real) <= size(r * 16real));
    assert(size(e) <= 132real);
    assert(size(lo - e) <= 4real);
    assert(10000real * size(16real * d - lo) <= 40010real);
    // The low scale.
    let t = (m.full)(F32_SIXTEENTH);
    assert(10000000real * size(low - sc * t) <= size(sc * t));
    assert(16real * (sc * t) == sc) by (nonlinear_arith)
        requires
            16real * t == 1real,
    ;
    lemma_split_sum(sc, v, n, d, hi, lo, low);
}

/// The arithmetic of the split.
proof fn lemma_split_sum(sc: real, v: real, n: real, d: real, hi: real, lo: real, low: real)
    requires
        0real < sc,
        d == n - hi,
        10000000real * size(n * sc - v) <= 258real * sc,
        10000real * size(16real * d - lo) <= 40010real,
        size(lo) <= 128real,
        160000000real * size(low - sc / 16real) <= sc,
    ensures
        10000real * size(v - (sc * hi + low * lo)) <= 2510real * sc,
{
    let u = low - sc / 16real;
    assert(v - (sc * hi + low * lo) == (v - n * sc) + sc * (d - lo / 16real) - u * lo)
        by (nonlinear_arith)
        requires
            d == n - hi,
            u == low - sc / 16real,
    ;
    let f = d - lo / 16real;
    assert(160000real * (sc * f) <= 40010real * sc) by (nonlinear_arith)
        requires
            160000real * f <= 40010real,
            0real < sc,
    ;
    assert(160000real * (sc * f) >= -(40010real * sc)) by (nonlinear_arith)
        requires
            160000real * f >= -40010real,
            0real < sc,
    ;
    assert(160000000real * (u * lo) <= 128real * sc) by (nonlinear_arith)
        requires
            160000000real * u <= sc,
            160000000real * u >= -sc,
            -128real <= lo <= 128real,
            0real < sc,
    ;
    assert(160000000real * (u * lo) >= -(128real * sc)) by (nonlinear_arith)
        requires
            160000000real * u <= sc,
            160000000real * u >= -sc,
            -128real <= lo <= 128real,
            0real < sc,
    ;
}

/// The arithmetic of a block: a contraction `c` for the products `e`, times a scale and another.
proof fn lemma_block_sum(c: real, e: real, a: real, b: real, p: real, sc: real, t: real)
    requires
        0real <= sc,
        size(e) <= a,
        10000000real * size(c - e) <= 16real * a,
        10000000real * size(p - c * b) <= size(c * b),
        10000000real * size(t - p * sc) <= size(p * sc),
    ensures
        10000000real * size(t - e * (b * sc)) <= 20real * (a * (size(b) * sc)),
        10real * size(t) <= 11real * (a * (size(b) * sc)),
        0real <= a * (size(b) * sc),
{
    let q = size(b) * sc;
    let f = b * sc;
    assert(0real <= q) by (nonlinear_arith)
        requires
            0real <= size(b),
            0real <= sc,
            q == size(b) * sc,
    ;
    assert(size(f) == q) by (nonlinear_arith)
        requires
            0real <= sc,
            f == b * sc,
            q == (if b < 0real {
                -b
            } else {
                b
            }) * sc,
            size(f) == (if f < 0real {
                -f
            } else {
                f
            }),
    ;
    let z = a * q;
    assert(0real <= z) by (nonlinear_arith)
        requires
            0real <= a,
            0real <= q,
            z == a * q,
    ;
    // The contraction's error, scaled.
    let d = c - e;
    assert(10000000real * (d * f) <= 16real * z && 10000000real * (d * f) >= -(16real * z))
        by (nonlinear_arith)
        requires
            10000000real * d <= 16real * a,
            10000000real * d >= -(16real * a),
            -q <= f <= q,
            0real <= q,
            0real <= a,
            z == a * q,
    ;
    // The first product's error, scaled.
    let g1 = c * b;
    let d1 = p - g1;
    assert(g1 * sc == c * f) by (nonlinear_arith)
        requires
            g1 == c * b,
            f == b * sc,
    ;
    assert(c * f == e * f + d * f) by (nonlinear_arith)
        requires
            d == c - e,
    ;
    assert(e * f <= z && e * f >= -z) by (nonlinear_arith)
        requires
            -a <= e <= a,
            -q <= f <= q,
            0real <= q,
            0real <= a,
            z == a * q,
    ;
    assert(10000000real * (d1 * sc) <= size(g1) * sc && 10000000real * (d1 * sc) >= -(size(g1)
        * sc)) by (nonlinear_arith)
        requires
            10000000real * d1 <= size(g1),
            10000000real * d1 >= -size(g1),
            0real <= sc,
    ;
    assert(size(g1) * sc == size(g1 * sc)) by (nonlinear_arith)
        requires
            0real <= sc,
            size(g1) == (if g1 < 0real {
                -g1
            } else {
                g1
            }),
            size(g1 * sc) == (if g1 * sc < 0real {
                -(g1 * sc)
            } else {
                g1 * sc
            }),
    ;
    assert(p * sc == g1 * sc + d1 * sc) by (nonlinear_arith)
        requires
            d1 == p - g1,
    ;
}

impl Meaning {
    /// A weight times the scale of its block.
    pub open spec fn weight(self, weights: Seq<u32>, scales: Seq<u32>, h: int) -> real {
        (self.four)(weights[h]) * (self.eight)(scales[h / 16])
    }

    /// What a part of value `h` adds to a row.
    pub open spec fn term(
        self,
        weights: Seq<u32>,
        scales: Seq<u32>,
        x: Seq<u32>,
        x_scales: Seq<u32>,
        h: int,
    ) -> real {
        self.weight(weights, scales, h) * ((self.full)(x_scales[h / 960]) * (self.eight)(x[h]))
    }

    /// The size of what a part of value `h` adds to a row.
    pub open spec fn bulk(
        self,
        weights: Seq<u32>,
        scales: Seq<u32>,
        x: Seq<u32>,
        x_scales: Seq<u32>,
        h: int,
    ) -> real {
        size(self.weight(weights, scales, h)) * ((self.full)(x_scales[h / 960]) * size(
            (self.eight)(x[h]),
        ))
    }
}

/// The size of a product.
pub(crate) proof fn lemma_size_product(a: real, b: real)
    ensures
        size(a * b) == size(a) * size(b),
{
    if a < 0real {
        if b < 0real {
            assert(a * b >= 0real && a * b == (-a) * (-b)) by (nonlinear_arith)
                requires
                    a < 0real,
                    b < 0real,
            ;
        } else {
            assert(a * b <= 0real && -(a * b) == (-a) * b) by (nonlinear_arith)
                requires
                    a < 0real,
                    b >= 0real,
            ;
        }
    } else {
        if b < 0real {
            assert(a * b <= 0real && -(a * b) == a * (-b)) by (nonlinear_arith)
                requires
                    a >= 0real,
                    b < 0real,
            ;
        } else {
            assert(a * b >= 0real) by (nonlinear_arith)
                requires
                    a >= 0real,
                    b >= 0real,
            ;
        }
    }
}

/// A block is near the sum of what its values add.
proof fn lemma_block_error(
    m: Meaning,
    g: Arith,
    weights: Seq<u32>,
    scales: Seq<u32>,
    x: Seq<u32>,
    x_scales: Seq<u32>,
    b: int,
)
    requires
        m.rounds_well(g),
        calm_blocks(m.calm, g, decoded_f4(g, weights), scales, x, x_scales),
        0 <= b < scales.len(),
        weights.len() == 16 * scales.len(),
        x.len() == 16 * scales.len(),
        0real <= (m.full)(x_scales[b / 60]),
    ensures
        ({
            let t = (m.full)(block(g, decoded_f4(g, weights), scales, x, x_scales, b));
            let e = sum(16, |k: int| m.term(weights, scales, x, x_scales, 16 * b + k));
            let z = sum(16, |k: int| m.bulk(weights, scales, x, x_scales, 16 * b + k));
            &&& 10000000real * size(t - e) <= 20real * z
            &&& 10real * size(t) <= 11real * z
            &&& 0real <= z
        }),
{
    let native = decoded_f4(g, weights);
    let w = Seq::new(16, |k: int| native[16 * b + k]);
    let v = Seq::new(16, |k: int| x[16 * b + k]);
    let cp = g(Op::ContractF8, w, v);
    let tp = one(g, Op::WidenF8, scales[b]);
    let pp = two(g, Op::Multiply, cp, tp);
    let bp = block(g, native, scales, x, x_scales, b);
    let c = (m.full)(cp);
    let bs = (m.eight)(scales[b]);
    let p = (m.full)(pp);
    let sc = (m.full)(x_scales[b / 60]);
    let t = (m.full)(bp);
    let prod = |k: int| (m.eight)(w[k]) * (m.eight)(v[k]);
    let prods = |k: int| size((m.eight)(w[k]) * (m.eight)(v[k]));
    let e = sum(16, prod);
    let a = sum(16, prods);
    assert(size(e) <= a) by {
        let zero = |k: int| 0real;
        assert forall|k: int| 0 <= k < 16 implies 1real * size(#[trigger] prod(k) - zero(k))
            <= prods(k) by {}
        lemma_sum_error(16, prod, zero, prods, 1real);
        assert forall|k: int| 0 <= k < 16 implies #[trigger] zero(k) == 0real * prod(k) by {
            let q = prod(k);
            assert(0real * q == 0real) by (nonlinear_arith);
        }
        lemma_sum_times(16, prod, zero, 0real);
        assert(0real * e == 0real) by (nonlinear_arith);
    }
    assert(10000000real * size(c - e) <= 16real * a) by {
        reveal(Meaning::totals_near);
        assert(w.len() as real == 16real);
    }
    assert((m.full)(tp) == bs) by {
        reveal(Meaning::exact);
    }
    assert(10000000real * size(p - c * bs) <= size(c * bs)) by {
        reveal(Meaning::computes_near);
    }
    assert(10000000real * size(t - p * sc) <= size(p * sc)) by {
        reveal(Meaning::computes_near);
    }
    lemma_block_sum(c, e, a, bs, p, sc, t);
    let f = bs * sc;
    let q = size(bs) * sc;
    let term = |k: int| m.term(weights, scales, x, x_scales, 16 * b + k);
    let bulk = |k: int| m.bulk(weights, scales, x, x_scales, 16 * b + k);
    assert forall|k: int|
        #![trigger term(k)]
        #![trigger bulk(k)]
        0 <= k < 16 implies term(k) == f * prod(k) && bulk(k) == q * prods(k) by {
        let h = 16 * b + k;
        lemma_fundamental_div_mod_converse(h, 16, b, k);
        lemma_fundamental_div_mod_converse(h, 960, b / 60, 16 * (b % 60) + k);
        assert(h / 16 == b && h / 960 == b / 60);
        let r = (m.four)(weights[h]);
        let y = (m.eight)(x[h]);
        assert((m.eight)(w[k]) == r) by {
            reveal(Meaning::exact);
        }
        assert((r * bs) * (sc * y) == (bs * sc) * (r * y)) by (nonlinear_arith);
        lemma_size_product(r, bs);
        lemma_size_product(r, y);
        let (sr, sb, sy) = (size(r), size(bs), size(y));
        assert((sr * sb) * (sc * sy) == (sb * sc) * (sr * sy)) by (nonlinear_arith);
    }
    lemma_sum_times(16, prod, term, f);
    lemma_sum_times(16, prods, bulk, q);
    assert(f * e == e * f && q * a == a * q) by (nonlinear_arith);
}

/// A row is near the sum of what its values add.
pub(crate) proof fn lemma_row_error(
    m: Meaning,
    g: Arith,
    weights: Seq<u32>,
    scales: Seq<u32>,
    x: Seq<u32>,
    x_scales: Seq<u32>,
)
    requires
        m.rounds_well(g),
        calm_blocks(m.calm, g, decoded_f4(g, weights), scales, x, x_scales),
        0 < scales.len() <= 480,
        weights.len() == 16 * scales.len(),
        x.len() == 16 * scales.len(),
        scales.len() == 60 * x_scales.len(),
        forall|i: int| 0 <= i < x_scales.len() ==> 0real <= (m.full)(#[trigger] x_scales[i]),
    ensures
        ({
            let n = weights.len() as int;
            let t = (m.full)(blocks_total(g, decoded_f4(g, weights), scales, x, x_scales));
            let e = sum(n, |h: int| m.term(weights, scales, x, x_scales, h));
            let z = sum(n, |h: int| m.bulk(weights, scales, x, x_scales, h));
            10000000real * size(t - e) <= 550real * z
        }),
{
    let n = scales.len() as int;
    let native = decoded_f4(g, weights);
    let term = |h: int| m.term(weights, scales, x, x_scales, h);
    let bulk = |h: int| m.bulk(weights, scales, x, x_scales, h);
    let terms = |b: int| sum(16, |k: int| m.term(weights, scales, x, x_scales, 16 * b + k));
    let bulks = |b: int| sum(16, |k: int| m.bulk(weights, scales, x, x_scales, 16 * b + k));
    let list = Seq::new(scales.len(), |b: int| block(g, native, scales, x, x_scales, b));
    let value = |b: int| (m.full)(list[b]);
    let values = |b: int| size((m.full)(list[b]));
    let bulks20 = |b: int| 20real * bulks(b);
    let bulks11 = |b: int| 11real * bulks(b);
    let values10 = |b: int| 10real * values(b);
    assert forall|b: int|
        #![trigger value(b)]
        #![trigger values10(b)]
        0 <= b < n implies 10000000real * size(value(b) - terms(b)) <= bulks20(b) && values10(b)
        <= bulks11(b) by {
        assert(0 <= b / 60 < x_scales.len());
        lemma_block_error(m, g, weights, scales, x, x_scales, b);
    }
    lemma_sum_error(n, value, terms, bulks20, 10000000real);
    lemma_sum_times(n, bulks, bulks20, 20real);
    lemma_sum_below(n, values10, bulks11);
    lemma_sum_times(n, bulks, bulks11, 11real);
    lemma_sum_times(n, values, values10, 10real);
    let t = (m.full)(fold(g, Op::TotalInSlice, list));
    let r = scales.len() as real;
    let (a, z) = (sum(n, values), sum(n, bulks));
    assert(10000000real * size(t - sum(n, value)) <= r * a) by {
        reveal(Meaning::totals_near);
        lemma_sum_equal(n, value, |k: int| (m.full)(list[k]));
        lemma_sum_equal(n, values, |k: int| size((m.full)(list[k])));
        assert(list.len() == scales.len());
    }
    assert(0real <= a) by {
        let zero = |b: int| 0real * values(b);
        assert forall|b: int| 0 <= b < n implies #[trigger] zero(b) <= values(b) by {
            let v = values(b);
            assert(0real * v == 0real) by (nonlinear_arith);
        }
        lemma_sum_below(n, zero, values);
        lemma_sum_times(n, values, zero, 0real);
        assert(0real * a == 0real) by (nonlinear_arith);
    }
    assert(r * a <= 480real * a) by (nonlinear_arith)
        requires
            r <= 480real,
            0real <= a,
    ;
    assert forall|b: int| 0 <= b < n implies #[trigger] terms(b) == sum(
        16,
        |k: int| term(16 * b + k),
    ) by {
        lemma_sum_equal(
            16,
            |k: int| m.term(weights, scales, x, x_scales, 16 * b + k),
            |k: int| term(16 * b + k),
        );
    }
    lemma_sum_blocks(n, term, terms);
    assert forall|b: int| 0 <= b < n implies #[trigger] bulks(b) == sum(
        16,
        |k: int| bulk(16 * b + k),
    ) by {
        lemma_sum_equal(
            16,
            |k: int| m.bulk(weights, scales, x, x_scales, 16 * b + k),
            |k: int| bulk(16 * b + k),
        );
    }
    lemma_sum_blocks(n, bulk, bulks);
}

/// What a scale, a high part and a low part make of a number, with the scale of the low part.
pub open spec fn well_split(v: real, scale: real, low: real, hi: real, lo: real) -> bool {
    &&& 0real < scale
    &&& 0real <= low
    &&& 15real * low <= scale
    &&& size(hi) <= 256real
    &&& size(lo) <= 128real
    &&& 10000real * size(v - (scale * hi + low * lo)) <= 2510real * scale
}

/// The values of a group are well split.
pub(crate) proof fn lemma_group_error(m: Meaning, g: Arith, xs: Seq<u32>, k: int)
    requires
        m.rounds_well(g),
        calm_group(m.calm, g, xs),
        0 <= k < xs.len(),
    ensures
        ({
            let s = group_scale(g, xs);
            well_split(
                (m.sixteen)(xs[k]),
                (m.full)(s),
                (m.full)(low_scale(g, s)),
                (m.eight)(high_part(g, xs[k], s)),
                (m.eight)(low_part(g, xs[k], s)),
            )
        }),
{
    let sizes = Seq::new(xs.len(), |k: int| magnitude(g, xs[k]));
    let s = group_scale(g, xs);
    let top = largest(g, xs);
    assert(sizes[k] == magnitude(g, xs[k]));
    assert((m.full)(sizes[k]) <= (m.full)(top)) by {
        reveal(Meaning::orders);
    }
    assert((m.full)(magnitude(g, xs[k])) == size((m.sixteen)(xs[k]))) by {
        reveal(Meaning::exact);
    }
    assert(0real < (m.full)(s) && (m.full)(top) <= 257real * (m.full)(s)) by {
        reveal(Meaning::draws);
        assert(calm_two(m.calm, Op::Divide, top, F32_256));
    }
    assert(calm_value(m.calm, g, xs[k], s));
    lemma_split_error(m, g, xs[k], s);
}

/// The values of a list are well split.
pub(crate) proof fn lemma_list_error(m: Meaning, g: Arith, xs: Seq<u32>, h: int)
    requires
        m.rounds_well(g),
        calm_split(m.calm, g, xs),
        xs.len() % 960 == 0,
        0 <= h < xs.len(),
    ensures
        well_split(
            (m.sixteen)(xs[h]),
            (m.full)(list_scales(g, xs, 0)[h / 960]),
            (m.full)(list_scales(g, xs, 1)[h / 960]),
            (m.eight)(list_parts(g, xs, 0)[h]),
            (m.eight)(list_parts(g, xs, 1)[h]),
        ),
{
    let i = h / 960;
    let group = xs.subrange(960 * i, 960 * i + 960);
    assert(group[h - 960 * i] == xs[h]);
    lemma_group_error(m, g, group, h - 960 * i);
}

/// A value of a group is about its scale times the high part and a sixteenth of the low part: off
/// by little more than a quarter of the scale. The parts stay within 256 and 128.
pub proof fn law_group_value_is_near_its_parts(m: Meaning, g: Arith, xs: Seq<u32>, k: int)
    requires
        m.rounds_well(g),
        calm_group(m.calm, g, xs),
        0 <= k < xs.len(),
    ensures
        ({
            let s = group_scale(g, xs);
            let hi = (m.eight)(high_part(g, xs[k], s));
            let lo = (m.eight)(low_part(g, xs[k], s));
            &&& 10000real * size(
                (m.sixteen)(xs[k]) - ((m.full)(s) * hi + (m.full)(low_scale(g, s)) * lo),
            ) <= 2510real * (m.full)(s)
            &&& size(hi) <= 256real
            &&& size(lo) <= 128real
        }),
{
    lemma_group_error(m, g, xs, k);
}

/// A value of a list in groups of 960 is about its scale times the high part and a sixteenth of the
/// low part: off by little more than a quarter of the scale. The parts stay within 256 and 128.
pub proof fn law_value_is_near_its_parts(m: Meaning, g: Arith, xs: Seq<u32>, h: int)
    requires
        m.rounds_well(g),
        calm_split(m.calm, g, xs),
        xs.len() % 960 == 0,
        0 <= h < xs.len(),
    ensures
        ({
            let s = (m.full)(list_scales(g, xs, 0)[h / 960]);
            let low = (m.full)(list_scales(g, xs, 1)[h / 960]);
            let hi = (m.eight)(list_parts(g, xs, 0)[h]);
            let lo = (m.eight)(list_parts(g, xs, 1)[h]);
            &&& 10000real * size((m.sixteen)(xs[h]) - (s * hi + low * lo)) <= 2510real * s
            &&& size(hi) <= 256real
            &&& size(lo) <= 128real
        }),
{
    lemma_list_error(m, g, xs, h);
}

/// The arithmetic of one value of a row.
proof fn lemma_term_sum(w: real, v: real, scale: real, low: real, hi: real, lo: real)
    requires
        well_split(v, scale, low, hi, lo),
    ensures
        10000real * size(w * v - (w * (scale * hi) + w * (low * lo))) <= 2510real * (size(w)
            * scale),
        size(w) * (scale * size(hi)) <= 256real * (size(w) * scale),
        size(w) * (low * size(lo)) <= 10real * (size(w) * scale),
        size(w * (scale * hi)) <= size(w) * (scale * size(hi)),
        size(w * (low * lo)) <= size(w) * (low * size(lo)),
        0real <= size(w) * scale,
{
    let d = v - (scale * hi + low * lo);
    let z = size(w);
    assert(w * v - (w * (scale * hi) + w * (low * lo)) == w * d) by (nonlinear_arith)
        requires
            d == v - (scale * hi + low * lo),
    ;
    lemma_size_product(w, d);
    assert(10000real * (z * size(d)) <= 2510real * (z * scale)) by (nonlinear_arith)
        requires
            10000real * size(d) <= 2510real * scale,
            0real <= z,
    ;
    let (p, q) = (size(hi), size(lo));
    assert(z * (scale * p) <= 256real * (z * scale)) by {
        assert(scale * p <= 256real * scale) by (nonlinear_arith)
            requires
                p <= 256real,
                0real < scale,
        ;
        assert(z * (scale * p) <= z * (256real * scale)) by (nonlinear_arith)
            requires
                scale * p <= 256real * scale,
                0real <= z,
        ;
        assert(z * (256real * scale) == 256real * (z * scale)) by (nonlinear_arith);
    }
    assert(z * (low * q) <= 10real * (z * scale)) by {
        assert(low * q <= 128real * low) by (nonlinear_arith)
            requires
                q <= 128real,
                0real <= low,
        ;
        assert(low * q <= 10real * scale);
        assert(z * (low * q) <= z * (10real * scale)) by (nonlinear_arith)
            requires
                low * q <= 10real * scale,
                0real <= z,
        ;
        assert(z * (10real * scale) == 10real * (z * scale)) by (nonlinear_arith);
    }
    lemma_size_product(w, scale * hi);
    lemma_size_product(scale, hi);
    lemma_size_product(w, low * lo);
    lemma_size_product(low, lo);
    assert(0real <= z * scale) by (nonlinear_arith)
        requires
            0real <= z,
            0real < scale,
    ;
}

impl Meaning {
    /// The exact product of a row of weights and values.
    pub open spec fn product(self, weights: Seq<u32>, scales: Seq<u32>, xs: Seq<u32>) -> real {
        sum(
            xs.len() as int,
            |h: int| self.weight(weights, scales, h) * (self.sixteen)(xs[h]),
        )
    }

    /// The sizes of the weights of a row, each times the scale of the value that it meets.
    pub open spec fn spread(self, weights: Seq<u32>, scales: Seq<u32>, x_scales: Seq<u32>) -> real {
        sum(
            weights.len() as int,
            |h: int| size(self.weight(weights, scales, h)) * (self.full)(x_scales[h / 960]),
        )
    }
}

/// The totals of both parts of a row make up a number near the exact product.
proof fn lemma_parts_error(
    m: Meaning,
    g: Arith,
    weights: Seq<u32>,
    scales: Seq<u32>,
    xs: Seq<u32>,
    x: Seq<u32>,
    y: Seq<u32>,
    x_scales: Seq<u32>,
    y_scales: Seq<u32>,
)
    requires
        m.rounds_well(g),
        calm_blocks(m.calm, g, decoded_f4(g, weights), scales, x, x_scales),
        calm_blocks(m.calm, g, decoded_f4(g, weights), scales, y, y_scales),
        0 < scales.len() <= 480,
        weights.len() == 16 * scales.len(),
        xs.len() == weights.len(),
        x.len() == weights.len(),
        y.len() == weights.len(),
        scales.len() == 60 * x_scales.len(),
        x_scales.len() == y_scales.len(),
        forall|h: int|
            0 <= h < xs.len() ==> well_split(
                (m.sixteen)(#[trigger] xs[h]),
                (m.full)(x_scales[h / 960]),
                (m.full)(y_scales[h / 960]),
                (m.eight)(x[h]),
                (m.eight)(y[h]),
            ),
    ensures
        ({
            let t = (m.full)(blocks_total(g, decoded_f4(g, weights), scales, x, x_scales));
            let u = (m.full)(blocks_total(g, decoded_f4(g, weights), scales, y, y_scales));
            let z = m.spread(weights, scales, x_scales);
            &&& 10000real * size(t + u - m.product(weights, scales, xs)) <= 2670real * z
            &&& size(t) + size(u) <= 283real * z
            &&& 0real <= z
        }),
{
    let n = weights.len() as int;
    assert forall|i: int| 0 <= i < x_scales.len() implies 0real <= (m.full)(#[trigger] x_scales[i])
        && 0real <= (m.full)(y_scales[i]) by {
        assert((960 * i) / 960 == i);
        assert(well_split(
            (m.sixteen)(xs[960 * i]),
            (m.full)(x_scales[(960 * i) / 960]),
            (m.full)(y_scales[(960 * i) / 960]),
            (m.eight)(x[960 * i]),
            (m.eight)(y[960 * i]),
        ));
    }
    lemma_row_error(m, g, weights, scales, x, x_scales);
    assert forall|i: int| 0 <= i < y_scales.len() implies 0real <= (m.full)(
        #[trigger] y_scales[i],
    ) by {
        assert(0real <= (m.full)(x_scales[i]));
    }
    lemma_row_error(m, g, weights, scales, y, y_scales);
    let exact = |h: int| m.weight(weights, scales, h) * (m.sixteen)(xs[h]);
    let spread = |h: int| size(m.weight(weights, scales, h)) * (m.full)(x_scales[h / 960]);
    let term_high = |h: int| m.term(weights, scales, x, x_scales, h);
    let term_low = |h: int| m.term(weights, scales, y, y_scales, h);
    let bulk_high = |h: int| m.bulk(weights, scales, x, x_scales, h);
    let bulk_low = |h: int| m.bulk(weights, scales, y, y_scales, h);
    let both = |h: int| term_high(h) + term_low(h);
    let zero = |h: int| 0real * spread(h);
    let spread_2510 = |h: int| 2510real * spread(h);
    let spread_256 = |h: int| 256real * spread(h);
    let spread_10 = |h: int| 10real * spread(h);
    assert forall|h: int|
        #![trigger both(h)]
        #![trigger bulk_high(h)]
        #![trigger bulk_low(h)]
        #![trigger term_high(h)]
        #![trigger term_low(h)]
        #![trigger zero(h)]
        0 <= h < n implies {
        &&& 10000real * size(both(h) - exact(h)) <= spread_2510(h)
        &&& bulk_high(h) <= spread_256(h)
        &&& bulk_low(h) <= spread_10(h)
        &&& 1real * size(term_high(h) - zero(h)) <= bulk_high(h)
        &&& 1real * size(term_low(h) - zero(h)) <= bulk_low(h)
        &&& zero(h) <= spread(h)
    } by {
        assert(well_split(
            (m.sixteen)(xs[h]),
            (m.full)(x_scales[h / 960]),
            (m.full)(y_scales[h / 960]),
            (m.eight)(x[h]),
            (m.eight)(y[h]),
        ));
        lemma_term_sum(
            m.weight(weights, scales, h),
            (m.sixteen)(xs[h]),
            (m.full)(x_scales[h / 960]),
            (m.full)(y_scales[h / 960]),
            (m.eight)(x[h]),
            (m.eight)(y[h]),
        );
        let v = spread(h);
        assert(0real * v == 0real) by (nonlinear_arith);
    }
    let z = sum(n, spread);
    lemma_sum_error(n, both, exact, spread_2510, 10000real);
    lemma_sum_times(n, spread, spread_2510, 2510real);
    lemma_sum_plus(n, term_high, term_low, both);
    lemma_sum_below(n, bulk_high, spread_256);
    lemma_sum_times(n, spread, spread_256, 256real);
    lemma_sum_below(n, bulk_low, spread_10);
    lemma_sum_times(n, spread, spread_10, 10real);
    lemma_sum_error(n, term_high, zero, bulk_high, 1real);
    lemma_sum_error(n, term_low, zero, bulk_low, 1real);
    lemma_sum_times(n, spread, zero, 0real);
    lemma_sum_below(n, zero, spread);
    assert(0real * z == 0real) by (nonlinear_arith);
}

/// A total of two numbers is near their sum.
pub(crate) proof fn lemma_total_of_two(m: Meaning, g: Arith, op: Op, a: Seq<u32>)
    requires
        m.rounds_well(g),
        op == Op::TotalInSlice || op == Op::TotalAcrossSlices,
        calm_list(m.calm, op, a),
        a.len() == 2,
    ensures
        10000000real * size((m.full)(fold(g, op, a)) - ((m.full)(a[0]) + (m.full)(a[1])))
            <= 2real * (size((m.full)(a[0])) + size((m.full)(a[1]))),
{
    reveal(Meaning::totals_near);
    reveal_with_fuel(sum, 3);
    let f = |k: int| (m.full)(a[k]);
    let h = |k: int| size((m.full)(a[k]));
    assert(sum(2, f) == f(0) + f(1));
    assert(sum(2, h) == h(0) + h(1));
    assert(a.len() as real == 2real);
}

/// How near an up projection comes to the exact product: one rounding, and what the split leaves.
pub(crate) proof fn lemma_up_error(
    m: Meaning,
    g: Arith,
    weights: Seq<u32>,
    scales: Seq<u32>,
    xs: Seq<u32>,
)
    requires
        m.rounds_well(g),
        calm_split(m.calm, g, xs),
        calm_up(m.calm, g, weights, scales, xs),
        xs.len() == HIDDEN,
        weights.len() == HIDDEN,
        scales.len() == 240,
    ensures
        1000000real * size(
            (m.sixteen)(up_feature(g, weights, scales, xs)) - m.product(weights, scales, xs),
        ) <= 268000real * m.spread(weights, scales, list_scales(g, xs, 0)) + 1954real * size(
            m.product(weights, scales, xs),
        ),
        0real <= m.spread(weights, scales, list_scales(g, xs, 0)),
{
    let totals = up_totals(g, weights, scales, xs);
    let (x, y) = (list_parts(g, xs, 0), list_parts(g, xs, 1));
    let (p, q) = (list_scales(g, xs, 0), list_scales(g, xs, 1));
    assert forall|h: int| 0 <= h < xs.len() implies well_split(
        (m.sixteen)(#[trigger] xs[h]),
        (m.full)(p[h / 960]),
        (m.full)(q[h / 960]),
        (m.eight)(x[h]),
        (m.eight)(y[h]),
    ) by {
        lemma_list_error(m, g, xs, h);
    }
    lemma_parts_error(m, g, weights, scales, xs, x, y, p, q);
    lemma_total_of_two(m, g, Op::TotalInSlice, totals);
    reveal(Meaning::rounds_near);
    let r = fold(g, Op::TotalInSlice, totals);
    assert(up_feature(g, weights, scales, xs) == one(g, Op::NarrowBf16, r));
}

/// An up projection is near the exact product of the weights with the hidden features, before
/// these were split: off by at most 0.35 of the spread of the weights, and by 0.004 of the product.
pub proof fn law_up_is_near_the_product(
    m: Meaning,
    g: Arith,
    weights: Seq<u32>,
    scales: Seq<u32>,
    xs: Seq<u32>,
)
    requires
        m.rounds_well(g),
        calm_split(m.calm, g, xs),
        calm_up(m.calm, g, weights, scales, xs),
        xs.len() == HIDDEN,
        weights.len() == HIDDEN,
        scales.len() == 240,
    ensures
        1000real * size(
            (m.sixteen)(up_feature(g, weights, scales, xs)) - m.product(weights, scales, xs),
        ) <= 350real * m.spread(weights, scales, list_scales(g, xs, 0)) + 4real * size(
            m.product(weights, scales, xs),
        ),
{
    lemma_up_error(m, g, weights, scales, xs);
}

/// The totals of both parts of half a row of the down projection make up a number near the exact
/// product of that half.
proof fn lemma_half_error(
    m: Meaning,
    g: Arith,
    weights: Seq<u32>,
    scales: Seq<u32>,
    xs: Seq<u32>,
    half: int,
)
    requires
        m.rounds_well(g),
        calm_split(m.calm, g, xs),
        calm_down(m.calm, g, weights, scales, xs),
        xs.len() == FEED,
        weights.len() == FEED,
        scales.len() == 960,
        0 <= half < 2,
    ensures
        ({
            let w = weights.subrange(7680 * half, 7680 * half + 7680);
            let s = scales.subrange(480 * half, 480 * half + 480);
            let t = (m.full)(half_total(g, weights, scales, xs, half, 0));
            let u = (m.full)(half_total(g, weights, scales, xs, half, 1));
            let e = m.product(w, s, xs.subrange(7680 * half, 7680 * half + 7680));
            let z = m.spread(w, s, list_scales(g, xs, 0).subrange(8 * half, 8 * half + 8));
            &&& 10000real * size(t + u - e) <= 2670real * z
            &&& size(t) + size(u) <= 283real * z
            &&& 0real <= z
        }),
{
    let from = 7680 * half;
    let w = weights.subrange(from, from + 7680);
    let s = scales.subrange(480 * half, 480 * half + 480);
    let v = xs.subrange(from, from + 7680);
    let (x, y) = (
        list_parts(g, xs, 0).subrange(from, from + 7680),
        list_parts(g, xs, 1).subrange(from, from + 7680),
    );
    let (p, q) = (
        list_scales(g, xs, 0).subrange(8 * half, 8 * half + 8),
        list_scales(g, xs, 1).subrange(8 * half, 8 * half + 8),
    );
    assert forall|h: int| 0 <= h < v.len() implies well_split(
        (m.sixteen)(#[trigger] v[h]),
        (m.full)(p[h / 960]),
        (m.full)(q[h / 960]),
        (m.eight)(x[h]),
        (m.eight)(y[h]),
    ) by {
        let l = from + h;
        lemma_list_error(m, g, xs, l);
        assert(l / 960 == 8 * half + h / 960);
    }
    let t = half_total(g, weights, scales, xs, half, 0);
    let u = half_total(g, weights, scales, xs, half, 1);
    lemma_parts_error(m, g, w, s, v, x, y, p, q);
}

/// The exact product and the spread of a row are those of its halves together.
proof fn lemma_halves(
    m: Meaning,
    weights: Seq<u32>,
    scales: Seq<u32>,
    xs: Seq<u32>,
    x_scales: Seq<u32>,
)
    requires
        xs.len() == FEED,
        weights.len() == FEED,
        scales.len() == 960,
        x_scales.len() == 16,
    ensures
        m.product(weights, scales, xs) == m.product(
            weights.subrange(0, 7680),
            scales.subrange(0, 480),
            xs.subrange(0, 7680),
        ) + m.product(
            weights.subrange(7680, 15360),
            scales.subrange(480, 960),
            xs.subrange(7680, 15360),
        ),
        m.spread(weights, scales, x_scales) == m.spread(
            weights.subrange(0, 7680),
            scales.subrange(0, 480),
            x_scales.subrange(0, 8),
        ) + m.spread(
            weights.subrange(7680, 15360),
            scales.subrange(480, 960),
            x_scales.subrange(8, 16),
        ),
{
    let (w0, w1) = (weights.subrange(0, 7680), weights.subrange(7680, 15360));
    let (s0, s1) = (scales.subrange(0, 480), scales.subrange(480, 960));
    let (v0, v1) = (xs.subrange(0, 7680), xs.subrange(7680, 15360));
    let (p0, p1) = (x_scales.subrange(0, 8), x_scales.subrange(8, 16));
    let e = |h: int| m.weight(weights, scales, h) * (m.sixteen)(xs[h]);
    let e0 = |h: int| m.weight(w0, s0, h) * (m.sixteen)(v0[h]);
    let e1 = |h: int| m.weight(w1, s1, h) * (m.sixteen)(v1[h]);
    let z = |h: int| size(m.weight(weights, scales, h)) * (m.full)(x_scales[h / 960]);
    let z0 = |h: int| size(m.weight(w0, s0, h)) * (m.full)(p0[h / 960]);
    let z1 = |h: int| size(m.weight(w1, s1, h)) * (m.full)(p1[h / 960]);
    assert forall|h: int|
        #![trigger e0(h)]
        #![trigger z0(h)]
        0 <= h < 7680 implies e0(h) == e(h) && z0(h) == z(h) by {
        assert(w0[h] == weights[h] && s0[h / 16] == scales[h / 16]);
        assert(v0[h] == xs[h] && p0[h / 960] == x_scales[h / 960]);
    }
    assert forall|h: int|
        #![trigger e1(h)]
        #![trigger z1(h)]
        0 <= h < 7680 implies e1(h) == e(7680 + h) && z1(h) == z(7680 + h) by {
        let l = 7680 + h;
        assert(l / 16 == 480 + h / 16 && l / 960 == 8 + h / 960);
        assert(w1[h] == weights[l] && s1[h / 16] == scales[l / 16]);
        assert(v1[h] == xs[l] && p1[h / 960] == x_scales[l / 960]);
    }
    lemma_sum_stretches(7680, 7680, e, e1);
    lemma_sum_equal(7680, e0, e);
    lemma_sum_stretches(7680, 7680, z, z1);
    lemma_sum_equal(7680, z0, z);
}

/// The arithmetic of a row of the down projection: the totals `t` and `u` of both parts of two
/// halves, each part added up to `a` and `b`, these to `r`, and that rounded to `out`.
proof fn lemma_down_sum(
    t: real,
    u: real,
    e: real,
    z: real,
    t2: real,
    u2: real,
    e2: real,
    z2: real,
    a: real,
    b: real,
    r: real,
    out: real,
)
    requires
        10000real * size(t + u - e) <= 2670real * z,
        size(t) + size(u) <= 283real * z,
        0real <= z,
        10000real * size(t2 + u2 - e2) <= 2670real * z2,
        size(t2) + size(u2) <= 283real * z2,
        0real <= z2,
        10000000real * size(a - (t + t2)) <= 2real * (size(t) + size(t2)),
        10000000real * size(b - (u + u2)) <= 2real * (size(u) + size(u2)),
        10000000real * size(r - (a + b)) <= 2real * (size(a) + size(b)),
        512real * size(out - r) <= size(r),
    ensures
        1000000real * size(out - (e + e2)) <= 268000real * (z + z2) + 1954real * size(e + e2),
{
    let ee = e + e2;
    lemma_triangle(a - (t + t2), t, t2);
    lemma_triangle(b - (u + u2), u, u2);
    lemma_triangle(t + u - e, t2 + u2 - e2, 0real);
    lemma_triangle(a - (t + t2), b - (u + u2), (t + u - e) + (t2 + u2 - e2));
    lemma_triangle(r - (a + b), a + b - ee, 0real);
    lemma_triangle(r - ee, ee, 0real);
    lemma_triangle(out - r, r - ee, 0real);
    assert(a - (t + t2) + t + t2 == a && b - (u + u2) + u + u2 == b);
    assert((a - (t + t2)) + (b - (u + u2)) + ((t + u - e) + (t2 + u2 - e2)) == a + b - ee);
    assert((r - (a + b)) + (a + b - ee) + 0real == r - ee);
    assert((r - ee) + ee + 0real == r && (out - r) + (r - ee) + 0real == out - ee);
    assert((t + u - e) + (t2 + u2 - e2) + 0real == (t + u - e) + (t2 + u2 - e2));
    lemma_down_sizes(
        size(t),
        size(u),
        z,
        size(t2),
        size(u2),
        z2,
        size(t + u - e),
        size(t2 + u2 - e2),
        size((t + u - e) + (t2 + u2 - e2)),
        size(a - (t + t2)),
        size(b - (u + u2)),
        size(r - (a + b)),
        size(out - r),
        size(a),
        size(b),
        size(a + b - ee),
        size(r - ee),
        size(r),
        size(ee),
        size(out - ee),
    );
}

/// A sum is no larger than its terms together.
pub(crate) proof fn lemma_triangle(a: real, b: real, c: real)
    ensures
        size(a + b + c) <= size(a) + size(b) + size(c),
        size(0real) == 0real,
{
}

/// The errors of a row of the down projection, put together.
proof fn lemma_down_sizes(
    t: real,
    u: real,
    z: real,
    t2: real,
    u2: real,
    z2: real,
    d: real,
    d2: real,
    dd: real,
    da: real,
    db: real,
    dr: real,
    dout: real,
    a: real,
    b: real,
    ab: real,
    re: real,
    r: real,
    ee: real,
    oe: real,
)
    requires
        0real <= z,
        0real <= z2,
        0real <= ee,
        10000real * d <= 2670real * z,
        10000real * d2 <= 2670real * z2,
        t + u <= 283real * z,
        t2 + u2 <= 283real * z2,
        10000000real * da <= 2real * (t + t2),
        10000000real * db <= 2real * (u + u2),
        10000000real * dr <= 2real * (a + b),
        512real * dout <= r,
        a <= da + t + t2,
        b <= db + u + u2,
        dd <= d + d2,
        ab <= da + db + dd,
        re <= dr + ab,
        r <= re + ee,
        oe <= dout + re,
    ensures
        1000000real * oe <= 268000real * (z + z2) + 1954real * ee,
{
}

/// How near the down projection comes to the exact product: one rounding, and what the split
/// leaves.
pub(crate) proof fn lemma_down_error(
    m: Meaning,
    g: Arith,
    weights: Seq<u32>,
    scales: Seq<u32>,
    xs: Seq<u32>,
)
    requires
        m.rounds_well(g),
        calm_split(m.calm, g, xs),
        calm_down(m.calm, g, weights, scales, xs),
        xs.len() == FEED,
        weights.len() == FEED,
        scales.len() == 960,
    ensures
        1000000real * size(
            (m.sixteen)(down_feature(g, weights, scales, xs)) - m.product(weights, scales, xs),
        ) <= 268000real * m.spread(weights, scales, list_scales(g, xs, 0)) + 1954real * size(
            m.product(weights, scales, xs),
        ),
        0real <= m.spread(weights, scales, list_scales(g, xs, 0)),
{
    let totals = down_totals(g, weights, scales, xs);
    let high = half_totals(g, weights, scales, xs, 0);
    let low = half_totals(g, weights, scales, xs, 1);
    let r = fold(g, Op::TotalInSlice, totals);
    let out = one(g, Op::NarrowBf16, r);
    assert(down_feature(g, weights, scales, xs) == out) by {
        let parts = Seq::new(
            2,
            |part: int|
                fold(
                    g,
                    Op::TotalAcrossSlices,
                    Seq::new(2, |half: int| half_total(g, weights, scales, xs, half, part)),
                ),
        );
        assert(parts =~= totals);
    }
    lemma_half_error(m, g, weights, scales, xs, 0);
    lemma_half_error(m, g, weights, scales, xs, 1);
    lemma_halves(m, weights, scales, xs, list_scales(g, xs, 0));
    lemma_total_of_two(m, g, Op::TotalAcrossSlices, high);
    lemma_total_of_two(m, g, Op::TotalAcrossSlices, low);
    lemma_total_of_two(m, g, Op::TotalInSlice, totals);
    assert(512real * size((m.sixteen)(out) - (m.full)(r)) <= size((m.full)(r))) by {
        reveal(Meaning::rounds_near);
    }
    let (w0, w1) = (weights.subrange(0, 7680), weights.subrange(7680, 15360));
    let (s0, s1) = (scales.subrange(0, 480), scales.subrange(480, 960));
    let p = list_scales(g, xs, 0);
    lemma_down_sum(
        (m.full)(high[0]),
        (m.full)(low[0]),
        m.product(w0, s0, xs.subrange(0, 7680)),
        m.spread(w0, s0, p.subrange(0, 8)),
        (m.full)(high[1]),
        (m.full)(low[1]),
        m.product(w1, s1, xs.subrange(7680, 15360)),
        m.spread(w1, s1, p.subrange(8, 16)),
        (m.full)(totals[0]),
        (m.full)(totals[1]),
        (m.full)(r),
        (m.sixteen)(out),
    );
}

/// The down projection is near the exact product of the weights with the feed-forward features,
/// before these were split: off by at most 0.6 of the spread of the weights, and by 0.004 of the
/// product.
pub proof fn law_down_is_near_the_product(
    m: Meaning,
    g: Arith,
    weights: Seq<u32>,
    scales: Seq<u32>,
    xs: Seq<u32>,
)
    requires
        m.rounds_well(g),
        calm_split(m.calm, g, xs),
        calm_down(m.calm, g, weights, scales, xs),
        xs.len() == FEED,
        weights.len() == FEED,
        scales.len() == 960,
    ensures
        1000real * size(
            (m.sixteen)(down_feature(g, weights, scales, xs)) - m.product(weights, scales, xs),
        ) <= 600real * m.spread(weights, scales, list_scales(g, xs, 0)) + 4real * size(
            m.product(weights, scales, xs),
        ),
{
    lemma_down_error(m, g, weights, scales, xs);
}

/// The arithmetic of a contraction `c` for the products `e`, times a scale.
proof fn lemma_scaled_sum(c: real, e: real, a: real, sc: real, t: real)
    requires
        0real <= sc,
        size(e) <= a,
        10000000real * size(c - e) <= 1024real * a,
        10000000real * size(t - c * sc) <= size(c * sc),
    ensures
        10000000real * size(t - e * sc) <= 1030real * (a * sc),
{
    let d = c - e;
    let z = a * sc;
    assert(c * sc == e * sc + d * sc) by (nonlinear_arith)
        requires
            d == c - e,
    ;
    assert(10000000real * (d * sc) <= 1024real * z && 10000000real * (d * sc) >= -(1024real * z))
        by (nonlinear_arith)
        requires
            10000000real * d <= 1024real * a,
            10000000real * d >= -(1024real * a),
            0real <= sc,
            z == a * sc,
    ;
    assert(e * sc <= z && e * sc >= -z) by (nonlinear_arith)
        requires
            -a <= e <= a,
            0real <= sc,
            z == a * sc,
    ;
}

impl Meaning {
    /// The exact product of 8-bit weights and values.
    pub open spec fn plain_product(self, weights: Seq<u32>, xs: Seq<u32>) -> real {
        sum(xs.len() as int, |k: int| (self.eight)(weights[k]) * (self.sixteen)(xs[k]))
    }

    /// The sizes of 8-bit weights, each times a scale.
    pub open spec fn plain_spread(self, weights: Seq<u32>, scale: real) -> real {
        sum(weights.len() as int, |k: int| size((self.eight)(weights[k])) * scale)
    }
}

/// One part of a quarter of an output row is near the sum of what its values add.
proof fn lemma_part_error(
    m: Meaning,
    g: Arith,
    weights: Seq<u32>,
    parts: Seq<u32>,
    scale: u32,
)
    requires
        m.rounds_well(g),
        weights.len() == parts.len(),
        parts.len() <= 1024,
        (m.calm)(Op::ContractF8, weights, parts),
        calm_two(m.calm, Op::Multiply, g(Op::ContractF8, weights, parts), scale),
        0real <= (m.full)(scale),
    ensures
        ({
            let n = weights.len() as int;
            let sc = (m.full)(scale);
            let t = (m.full)(two(g, Op::Multiply, g(Op::ContractF8, weights, parts), scale));
            let e = sum(n, |k: int| (m.eight)(weights[k]) * (sc * (m.eight)(parts[k])));
            let z = sum(n, |k: int| size((m.eight)(weights[k])) * (sc * size((m.eight)(parts[k]))));
            10000000real * size(t - e) <= 1030real * z
        }),
{
    let n = weights.len() as int;
    let sc = (m.full)(scale);
    let cp = g(Op::ContractF8, weights, parts);
    let c = (m.full)(cp);
    let t = (m.full)(two(g, Op::Multiply, cp, scale));
    let prod = |k: int| (m.eight)(weights[k]) * (m.eight)(parts[k]);
    let prods = |k: int| size((m.eight)(weights[k]) * (m.eight)(parts[k]));
    let zero = |k: int| 0real * prods(k);
    let term = |k: int| (m.eight)(weights[k]) * (sc * (m.eight)(parts[k]));
    let bulk = |k: int| size((m.eight)(weights[k])) * (sc * size((m.eight)(parts[k])));
    let e = sum(n, prod);
    let a = sum(n, prods);
    assert forall|k: int|
        #![trigger prod(k)]
        #![trigger zero(k)]
        #![trigger term(k)]
        #![trigger bulk(k)]
        0 <= k < n implies {
        &&& zero(k) == 0real
        &&& 1real * size(prod(k) - zero(k)) <= prods(k)
        &&& zero(k) <= prods(k)
        &&& term(k) == sc * prod(k)
        &&& bulk(k) == sc * prods(k)
    } by {
        let (w, y, q) = ((m.eight)(weights[k]), (m.eight)(parts[k]), prods(k));
        assert(0real * q == 0real) by (nonlinear_arith);
        assert(w * (sc * y) == sc * (w * y)) by (nonlinear_arith);
        lemma_size_product(w, y);
        let (sw, sy) = (size(w), size(y));
        assert(sw * (sc * sy) == sc * (sw * sy)) by (nonlinear_arith);
    }
    lemma_sum_error(n, prod, zero, prods, 1real);
    lemma_sum_times(n, prods, zero, 0real);
    assert(0real * a == 0real) by (nonlinear_arith);
    lemma_sum_below(n, zero, prods);
    let r = weights.len() as real;
    assert(10000000real * size(c - e) <= r * a) by {
        reveal(Meaning::totals_near);
        lemma_sum_equal(n, prod, |k: int| (m.eight)(weights[k]) * (m.eight)(parts[k]));
        lemma_sum_equal(n, prods, |k: int| size((m.eight)(weights[k]) * (m.eight)(parts[k])));
    }
    assert(r * a <= 1024real * a) by (nonlinear_arith)
        requires
            r <= 1024real,
            0real <= a,
    ;
    assert(10000000real * size(t - c * sc) <= size(c * sc)) by {
        reveal(Meaning::computes_near);
    }
    lemma_scaled_sum(c, e, a, sc, t);
    lemma_sum_times(n, prod, term, sc);
    lemma_sum_times(n, prods, bulk, sc);
    assert(sc * e == e * sc && sc * a == a * sc) by (nonlinear_arith);
}

/// A quarter of an output row is near the exact product of that quarter.
proof fn lemma_quarter_error(m: Meaning, g: Arith, weights: Seq<u32>, xs: Seq<u32>)
    requires
        m.rounds_well(g),
        calm_group(m.calm, g, xs),
        calm_quarter(m.calm, g, weights, xs),
        weights.len() == 1024,
        xs.len() == 1024,
    ensures
        ({
            let q = (m.full)(quarter_total(g, weights, xs));
            let z = m.plain_spread(weights, (m.full)(group_scale(g, xs)));
            &&& 10000real * size(q - m.plain_product(weights, xs)) <= 2802real * z
            &&& size(q) <= 284real * z
            &&& 0real <= z
        }),
{
    let s = group_scale(g, xs);
    let (p, l) = (part_scale(g, s, 0), part_scale(g, s, 1));
    let x = Seq::new(xs.len(), |k: int| part_of(g, xs[k], s, 0));
    let y = Seq::new(xs.len(), |k: int| part_of(g, xs[k], s, 1));
    let (sc, low) = ((m.full)(p), (m.full)(l));
    lemma_group_error(m, g, xs, 0);
    let totals = quarter_totals(g, weights, xs);
    assert(totals[0] == part_total(g, weights, xs, 0));
    assert(totals[1] == part_total(g, weights, xs, 1));
    lemma_part_error(m, g, weights, x, p);
    lemma_part_error(m, g, weights, y, l);
    let exact = |k: int| (m.eight)(weights[k]) * (m.sixteen)(xs[k]);
    let spread = |k: int| size((m.eight)(weights[k])) * sc;
    let term_high = |k: int| (m.eight)(weights[k]) * (sc * (m.eight)(x[k]));
    let term_low = |k: int| (m.eight)(weights[k]) * (low * (m.eight)(y[k]));
    let bulk_high = |k: int| size((m.eight)(weights[k])) * (sc * size((m.eight)(x[k])));
    let bulk_low = |k: int| size((m.eight)(weights[k])) * (low * size((m.eight)(y[k])));
    let both = |k: int| term_high(k) + term_low(k);
    let zero = |k: int| 0real * spread(k);
    let spread_2510 = |k: int| 2510real * spread(k);
    let spread_256 = |k: int| 256real * spread(k);
    let spread_10 = |k: int| 10real * spread(k);
    assert forall|k: int|
        #![trigger both(k)]
        #![trigger bulk_high(k)]
        #![trigger bulk_low(k)]
        #![trigger term_high(k)]
        #![trigger term_low(k)]
        #![trigger zero(k)]
        0 <= k < 1024 implies {
        &&& 10000real * size(both(k) - exact(k)) <= spread_2510(k)
        &&& bulk_high(k) <= spread_256(k)
        &&& bulk_low(k) <= spread_10(k)
        &&& 1real * size(term_high(k) - zero(k)) <= bulk_high(k)
        &&& 1real * size(term_low(k) - zero(k)) <= bulk_low(k)
        &&& zero(k) <= spread(k)
    } by {
        lemma_group_error(m, g, xs, k);
        lemma_term_sum(
            (m.eight)(weights[k]),
            (m.sixteen)(xs[k]),
            sc,
            low,
            (m.eight)(x[k]),
            (m.eight)(y[k]),
        );
        let v = spread(k);
        assert(0real * v == 0real) by (nonlinear_arith);
    }
    let z = sum(1024, spread);
    lemma_sum_error(1024, both, exact, spread_2510, 10000real);
    lemma_sum_times(1024, spread, spread_2510, 2510real);
    lemma_sum_plus(1024, term_high, term_low, both);
    lemma_sum_below(1024, bulk_high, spread_256);
    lemma_sum_times(1024, spread, spread_256, 256real);
    lemma_sum_below(1024, bulk_low, spread_10);
    lemma_sum_times(1024, spread, spread_10, 10real);
    lemma_sum_error(1024, term_high, zero, bulk_high, 1real);
    lemma_sum_error(1024, term_low, zero, bulk_low, 1real);
    lemma_sum_times(1024, spread, zero, 0real);
    lemma_sum_below(1024, zero, spread);
    assert(0real * z == 0real) by (nonlinear_arith);
    lemma_total_of_two(m, g, Op::TotalInSlice, totals);
    lemma_quarter_sum(
        (m.full)(totals[0]),
        (m.full)(totals[1]),
        sum(1024, term_high),
        sum(1024, term_low),
        sum(1024, bulk_high),
        sum(1024, bulk_low),
        sum(1024, exact),
        z,
        (m.full)(fold(g, Op::TotalInSlice, totals)),
    );
}

/// The arithmetic of a quarter: the totals `t` and `u` of its parts, for the sums `a` and `b`.
proof fn lemma_quarter_sum(
    t: real,
    u: real,
    a: real,
    b: real,
    p: real,
    r: real,
    e: real,
    z: real,
    q: real,
)
    requires
        0real <= z,
        10000000real * size(t - a) <= 1030real * p,
        10000000real * size(u - b) <= 1030real * r,
        size(a) <= p,
        size(b) <= r,
        p <= 256real * z,
        r <= 10real * z,
        10000real * size(a + b - e) <= 2510real * z,
        10000000real * size(q - (t + u)) <= 2real * (size(t) + size(u)),
    ensures
        10000real * size(q - e) <= 2802real * z,
        size(q) <= 284real * z,
{
    lemma_triangle(t - a, a, 0real);
    lemma_triangle(u - b, b, 0real);
    lemma_triangle(t - a, u - b, 0real);
    lemma_triangle(q - (t + u), (t - a) + (u - b), a + b - e);
    lemma_triangle(q - (t + u), t, u);
    assert((q - (t + u)) + ((t - a) + (u - b)) + (a + b - e) == q - e);
    assert((q - (t + u)) + t + u == q && (t - a) + a + 0real == t && (u - b) + b + 0real == u);
    assert((t - a) + (u - b) + 0real == (t - a) + (u - b));
    lemma_quarter_sizes(
        z,
        p,
        r,
        size(t - a),
        size(u - b),
        size((t - a) + (u - b)),
        size(a + b - e),
        size(t),
        size(u),
        size(q - (t + u)),
        size(q - e),
        size(q),
    );
}

/// The errors of a quarter, put together.
proof fn lemma_quarter_sizes(
    z: real,
    p: real,
    r: real,
    dt: real,
    du: real,
    dtu: real,
    de: real,
    t: real,
    u: real,
    dq: real,
    qe: real,
    q: real,
)
    requires
        0real <= z,
        10000000real * dt <= 1030real * p,
        10000000real * du <= 1030real * r,
        p <= 256real * z,
        r <= 10real * z,
        10000real * de <= 2510real * z,
        t <= dt + p,
        u <= du + r,
        dtu <= dt + du,
        10000000real * dq <= 2real * (t + u),
        qe <= dq + dtu + de,
        q <= dq + t + u,
    ensures
        10000real * qe <= 2802real * z,
        q <= 284real * z,
{
}

/// The arithmetic of an output row: the sum `r` of the quarters rounded to `v`, times a scale `s`,
/// and that rounded to `out`.
proof fn lemma_output_sum(e: real, z: real, r: real, v: real, s: real, p: real, out: real)
    requires
        0real <= z,
        10000real * size(r - e) <= 2804real * z,
        512real * size(v - r) <= size(r),
        10000000real * size(p - v * s) <= size(v * s),
        512real * size(out - p) <= size(p),
    ensures
        1000real * size(out - e * s) <= size(s) * (350real * z + 4real * size(e)),
{
    let d = v - e;
    lemma_triangle(v - r, r - e, 0real);
    lemma_triangle(r - e, e, 0real);
    lemma_triangle(v - e, e, 0real);
    let k = size(s);
    let (x, y) = (k * z, k * size(e));
    assert(v * s == e * s + d * s) by (nonlinear_arith)
        requires
            d == v - e,
    ;
    lemma_size_product(d, s);
    lemma_size_product(e, s);
    assert(size(d) * k <= k * (2810real * z / 10000real + size(e) / 512real)) by (nonlinear_arith)
        requires
            size(d) <= 2810real * z / 10000real + size(e) / 512real,
            0real <= k,
    ;
    assert(k * (2810real * z / 10000real + size(e) / 512real) == 2810real * x / 10000real + y
        / 512real) by (nonlinear_arith)
        requires
            x == k * z,
            y == k * size(e),
    ;
    assert(size(e) * k == y) by (nonlinear_arith)
        requires
            y == k * size(e),
    ;
    assert(k * (350real * z + 4real * size(e)) == 350real * x + 4real * y) by (nonlinear_arith)
        requires
            x == k * z,
            y == k * size(e),
    ;
    assert(0real <= x && 0real <= y) by (nonlinear_arith)
        requires
            0real <= k,
            0real <= z,
            0real <= size(e),
            x == k * z,
            y == k * size(e),
    ;
    lemma_triangle(e * s, d * s, 0real);
    lemma_triangle(p - v * s, v * s, 0real);
    lemma_triangle(out - p, p - v * s, d * s);
    lemma_output_sizes(
        x,
        y,
        size(d * s),
        size(v * s),
        size(p - v * s),
        size(p),
        size(out - p),
        size(out - e * s),
    );
}

/// The errors of an output row, put together.
proof fn lemma_output_sizes(
    x: real,
    y: real,
    d: real,
    v: real,
    dp: real,
    p: real,
    dout: real,
    oe: real,
)
    requires
        0real <= x,
        0real <= y,
        d <= 2810real * x / 10000real + y / 512real,
        v <= y + d,
        10000000real * dp <= v,
        p <= dp + v,
        512real * dout <= p,
        oe <= dout + dp + d,
    ensures
        1000real * oe <= 350real * x + 4real * y,
{
}

/// The total of the four quarters of an output row is near the exact product.
pub(crate) proof fn lemma_quarters_error(m: Meaning, g: Arith, x: Tensor, weight: Tensor, h: int)
    requires
        m.rounds_well(g),
        forall|quarter: int|
            #![trigger quarter_input(x, h, quarter)]
            0 <= quarter < 4 ==> calm_group(m.calm, g, quarter_input(x, h, quarter)),
        forall|quarter: int|
            #![trigger quarter_input(x, h, quarter)]
            0 <= quarter < 4 ==> calm_quarter(
                m.calm,
                g,
                quarter_weights(weight, h, quarter),
                quarter_input(x, h, quarter),
            ),
        calm_list(m.calm, Op::TotalAcrossSlices, row_totals(g, x, weight, h)),
    ensures
        ({
            let e = sum(
                4,
                |quarter: int|
                    m.plain_product(
                        quarter_weights(weight, h, quarter),
                        quarter_input(x, h, quarter),
                    ),
            );
            let z = sum(
                4,
                |quarter: int|
                    m.plain_spread(
                        quarter_weights(weight, h, quarter),
                        (m.full)(group_scale(g, quarter_input(x, h, quarter))),
                    ),
            );
            let r = (m.full)(fold(g, Op::TotalAcrossSlices, row_totals(g, x, weight, h)));
            &&& 10000real * size(r - e) <= 2804real * z
            &&& 0real <= z
        }),
{
    let totals = row_totals(g, x, weight, h);
    let value = |i: int| (m.full)(totals[i]);
    let values = |i: int| size((m.full)(totals[i]));
    let exact = |i: int|
        m.plain_product(quarter_weights(weight, h, i), quarter_input(x, h, i));
    let spread = |i: int|
        m.plain_spread(
            quarter_weights(weight, h, i),
            (m.full)(group_scale(g, quarter_input(x, h, i))),
        );
    let spread_2802 = |i: int| 2802real * spread(i);
    let spread_284 = |i: int| 284real * spread(i);
    let zero = |i: int| 0real * spread(i);
    assert forall|i: int|
        #![trigger value(i)]
        #![trigger values(i)]
        #![trigger zero(i)]
        0 <= i < 4 implies {
        &&& 10000real * size(value(i) - exact(i)) <= spread_2802(i)
        &&& values(i) <= spread_284(i)
        &&& zero(i) <= spread(i)
    } by {
        lemma_quarter_error(m, g, quarter_weights(weight, h, i), quarter_input(x, h, i));
        let v = spread(i);
        assert(0real * v == 0real) by (nonlinear_arith);
    }
    let (e, z) = (sum(4, exact), sum(4, spread));
    lemma_sum_error(4, value, exact, spread_2802, 10000real);
    lemma_sum_times(4, spread, spread_2802, 2802real);
    lemma_sum_below(4, values, spread_284);
    lemma_sum_times(4, spread, spread_284, 284real);
    lemma_sum_below(4, zero, spread);
    lemma_sum_times(4, spread, zero, 0real);
    assert(0real * z == 0real) by (nonlinear_arith);
    let rp = fold(g, Op::TotalAcrossSlices, totals);
    let r = (m.full)(rp);
    assert(10000000real * size(r - sum(4, value)) <= 4real * sum(4, values)) by {
        reveal(Meaning::totals_near);
        lemma_sum_equal(4, value, |k: int| (m.full)(totals[k]));
        lemma_sum_equal(4, values, |k: int| size((m.full)(totals[k])));
        assert(totals.len() as real == 4real);
    }
    lemma_triangle(r - sum(4, value), sum(4, value) - e, 0real);
}

/// The output projection by quarters is near the exact product of the weights with the query
/// features, before these were split, times the scale of the row: off by at most 0.35 of the
/// spread of the weights, and by 0.004 of the product, both times that scale.
pub proof fn law_sharded_output_is_near_the_product(
    m: Meaning,
    g: Arith,
    x: Tensor,
    weight: Tensor,
    weight_scale: Tensor,
    h: int,
)
    requires
        m.rounds_well(g),
        forall|quarter: int|
            #![trigger quarter_input(x, h, quarter)]
            0 <= quarter < 4 ==> calm_group(m.calm, g, quarter_input(x, h, quarter)),
        calm_output(m.calm, g, x, weight, weight_scale, h),
    ensures
        ({
            let e = sum(
                4,
                |quarter: int|
                    m.plain_product(
                        quarter_weights(weight, h, quarter),
                        quarter_input(x, h, quarter),
                    ),
            );
            let z = sum(
                4,
                |quarter: int|
                    m.plain_spread(
                        quarter_weights(weight, h, quarter),
                        (m.full)(group_scale(g, quarter_input(x, h, quarter))),
                    ),
            );
            let s = (m.sixteen)(weight_scale.at(at_h(h)));
            1000real * size(
                (m.sixteen)(sharded_value(g, x, weight, weight_scale, h)) - e * s,
            ) <= size(s) * (350real * z + 4real * size(e))
        }),
{
    let totals = row_totals(g, x, weight, h);
    let exact = |i: int|
        m.plain_product(quarter_weights(weight, h, i), quarter_input(x, h, i));
    let spread = |i: int|
        m.plain_spread(
            quarter_weights(weight, h, i),
            (m.full)(group_scale(g, quarter_input(x, h, i))),
        );
    let (e, z) = (sum(4, exact), sum(4, spread));
    lemma_quarters_error(m, g, x, weight, h);
    let rp = fold(g, Op::TotalAcrossSlices, totals);
    let r = (m.full)(rp);
    let vp = one(g, Op::NarrowBf16, rp);
    let wp = one(g, Op::WidenBf16, vp);
    let sp = one(g, Op::WidenBf16, weight_scale.at(at_h(h)));
    let pp = two(g, Op::Multiply, wp, sp);
    let op = one(g, Op::NarrowBf16, pp);
    assert(sharded_value(g, x, weight, weight_scale, h) == op);
    assert((m.full)(wp) == (m.sixteen)(vp) && (m.full)(sp) == (m.sixteen)(
        weight_scale.at(at_h(h)),
    )) by {
        reveal(Meaning::exact);
    }
    assert(512real * size((m.sixteen)(vp) - r) <= size(r)) by {
        reveal(Meaning::rounds_near);
    }
    assert(10000000real * size((m.full)(pp) - (m.full)(wp) * (m.full)(sp)) <= size(
        (m.full)(wp) * (m.full)(sp),
    )) by {
        reveal(Meaning::computes_near);
    }
    assert(512real * size((m.sixteen)(op) - (m.full)(pp)) <= size((m.full)(pp))) by {
        reveal(Meaning::rounds_near);
    }
    lemma_output_sum(
        e,
        z,
        r,
        (m.sixteen)(vp),
        (m.full)(sp),
        (m.full)(pp),
        (m.sixteen)(op),
    );
}

} // verus!
