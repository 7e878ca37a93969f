//! What signs do to the kernels, where the arithmetic unit is odd: where flipping the sign of an
//! operand flips the sign of the answer.
use crate::activation::{double_gelu, gated, rescaled, F32_TWO};
use crate::blocks::{block, blocks_total, decoded_f4};
use crate::engine::{fold, one, two, Arith, Op};
use crate::layout::at_hl;
use crate::mlp::{
    block_feature, down_feature, gated_features, half_total, up_feature, up_scales, up_weights,
};
use crate::places::{FEED, HIDDEN};
use crate::quantize::{
    high_part, law_scale_ignores_signs, list_parts, list_scale, list_scales, magnitude, normal,
    part_of, F32_16,
};
use crate::tensor::{Format, Tensor};
use vstd::prelude::*;

verus! {

/// The sign bit of a format.
pub open spec fn sign_bit(format: Format) -> u32 {
    match format {
        Format::F4 => 0x8,
        Format::F8 => 0x80,
        Format::Bf16 => 0x8000,
        Format::F32 => 0x8000_0000,
    }
}

/// The pattern stands for zero, of either sign.
pub open spec fn is_zero(format: Format, a: u32) -> bool {
    a == 0 || a == sign_bit(format)
}

/// The pattern stands for no number.
pub open spec fn is_nan(format: Format, a: u32) -> bool {
    match format {
        Format::F4 => false,
        Format::F8 => a & 0x7f == 0x7f,
        Format::Bf16 => a & 0x7fff > 0x7f80,
        Format::F32 => a & 0x7fff_ffff > 0x7f80_0000,
    }
}

/// The patterns stand for opposite numbers, or both for none.
pub open spec fn opposite(format: Format, a: u32, b: u32) -> bool {
    ||| b == a ^ sign_bit(format)
    ||| is_zero(format, a) && is_zero(format, b)
    ||| is_nan(format, a) && is_nan(format, b)
}

/// The lists are opposite, value by value.
pub open spec fn opposite_lists(format: Format, a: Seq<u32>, b: Seq<u32>) -> bool {
    &&& a.len() == b.len()
    &&& forall|k: int| 0 <= k < a.len() ==> opposite(format, #[trigger] a[k], b[k])
}

/// The answers to a request on one value are opposite for opposite values.
#[verifier::opaque]
pub open spec fn odd_one(g: Arith, op: Op, from: Format, to: Format) -> bool {
    forall|a: u32, b: u32| #[trigger]
        opposite(from, a, b) ==> opposite(to, one(g, op, a), one(g, op, b))
}

/// The answers to a request on two values are opposite where the first values are.
#[verifier::opaque]
pub open spec fn odd_first(g: Arith, op: Op) -> bool {
    forall|a: u32, b: u32, c: u32|
        #![trigger opposite(Format::F32, a, b), two(g, op, a, c)]
        opposite(Format::F32, a, b) ==> opposite(
            Format::F32,
            two(g, op, a, c),
            two(g, op, b, c),
        )
}

/// The answers to a request on two values are opposite where the second values are.
#[verifier::opaque]
pub open spec fn odd_second(g: Arith, op: Op) -> bool {
    forall|a: u32, b: u32, c: u32|
        #![trigger opposite(Format::F32, a, b), two(g, op, c, a)]
        opposite(Format::F32, a, b) ==> opposite(
            Format::F32,
            two(g, op, c, a),
            two(g, op, c, b),
        )
}

/// The answers to a request on two values are opposite where both values are.
#[verifier::opaque]
pub open spec fn odd_both(g: Arith, op: Op) -> bool {
    forall|a: u32, b: u32, c: u32, d: u32|
        #![trigger opposite(Format::F32, a, b), opposite(Format::F32, c, d)]
        opposite(Format::F32, a, b) && opposite(Format::F32, c, d) ==> opposite(
            Format::F32,
            two(g, op, a, c),
            two(g, op, b, d),
        )
}

/// The answers to a reduction are opposite for opposite lists.
#[verifier::opaque]
pub open spec fn odd_fold(g: Arith, op: Op) -> bool {
    forall|a: Seq<u32>, b: Seq<u32>| #[trigger]
        opposite_lists(Format::F32, a, b) ==> opposite(
            Format::F32,
            fold(g, op, a),
            fold(g, op, b),
        )
}

/// The answers to a contraction are opposite where one list is replaced by the opposite one.
#[verifier::opaque]
pub open spec fn odd_contract(g: Arith) -> bool {
    forall|a: Seq<u32>, b: Seq<u32>, c: Seq<u32>|
        #![trigger opposite_lists(Format::F8, a, b), g(Op::ContractF8, a, c)]
        #![trigger opposite_lists(Format::F8, a, b), g(Op::ContractF8, c, a)]
        opposite_lists(Format::F8, a, b) ==> {
            &&& opposite(Format::F32, g(Op::ContractF8, a, c), g(Op::ContractF8, b, c))
            &&& opposite(Format::F32, g(Op::ContractF8, c, a), g(Op::ContractF8, c, b))
        }
}

/// Widening keeps numbers numbers.
#[verifier::opaque]
pub open spec fn keeps_numbers(g: Arith) -> bool {
    forall|a: u32|
        !is_nan(Format::Bf16, a) ==> !is_nan(Format::F32, #[trigger] one(g, Op::WidenBf16, a))
}

/// Flipping the sign of an operand flips the sign of the answer, and widening keeps numbers
/// numbers.
pub open spec fn odd(g: Arith) -> bool {
    &&& odd_one(g, Op::LookupF4AsF8, Format::F4, Format::F8)
    &&& odd_one(g, Op::WidenF8, Format::F8, Format::F32)
    &&& odd_one(g, Op::WidenBf16, Format::Bf16, Format::F32)
    &&& odd_one(g, Op::NarrowBf16, Format::F32, Format::Bf16)
    &&& odd_one(g, Op::NarrowF8, Format::F32, Format::F8)
    &&& odd_first(g, Op::Multiply)
    &&& odd_first(g, Op::Divide)
    &&& odd_second(g, Op::Multiply)
    &&& odd_both(g, Op::Subtract)
    &&& odd_fold(g, Op::TotalInSlice)
    &&& odd_fold(g, Op::TotalAcrossSlices)
    &&& odd_contract(g)
    &&& keeps_numbers(g)
}

proof fn lemma_one(g: Arith, op: Op, from: Format, to: Format, a: u32, b: u32)
    requires
        odd_one(g, op, from, to),
        opposite(from, a, b),
    ensures
        opposite(to, one(g, op, a), one(g, op, b)),
{
    reveal(odd_one);
}

proof fn lemma_first(g: Arith, op: Op, a: u32, b: u32, c: u32)
    requires
        odd_first(g, op),
        opposite(Format::F32, a, b),
    ensures
        opposite(Format::F32, two(g, op, a, c), two(g, op, b, c)),
{
    reveal(odd_first);
}

proof fn lemma_second(g: Arith, op: Op, a: u32, b: u32, c: u32)
    requires
        odd_second(g, op),
        opposite(Format::F32, a, b),
    ensures
        opposite(Format::F32, two(g, op, c, a), two(g, op, c, b)),
{
    reveal(odd_second);
}

proof fn lemma_both(g: Arith, op: Op, a: u32, b: u32, c: u32, d: u32)
    requires
        odd_both(g, op),
        opposite(Format::F32, a, b),
        opposite(Format::F32, c, d),
    ensures
        opposite(Format::F32, two(g, op, a, c), two(g, op, b, d)),
{
    reveal(odd_both);
}

proof fn lemma_total(g: Arith, op: Op, a: Seq<u32>, b: Seq<u32>)
    requires
        odd_fold(g, op),
        opposite_lists(Format::F32, a, b),
    ensures
        opposite(Format::F32, fold(g, op, a), fold(g, op, b)),
{
    reveal(odd_fold);
}

proof fn lemma_contract(g: Arith, a: Seq<u32>, b: Seq<u32>, c: Seq<u32>)
    requires
        odd_contract(g),
        opposite_lists(Format::F8, a, b),
    ensures
        opposite(Format::F32, g(Op::ContractF8, a, c), g(Op::ContractF8, b, c)),
        opposite(Format::F32, g(Op::ContractF8, c, a), g(Op::ContractF8, c, b)),
{
    reveal(odd_contract);
}

/// Opposite numbers have the same magnitude.
proof fn lemma_same_magnitude(g: Arith, x: u32, y: u32)
    requires
        odd(g),
        !is_nan(Format::Bf16, x),
        opposite(Format::Bf16, x, y),
    ensures
        magnitude(g, x) == magnitude(g, y),
{
    let a = one(g, Op::WidenBf16, x);
    let b = one(g, Op::WidenBf16, y);
    lemma_one(g, Op::WidenBf16, Format::Bf16, Format::F32, x, y);
    assert(!is_nan(Format::F32, a)) by {
        reveal(keeps_numbers);
    }
    assert(b == a ^ 0x8000_0000 ==> a & 0x7fff_ffff == b & 0x7fff_ffff) by (bit_vector);
    assert((a == 0 || a == 0x8000_0000) && (b == 0 || b == 0x8000_0000) ==> a & 0x7fff_ffff == b
        & 0x7fff_ffff) by (bit_vector);
}

/// Opposite values have opposite parts under the same scale.
proof fn lemma_opposite_parts(g: Arith, x: u32, y: u32, s: u32, part: int)
    requires
        odd(g),
        opposite(Format::Bf16, x, y),
    ensures
        opposite(Format::F8, part_of(g, x, s, part), part_of(g, y, s, part)),
{
    let a = one(g, Op::WidenBf16, x);
    let b = one(g, Op::WidenBf16, y);
    lemma_one(g, Op::WidenBf16, Format::Bf16, Format::F32, x, y);
    let (m, n) = (normal(g, x, s), normal(g, y, s));
    lemma_first(g, Op::Divide, a, b, s);
    let (hm, hn) = (high_part(g, x, s), high_part(g, y, s));
    lemma_one(g, Op::NarrowF8, Format::F32, Format::F8, m, n);
    let (wm, wn) = (one(g, Op::WidenF8, hm), one(g, Op::WidenF8, hn));
    lemma_one(g, Op::WidenF8, Format::F8, Format::F32, hm, hn);
    let (lm, ln) = (two(g, Op::Subtract, m, wm), two(g, Op::Subtract, n, wn));
    lemma_both(g, Op::Subtract, m, n, wm, wn);
    lemma_first(g, Op::Multiply, lm, ln, F32_16);
    lemma_one(
        g,
        Op::NarrowF8,
        Format::F32,
        Format::F8,
        two(g, Op::Multiply, lm, F32_16),
        two(g, Op::Multiply, ln, F32_16),
    );
}

/// Flipping the signs of some values leaves all scales as they are and flips the parts of those
/// values alone.
pub proof fn law_signs_pass_to_parts(g: Arith, xs: Seq<u32>, ys: Seq<u32>, part: int)
    requires
        odd(g),
        xs.len() == ys.len(),
        xs.len() % 960 == 0,
        forall|k: int| 0 <= k < xs.len() ==> !is_nan(Format::Bf16, #[trigger] xs[k]),
        forall|k: int|
            0 <= k < xs.len() ==> ys[k] == #[trigger] xs[k] || opposite(Format::Bf16, xs[k], ys[k]),
    ensures
        list_scales(g, xs, part) == list_scales(g, ys, part),
        forall|k: int|
            0 <= k < xs.len() ==> {
                &&& ys[k] == xs[k] ==> #[trigger] list_parts(g, ys, part)[k] == list_parts(
                    g,
                    xs,
                    part,
                )[k]
                &&& opposite(Format::Bf16, xs[k], ys[k]) ==> opposite(
                    Format::F8,
                    list_parts(g, xs, part)[k],
                    list_parts(g, ys, part)[k],
                )
            },
{
    assert forall|i: int| 0 <= i < xs.len() / 960 implies #[trigger] list_scale(g, xs, i)
        == list_scale(g, ys, i) by {
        let a = xs.subrange(960 * i, 960 * i + 960);
        let b = ys.subrange(960 * i, 960 * i + 960);
        assert forall|k: int| 0 <= k < 960 implies magnitude(g, #[trigger] a[k]) == magnitude(
            g,
            b[k],
        ) by {
            let j = 960 * i + k;
            assert(a[k] == xs[j] && b[k] == ys[j]);
            if ys[j] != xs[j] {
                lemma_same_magnitude(g, xs[j], ys[j]);
            }
        }
        law_scale_ignores_signs(g, a, b);
    }
    assert(list_scales(g, xs, part) =~= list_scales(g, ys, part));
    assert forall|k: int| 0 <= k < xs.len() implies {
        &&& ys[k] == xs[k] ==> #[trigger] list_parts(g, ys, part)[k] == list_parts(g, xs, part)[k]
        &&& opposite(Format::Bf16, xs[k], ys[k]) ==> opposite(
            Format::F8,
            list_parts(g, xs, part)[k],
            list_parts(g, ys, part)[k],
        )
    } by {
        let s = list_scale(g, xs, k / 960);
        assert(list_scale(g, ys, k / 960) == s);
        if opposite(Format::Bf16, xs[k], ys[k]) {
            lemma_opposite_parts(g, xs[k], ys[k], s, part);
        }
    }
}

/// Opposite weights are looked up as opposite weights.
proof fn lemma_decoded(g: Arith, w: Seq<u32>, v: Seq<u32>)
    requires
        odd(g),
        opposite_lists(Format::F4, w, v),
    ensures
        opposite_lists(Format::F8, decoded_f4(g, w), decoded_f4(g, v)),
{
    assert forall|k: int| 0 <= k < w.len() implies opposite(
        Format::F8,
        #[trigger] decoded_f4(g, w)[k],
        decoded_f4(g, v)[k],
    ) by {
        lemma_one(g, Op::LookupF4AsF8, Format::F4, Format::F8, w[k], v[k]);
    }
}

/// A row gives the opposite where either its weights or the values are replaced by the opposite
/// ones.
proof fn lemma_blocks(
    g: Arith,
    w: Seq<u32>,
    v: Seq<u32>,
    scales: Seq<u32>,
    x: Seq<u32>,
    y: Seq<u32>,
    x_scales: Seq<u32>,
)
    requires
        odd(g),
        16 * scales.len() <= w.len(),
        16 * scales.len() <= x.len(),
        opposite_lists(Format::F8, w, v) && x == y || w == v && opposite_lists(Format::F8, x, y),
    ensures
        opposite(
            Format::F32,
            blocks_total(g, w, scales, x, x_scales),
            blocks_total(g, v, scales, y, x_scales),
        ),
{
    let p = Seq::new(scales.len(), |b: int| block(g, w, scales, x, x_scales, b));
    let q = Seq::new(scales.len(), |b: int| block(g, v, scales, y, x_scales, b));
    assert forall|b: int| 0 <= b < scales.len() implies opposite(
        Format::F32,
        #[trigger] p[b],
        q[b],
    ) by {
        let wb = Seq::new(16, |k: int| w[16 * b + k]);
        let vb = Seq::new(16, |k: int| v[16 * b + k]);
        let xb = Seq::new(16, |k: int| x[16 * b + k]);
        let yb = Seq::new(16, |k: int| y[16 * b + k]);
        let s = one(g, Op::WidenF8, scales[b]);
        if opposite_lists(Format::F8, w, v) && x == y {
            assert forall|k: int| 0 <= k < 16 implies opposite(
                Format::F8,
                #[trigger] wb[k],
                vb[k],
            ) by {
                assert(opposite(Format::F8, w[16 * b + k], v[16 * b + k]));
            }
            lemma_contract(g, wb, vb, xb);
        } else {
            assert forall|k: int| 0 <= k < 16 implies opposite(
                Format::F8,
                #[trigger] xb[k],
                yb[k],
            ) by {
                assert(opposite(Format::F8, x[16 * b + k], y[16 * b + k]));
            }
            lemma_contract(g, xb, yb, wb);
        }
        let c = g(Op::ContractF8, wb, xb);
        let d = g(Op::ContractF8, vb, yb);
        lemma_first(g, Op::Multiply, c, d, s);
        lemma_first(
            g,
            Op::Multiply,
            two(g, Op::Multiply, c, s),
            two(g, Op::Multiply, d, s),
            x_scales[b / 60],
        );
    }
    lemma_total(g, Op::TotalInSlice, p, q);
}

/// An up projection with opposite weights gives the opposite.
proof fn lemma_up_opposite(g: Arith, w: Seq<u32>, v: Seq<u32>, scales: Seq<u32>, xs: Seq<u32>)
    requires
        odd(g),
        opposite_lists(Format::F4, w, v),
        w.len() == HIDDEN,
        scales.len() == 240,
        xs.len() == HIDDEN,
    ensures
        opposite(Format::Bf16, up_feature(g, w, scales, xs), up_feature(g, v, scales, xs)),
{
    let p = Seq::new(
        2,
        |part: int|
            blocks_total(
                g,
                decoded_f4(g, w),
                scales,
                list_parts(g, xs, part),
                list_scales(g, xs, part),
            ),
    );
    let q = Seq::new(
        2,
        |part: int|
            blocks_total(
                g,
                decoded_f4(g, v),
                scales,
                list_parts(g, xs, part),
                list_scales(g, xs, part),
            ),
    );
    lemma_decoded(g, w, v);
    assert forall|part: int| 0 <= part < 2 implies opposite(
        Format::F32,
        #[trigger] p[part],
        q[part],
    ) by {
        lemma_blocks(
            g,
            decoded_f4(g, w),
            decoded_f4(g, v),
            scales,
            list_parts(g, xs, part),
            list_parts(g, xs, part),
            list_scales(g, xs, part),
        );
    }
    lemma_total(g, Op::TotalInSlice, p, q);
    lemma_one(
        g,
        Op::NarrowBf16,
        Format::F32,
        Format::Bf16,
        fold(g, Op::TotalInSlice, p),
        fold(g, Op::TotalInSlice, q),
    );
}

/// Rescaling the opposite value, or by the opposite scale, gives the opposite.
proof fn lemma_rescaled(g: Arith, x: u32, y: u32, s: u32, t: u32)
    requires
        odd(g),
        opposite(Format::Bf16, x, y) && s == t || x == y && opposite(Format::F32, s, t),
    ensures
        opposite(Format::Bf16, rescaled(g, x, s), rescaled(g, y, t)),
{
    let a = one(g, Op::WidenBf16, x);
    let b = one(g, Op::WidenBf16, y);
    if opposite(Format::Bf16, x, y) && s == t {
        lemma_one(g, Op::WidenBf16, Format::Bf16, Format::F32, x, y);
        lemma_first(g, Op::Multiply, a, b, s);
    } else {
        lemma_second(g, Op::Multiply, s, t, a);
    }
    lemma_one(
        g,
        Op::NarrowBf16,
        Format::F32,
        Format::Bf16,
        two(g, Op::Multiply, a, s),
        two(g, Op::Multiply, b, t),
    );
}

/// The gated value is opposite where the up projection is.
proof fn lemma_gated(g: Arith, u: u32, v: u32, gate: u32, us: u32, gs: u32)
    requires
        odd(g),
        opposite(Format::Bf16, u, v),
    ensures
        opposite(Format::Bf16, gated(g, u, gate, us, gs), gated(g, v, gate, us, gs)),
{
    let (x, y) = (rescaled(g, u, us), rescaled(g, v, us));
    let e = double_gelu(g, rescaled(g, gate, gs));
    let a = one(g, Op::WidenBf16, x);
    let b = one(g, Op::WidenBf16, y);
    lemma_rescaled(g, u, v, us, us);
    lemma_one(g, Op::WidenBf16, Format::Bf16, Format::F32, x, y);
    lemma_first(g, Op::Multiply, a, b, e);
    let (p, q) = (two(g, Op::Multiply, a, e), two(g, Op::Multiply, b, e));
    lemma_first(g, Op::Divide, p, q, F32_TWO);
    lemma_one(
        g,
        Op::NarrowBf16,
        Format::F32,
        Format::Bf16,
        two(g, Op::Divide, p, F32_TWO),
        two(g, Op::Divide, q, F32_TWO),
    );
}

/// The down projection gives the opposite where either its weights or the values are replaced by
/// the opposite ones.
proof fn lemma_down_opposite(
    g: Arith,
    w: Seq<u32>,
    v: Seq<u32>,
    scales: Seq<u32>,
    xs: Seq<u32>,
    ys: Seq<u32>,
)
    requires
        odd(g),
        w.len() == FEED,
        scales.len() == 960,
        xs.len() == FEED,
        opposite_lists(Format::F4, w, v) && xs == ys || w == v && opposite_lists(
            Format::Bf16,
            xs,
            ys,
        ) && forall|l: int| 0 <= l < FEED ==> !is_nan(Format::Bf16, #[trigger] xs[l]),
    ensures
        opposite(Format::Bf16, down_feature(g, w, scales, xs), down_feature(g, v, scales, ys)),
{
    let p = Seq::new(
        2,
        |part: int|
            fold(
                g,
                Op::TotalAcrossSlices,
                Seq::new(2, |half: int| half_total(g, w, scales, xs, half, part)),
            ),
    );
    let q = Seq::new(
        2,
        |part: int|
            fold(
                g,
                Op::TotalAcrossSlices,
                Seq::new(2, |half: int| half_total(g, v, scales, ys, half, part)),
            ),
    );
    assert forall|part: int| 0 <= part < 2 implies opposite(
        Format::F32,
        #[trigger] p[part],
        q[part],
    ) by {
        let c = Seq::new(2, |half: int| half_total(g, w, scales, xs, half, part));
        let d = Seq::new(2, |half: int| half_total(g, v, scales, ys, half, part));
        assert forall|half: int| 0 <= half < 2 implies opposite(
            Format::F32,
            #[trigger] c[half],
            d[half],
        ) by {
            lemma_half_opposite(g, w, v, scales, xs, ys, half, part);
        }
        lemma_total(g, Op::TotalAcrossSlices, c, d);
    }
    lemma_total(g, Op::TotalInSlice, p, q);
    lemma_one(
        g,
        Op::NarrowBf16,
        Format::F32,
        Format::Bf16,
        fold(g, Op::TotalInSlice, p),
        fold(g, Op::TotalInSlice, q),
    );
}

proof fn lemma_half_opposite(
    g: Arith,
    w: Seq<u32>,
    v: Seq<u32>,
    scales: Seq<u32>,
    xs: Seq<u32>,
    ys: Seq<u32>,
    half: int,
    part: int,
)
    requires
        odd(g),
        w.len() == FEED,
        scales.len() == 960,
        xs.len() == FEED,
        opposite_lists(Format::F4, w, v) && xs == ys || w == v && opposite_lists(
            Format::Bf16,
            xs,
            ys,
        ) && forall|l: int| 0 <= l < FEED ==> !is_nan(Format::Bf16, #[trigger] xs[l]),
        0 <= half < 2,
    ensures
        opposite(
            Format::F32,
            half_total(g, w, scales, xs, half, part),
            half_total(g, v, scales, ys, half, part),
        ),
{
    let from = 7680 * half;
    let wh = w.subrange(from, from + 7680);
    let vh = v.subrange(from, from + 7680);
    let x = list_parts(g, xs, part).subrange(from, from + 7680);
    let y = list_parts(g, ys, part).subrange(from, from + 7680);
    if opposite_lists(Format::F4, w, v) && xs == ys {
        assert forall|k: int| 0 <= k < 7680 implies opposite(
            Format::F4,
            #[trigger] wh[k],
            vh[k],
        ) by {
            assert(opposite(Format::F4, w[from + k], v[from + k]));
        }
        lemma_decoded(g, wh, vh);
    } else {
        assert forall|k: int| 0 <= k < xs.len() implies ys[k] == #[trigger] xs[k] || opposite(
            Format::Bf16,
            xs[k],
            ys[k],
        ) by {
            assert(opposite(Format::Bf16, xs[k], ys[k]));
        }
        law_signs_pass_to_parts(g, xs, ys, part);
        assert forall|k: int| 0 <= k < 7680 implies opposite(Format::F8, #[trigger] x[k], y[k]) by {
            let l = from + k;
            assert(opposite(Format::Bf16, xs[l], ys[l]));
            assert(list_parts(g, ys, part)[l] == y[k]);
        }
    }
    lemma_blocks(
        g,
        decoded_f4(g, wh),
        decoded_f4(g, vh),
        scales.subrange(480 * half, 480 * half + 480),
        x,
        y,
        list_scales(g, xs, part).subrange(8 * half, 8 * half + 8),
    );
}

/// Flipping the signs of all up weights flips the result of the feed-forward block.
pub proof fn law_up_signs_pass_through(
    g: Arith,
    xs: Seq<u32>,
    up_weight: Tensor,
    flipped_weight: Tensor,
    gate_weight: Tensor,
    up_scale: Tensor,
    gate_scale: Tensor,
    up_global_scale: u32,
    gate_global_scale: u32,
    down_row: Seq<u32>,
    down_row_scales: Seq<u32>,
    down_global_scale: u32,
)
    requires
        odd(g),
        xs.len() == HIDDEN,
        down_row.len() == FEED,
        down_row_scales.len() == 960,
        forall|h: int, l: int|
            0 <= h < HIDDEN && 0 <= l < FEED ==> opposite(
                Format::F4,
                #[trigger] up_weight.at(at_hl(h, l)),
                flipped_weight.at(at_hl(h, l)),
            ),
        forall|l: int|
            0 <= l < FEED ==> !is_nan(
                Format::Bf16,
                #[trigger] gated_features(
                    g,
                    xs,
                    up_weight,
                    gate_weight,
                    up_scale,
                    gate_scale,
                    up_global_scale,
                    gate_global_scale,
                )[l],
            ),
    ensures
        opposite(
            Format::Bf16,
            block_feature(
                g,
                down_row,
                down_row_scales,
                gated_features(
                    g,
                    xs,
                    up_weight,
                    gate_weight,
                    up_scale,
                    gate_scale,
                    up_global_scale,
                    gate_global_scale,
                ),
                down_global_scale,
            ),
            block_feature(
                g,
                down_row,
                down_row_scales,
                gated_features(
                    g,
                    xs,
                    flipped_weight,
                    gate_weight,
                    up_scale,
                    gate_scale,
                    up_global_scale,
                    gate_global_scale,
                ),
                down_global_scale,
            ),
        ),
{
    let ys = gated_features(
        g,
        xs,
        up_weight,
        gate_weight,
        up_scale,
        gate_scale,
        up_global_scale,
        gate_global_scale,
    );
    let zs = gated_features(
        g,
        xs,
        flipped_weight,
        gate_weight,
        up_scale,
        gate_scale,
        up_global_scale,
        gate_global_scale,
    );
    assert forall|l: int| 0 <= l < FEED implies opposite(Format::Bf16, #[trigger] ys[l], zs[l]) by {
        let w = up_weights(up_weight, l);
        let v = up_weights(flipped_weight, l);
        assert forall|h: int| 0 <= h < HIDDEN implies opposite(
            Format::F4,
            #[trigger] w[h],
            v[h],
        ) by {
            assert(opposite(
                Format::F4,
                up_weight.at(at_hl(h, l)),
                flipped_weight.at(at_hl(h, l)),
            ));
        }
        let s = up_scales(up_scale, l);
        let gate = up_feature(g, up_weights(gate_weight, l), up_scales(gate_scale, l), xs);
        lemma_up_opposite(g, w, v, s, xs);
        lemma_gated(
            g,
            up_feature(g, w, s, xs),
            up_feature(g, v, s, xs),
            gate,
            up_global_scale,
            gate_global_scale,
        );
    }
    lemma_down_opposite(g, down_row, down_row, down_row_scales, ys, zs);
    lemma_rescaled(
        g,
        down_feature(g, down_row, down_row_scales, ys),
        down_feature(g, down_row, down_row_scales, zs),
        down_global_scale,
        down_global_scale,
    );
}

/// Flipping the signs of all down weights flips the result of the feed-forward block.
pub proof fn law_down_signs_pass_through(
    g: Arith,
    ys: Seq<u32>,
    row: Seq<u32>,
    flipped_row: Seq<u32>,
    row_scales: Seq<u32>,
    global_scale: u32,
)
    requires
        odd(g),
        ys.len() == FEED,
        row.len() == FEED,
        row_scales.len() == 960,
        opposite_lists(Format::F4, row, flipped_row),
    ensures
        opposite(
            Format::Bf16,
            block_feature(g, row, row_scales, ys, global_scale),
            block_feature(g, flipped_row, row_scales, ys, global_scale),
        ),
{
    lemma_down_opposite(g, row, flipped_row, row_scales, ys, ys);
    lemma_rescaled(
        g,
        down_feature(g, row, row_scales, ys),
        down_feature(g, flipped_row, row_scales, ys),
        global_scale,
        global_scale,
    );
}

/// Flipping the sign of the down projection's global scale flips the result of the feed-forward
/// block.
pub proof fn law_down_scale_sign_passes_through(
    g: Arith,
    ys: Seq<u32>,
    row: Seq<u32>,
    row_scales: Seq<u32>,
    global_scale: u32,
    flipped_scale: u32,
)
    requires
        odd(g),
        opposite(Format::F32, global_scale, flipped_scale),
    ensures
        opposite(
            Format::Bf16,
            block_feature(g, row, row_scales, ys, global_scale),
            block_feature(g, row, row_scales, ys, flipped_scale),
        ),
{
    let v = down_feature(g, row, row_scales, ys);
    lemma_rescaled(g, v, v, global_scale, flipped_scale);
}

} // verus!
