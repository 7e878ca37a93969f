//! What zeros do to the kernels: they stay zeros, and no scale of zero is ever divided by.
use crate::activation::{double_gelu, gated, rescaled, F32_TWO};
use crate::blocks::{block, blocks_total, decoded_f4};
use crate::calm::{
    calm_blocks, calm_down, calm_gated, calm_output, calm_quarter, calm_two, calm_up, down_totals,
    half_totals, quarter_totals, row_totals, up_totals, Calm,
};
use crate::engine::{fold, one, two, Arith, Op};
use crate::layout::at_h;
use crate::mlp::{
    block_feature, down_feature, gated_features, half_total, up_feature, up_scales, up_weights,
};
use crate::output::{part_total, quarter_input, quarter_total, quarter_weights, sharded_value};
use crate::places::{FEED, HIDDEN};
use crate::quantize::{
    group_scale, list_parts, list_scales, magnitude, part_of, F32_16, F32_256, F32_TINY,
};
use crate::signs::{is_nan, is_zero};
use crate::tensor::{Format, Tensor};
use vstd::prelude::*;

verus! {

/// Every value of a list is zero.
pub open spec fn all_zero(format: Format, a: Seq<u32>) -> bool {
    forall|k: int| 0 <= k < a.len() ==> is_zero(format, #[trigger] a[k])
}

/// Zero stays zero when it is widened, split, or multiplied with numbers, and a scale drawn from
/// zeros is the smallest one.
#[verifier::opaque]
pub open spec fn keeps_zero(g: Arith, calm: Calm) -> bool {
    &&& forall|x: u32|
        is_zero(Format::Bf16, x) ==> is_zero(Format::F32, #[trigger] one(g, Op::WidenBf16, x))
    &&& forall|a: Seq<u32>|
        a.len() > 0 && (forall|k: int| 0 <= k < a.len() ==> #[trigger] a[k] == 0)
            ==> #[trigger] fold(g, Op::LargestInSlice, a) == 0
    &&& two(g, Op::Divide, 0, F32_256) == 0
    &&& two(g, Op::ClipMax, 0, F32_TINY) == F32_TINY
    &&& forall|a: u32|
        is_zero(Format::F32, a) ==> is_zero(
            Format::F32,
            #[trigger] two(g, Op::Divide, a, F32_TINY),
        )
    &&& forall|a: u32|
        is_zero(Format::F32, a) ==> is_zero(Format::F8, #[trigger] one(g, Op::NarrowF8, a))
    &&& forall|a: u32|
        is_zero(Format::F8, a) ==> is_zero(Format::F32, #[trigger] one(g, Op::WidenF8, a))
    &&& forall|a: u32, b: u32|
        is_zero(Format::F32, a) && is_zero(Format::F32, b) ==> is_zero(
            Format::F32,
            #[trigger] two(g, Op::Subtract, a, b),
        )
    &&& forall|a: u32|
        is_zero(Format::F32, a) ==> is_zero(
            Format::F32,
            #[trigger] two(g, Op::Multiply, a, F32_16),
        )
    &&& forall|a: u32, b: u32|
        is_zero(Format::F32, a) && calm_two(calm, Op::Multiply, a, b) ==> is_zero(
            Format::F32,
            #[trigger] two(g, Op::Multiply, a, b),
        )
    &&& forall|w: Seq<u32>, x: Seq<u32>|
        all_zero(Format::F8, x) && calm(Op::ContractF8, w, x) ==> is_zero(
            Format::F32,
            #[trigger] g(Op::ContractF8, w, x),
        )
}

/// Totals of zeros are zero, and zero stays zero when it is halved or rounded.
#[verifier::opaque]
pub open spec fn adds_zero(g: Arith) -> bool {
    &&& forall|op: Op, a: Seq<u32>|
        (op == Op::TotalInSlice || op == Op::TotalAcrossSlices) && all_zero(Format::F32, a)
            ==> is_zero(Format::F32, #[trigger] fold(g, op, a))
    &&& forall|a: u32|
        is_zero(Format::F32, a) ==> is_zero(
            Format::F32,
            #[trigger] two(g, Op::Divide, a, F32_TWO),
        )
    &&& forall|a: u32|
        is_zero(Format::F32, a) ==> is_zero(Format::Bf16, #[trigger] one(g, Op::NarrowBf16, a))
}

/// A group of zeros has the smallest scale, which is not zero: the clip keeps its parts from being
/// quotients of zeros.
pub proof fn law_zeros_have_the_smallest_scale(g: Arith, calm: Calm, xs: Seq<u32>)
    requires
        keeps_zero(g, calm),
        xs.len() > 0,
        all_zero(Format::Bf16, xs),
    ensures
        group_scale(g, xs) == F32_TINY,
        !is_zero(Format::F32, F32_TINY),
{
    reveal(keeps_zero);
    let a = Seq::new(xs.len(), |k: int| magnitude(g, xs[k]));
    assert forall|k: int| 0 <= k < a.len() implies #[trigger] a[k] == 0 by {
        let w = one(g, Op::WidenBf16, xs[k]);
        assert(is_zero(Format::Bf16, xs[k]));
        assert(w == 0 || w == 0x8000_0000 ==> w & 0x7fff_ffff == 0) by (bit_vector);
    }
    assert(fold(g, Op::LargestInSlice, a) == 0);
}

/// Under the smallest scale, both parts of zero are zero.
pub proof fn law_parts_of_zero_are_zero(g: Arith, calm: Calm, x: u32, part: int)
    requires
        keeps_zero(g, calm),
        is_zero(Format::Bf16, x),
    ensures
        is_zero(Format::F8, part_of(g, x, F32_TINY, part)),
{
    reveal(keeps_zero);
    let a = one(g, Op::WidenBf16, x);
    let n = two(g, Op::Divide, a, F32_TINY);
    let h = one(g, Op::NarrowF8, n);
    let w = one(g, Op::WidenF8, h);
    let r = two(g, Op::Subtract, n, w);
    let m = two(g, Op::Multiply, r, F32_16);
    assert(is_zero(Format::F32, a) && is_zero(Format::F32, n) && is_zero(Format::F8, h));
    assert(is_zero(Format::F32, w) && is_zero(Format::F32, r) && is_zero(Format::F32, m));
}

/// The parts of a list of zeros are zero.
proof fn lemma_list_parts(g: Arith, calm: Calm, xs: Seq<u32>, part: int)
    requires
        keeps_zero(g, calm),
        xs.len() % 960 == 0,
        all_zero(Format::Bf16, xs),
    ensures
        all_zero(Format::F8, list_parts(g, xs, part)),
{
    assert forall|k: int| 0 <= k < xs.len() implies is_zero(
        Format::F8,
        #[trigger] list_parts(g, xs, part)[k],
    ) by {
        let i = k / 960;
        let group = xs.subrange(960 * i, 960 * i + 960);
        assert forall|j: int| 0 <= j < 960 implies is_zero(
            Format::Bf16,
            #[trigger] group[j],
        ) by {
            assert(is_zero(Format::Bf16, xs[960 * i + j]));
        }
        law_zeros_have_the_smallest_scale(g, calm, group);
        assert(is_zero(Format::Bf16, xs[k]));
        law_parts_of_zero_are_zero(g, calm, xs[k], part);
    }
}

/// Totals of zeros by `op` are zero.
#[verifier::opaque]
pub open spec fn totals_zero(g: Arith, op: Op) -> bool {
    forall|a: Seq<u32>|
        all_zero(Format::F32, a) ==> is_zero(Format::F32, #[trigger] fold(g, op, a))
}

/// Both kinds of totals of zeros are zero.
proof fn lemma_totals_zero(g: Arith)
    requires
        adds_zero(g),
    ensures
        totals_zero(g, Op::TotalInSlice),
        totals_zero(g, Op::TotalAcrossSlices),
{
    reveal(adds_zero);
    reveal(totals_zero);
}

/// A row gives zero for parts of zero, where totals in a slice are zero for zeros.
pub proof fn law_row_of_zeros_is_zero(
    g: Arith,
    calm: Calm,
    weights: Seq<u32>,
    scales: Seq<u32>,
    x: Seq<u32>,
    x_scales: Seq<u32>,
)
    requires
        keeps_zero(g, calm),
        totals_zero(g, Op::TotalInSlice),
        calm_blocks(calm, g, weights, scales, x, x_scales),
        x.len() == 16 * scales.len(),
        all_zero(Format::F8, x),
    ensures
        is_zero(Format::F32, blocks_total(g, weights, scales, x, x_scales)),
{
    let list = Seq::new(scales.len(), |b: int| block(g, weights, scales, x, x_scales, b));
    assert forall|b: int| 0 <= b < scales.len() implies is_zero(
        Format::F32,
        #[trigger] list[b],
    ) by {
        reveal(keeps_zero);
        let w = Seq::new(16, |k: int| weights[16 * b + k]);
        let v = Seq::new(16, |k: int| x[16 * b + k]);
        let sum = g(Op::ContractF8, w, v);
        let t = one(g, Op::WidenF8, scales[b]);
        assert(list[b] == block(g, weights, scales, x, x_scales, b));
        assert forall|k: int| 0 <= k < 16 implies is_zero(Format::F8, #[trigger] v[k]) by {
            assert(is_zero(Format::F8, x[16 * b + k]));
        }
        assert(all_zero(Format::F8, v));
        assert(is_zero(Format::F32, sum));
        assert(is_zero(Format::F32, two(g, Op::Multiply, sum, t)));
    }
    assert(all_zero(Format::F32, list));
    reveal(totals_zero);
}

/// A product with a zero is zero, also when it is rounded.
proof fn lemma_rescaled(g: Arith, calm: Calm, x: u32, s: u32)
    requires
        keeps_zero(g, calm),
        adds_zero(g),
        is_zero(Format::Bf16, x),
        calm_two(calm, Op::Multiply, one(g, Op::WidenBf16, x), s),
    ensures
        is_zero(Format::Bf16, rescaled(g, x, s)),
{
    reveal(keeps_zero);
    reveal(adds_zero);
    let w = one(g, Op::WidenBf16, x);
    assert(is_zero(Format::F32, w));
    assert(is_zero(Format::F32, two(g, Op::Multiply, w, s)));
}

/// An up projection gives zero for hidden features of zero.
pub proof fn law_up_of_zeros_is_zero(
    g: Arith,
    calm: Calm,
    weights: Seq<u32>,
    scales: Seq<u32>,
    xs: Seq<u32>,
)
    requires
        keeps_zero(g, calm),
        adds_zero(g),
        calm_up(calm, g, weights, scales, xs),
        xs.len() == 16 * scales.len(),
        xs.len() % 960 == 0,
        all_zero(Format::Bf16, xs),
    ensures
        is_zero(Format::Bf16, up_feature(g, weights, scales, xs)),
{
    let totals = up_totals(g, weights, scales, xs);
    assert forall|part: int| 0 <= part < 2 implies is_zero(
        Format::F32,
        #[trigger] totals[part],
    ) by {
        lemma_list_parts(g, calm, xs, part);
        lemma_totals_zero(g);
        law_row_of_zeros_is_zero(
            g,
            calm,
            decoded_f4(g, weights),
            scales,
            list_parts(g, xs, part),
            list_scales(g, xs, part),
        );
    }
    assert(all_zero(Format::F32, totals));
    reveal(adds_zero);
    assert(is_zero(Format::F32, fold(g, Op::TotalInSlice, totals)));
}

/// The gated value is zero where the up projection is.
proof fn lemma_gated(g: Arith, calm: Calm, up: u32, gate: u32, us: u32, gs: u32)
    requires
        keeps_zero(g, calm),
        adds_zero(g),
        calm_gated(calm, g, up, gate, us, gs),
        is_zero(Format::Bf16, up),
    ensures
        is_zero(Format::Bf16, gated(g, up, gate, us, gs)),
{
    lemma_rescaled(g, calm, up, us);
    reveal(keeps_zero);
    reveal(adds_zero);
    let w = one(g, Op::WidenBf16, rescaled(g, up, us));
    let p = two(g, Op::Multiply, w, double_gelu(g, rescaled(g, gate, gs)));
    assert(is_zero(Format::F32, w));
    assert(is_zero(Format::F32, p));
    assert(is_zero(Format::F32, two(g, Op::Divide, p, F32_TWO)));
}

/// The down projection gives zero for feed-forward features of zero.
pub proof fn law_down_of_zeros_is_zero(
    g: Arith,
    calm: Calm,
    weights: Seq<u32>,
    scales: Seq<u32>,
    xs: Seq<u32>,
)
    requires
        keeps_zero(g, calm),
        adds_zero(g),
        calm_down(calm, g, weights, scales, xs),
        xs.len() == FEED,
        weights.len() == FEED,
        scales.len() == 960,
        all_zero(Format::Bf16, xs),
    ensures
        is_zero(Format::Bf16, down_feature(g, weights, scales, xs)),
{
    let totals = down_totals(g, weights, scales, xs);
    assert forall|part: int| 0 <= part < 2 implies is_zero(
        Format::F32,
        #[trigger] totals[part],
    ) by {
        let halves = half_totals(g, weights, scales, xs, part);
        lemma_list_parts(g, calm, xs, part);
        assert forall|half: int| 0 <= half < 2 implies is_zero(
            Format::F32,
            #[trigger] halves[half],
        ) by {
            let from = 7680 * half;
            let x = list_parts(g, xs, part).subrange(from, from + 7680);
            assert(halves[half] == half_total(g, weights, scales, xs, half, part));
            assert forall|k: int| 0 <= k < 7680 implies is_zero(Format::F8, #[trigger] x[k]) by {
                assert(is_zero(Format::F8, list_parts(g, xs, part)[from + k]));
            }
            lemma_totals_zero(g);
        law_row_of_zeros_is_zero(
                g,
                calm,
                decoded_f4(g, weights.subrange(from, from + 7680)),
                scales.subrange(480 * half, 480 * half + 480),
                x,
                list_scales(g, xs, part).subrange(8 * half, 8 * half + 8),
            );
        }
        assert(all_zero(Format::F32, halves));
        reveal(adds_zero);
    }
    assert(all_zero(Format::F32, totals));
    assert(down_feature(g, weights, scales, xs) == one(
        g,
        Op::NarrowBf16,
        fold(g, Op::TotalInSlice, totals),
    )) by {
        let parts = Seq::new(
            2,
            |part: int|
                fold(
                    g,
                    Op::TotalAcrossSlices,
                    Seq::new(2, |half: int| half_total(g, weights, scales, xs, half, part)),
                ),
        );
        assert(parts =~= totals);
    }
    reveal(adds_zero);
    assert(is_zero(Format::F32, fold(g, Op::TotalInSlice, totals)));
}

/// Hidden features of zero give a result of zero, a number, in every row of the feed-forward block.
pub proof fn law_block_of_zeros_is_zero(
    g: Arith,
    calm: Calm,
    xs: Seq<u32>,
    up_weight: Tensor,
    gate_weight: Tensor,
    up_scale: Tensor,
    gate_scale: Tensor,
    up_global_scale: u32,
    gate_global_scale: u32,
    down_row: Seq<u32>,
    down_row_scales: Seq<u32>,
    down_global_scale: u32,
)
    requires
        keeps_zero(g, calm),
        adds_zero(g),
        xs.len() == HIDDEN,
        all_zero(Format::Bf16, xs),
        down_row.len() == FEED,
        down_row_scales.len() == 960,
        forall|l: int|
            #![trigger up_weights(up_weight, l)]
            0 <= l < FEED ==> {
                let (u, p) = (up_weights(up_weight, l), up_scales(up_scale, l));
                let (v, q) = (up_weights(gate_weight, l), up_scales(gate_scale, l));
                &&& calm_up(calm, g, u, p, xs)
                &&& calm_gated(
                    calm,
                    g,
                    up_feature(g, u, p, xs),
                    up_feature(g, v, q, xs),
                    up_global_scale,
                    gate_global_scale,
                )
            },
        ({
            let ys = gated_features(
                g,
                xs,
                up_weight,
                gate_weight,
                up_scale,
                gate_scale,
                up_global_scale,
                gate_global_scale,
            );
            &&& calm_down(calm, g, down_row, down_row_scales, ys)
            &&& calm_two(
                calm,
                Op::Multiply,
                one(g, Op::WidenBf16, down_feature(g, down_row, down_row_scales, ys)),
                down_global_scale,
            )
        }),
    ensures
        ({
            let out = block_feature(
                g,
                down_row,
                down_row_scales,
                gated_features(
                    g,
                    xs,
                    up_weight,
                    gate_weight,
                    up_scale,
                    gate_scale,
                    up_global_scale,
                    gate_global_scale,
                ),
                down_global_scale,
            );
            is_zero(Format::Bf16, out) && !is_nan(Format::Bf16, out)
        }),
{
    let ys = gated_features(
        g,
        xs,
        up_weight,
        gate_weight,
        up_scale,
        gate_scale,
        up_global_scale,
        gate_global_scale,
    );
    assert forall|l: int| 0 <= l < FEED implies is_zero(Format::Bf16, #[trigger] ys[l]) by {
        let (u, p) = (up_weights(up_weight, l), up_scales(up_scale, l));
        let (v, q) = (up_weights(gate_weight, l), up_scales(gate_scale, l));
        law_up_of_zeros_is_zero(g, calm, u, p, xs);
        lemma_gated(
            g,
            calm,
            up_feature(g, u, p, xs),
            up_feature(g, v, q, xs),
            up_global_scale,
            gate_global_scale,
        );
    }
    law_down_of_zeros_is_zero(g, calm, down_row, down_row_scales, ys);
    let d = down_feature(g, down_row, down_row_scales, ys);
    lemma_rescaled(g, calm, d, down_global_scale);
    let out = rescaled(g, d, down_global_scale);
    assert(out == 0 || out == 0x8000 ==> !(out & 0x7fff > 0x7f80)) by (bit_vector);
}

/// A quarter of an output row gives zero for query features of zero, where totals in a slice are
/// zero for zeros.
pub proof fn law_quarter_of_zeros_is_zero(g: Arith, calm: Calm, w: Seq<u32>, xs: Seq<u32>)
    requires
        keeps_zero(g, calm),
        totals_zero(g, Op::TotalInSlice),
        xs.len() > 0,
        all_zero(Format::Bf16, xs),
        calm_quarter(calm, g, w, xs),
    ensures
        is_zero(Format::F32, quarter_total(g, w, xs)),
{
    let pairs = quarter_totals(g, w, xs);
    law_zeros_have_the_smallest_scale(g, calm, xs);
    assert forall|part: int| 0 <= part < 2 implies is_zero(Format::F32, #[trigger] pairs[part]) by {
        let s = group_scale(g, xs);
        let parts = Seq::new(xs.len(), |k: int| part_of(g, xs[k], s, part));
        assert(pairs[part] == part_total(g, w, xs, part));
        assert forall|k: int| 0 <= k < parts.len() implies is_zero(
            Format::F8,
            #[trigger] parts[k],
        ) by {
            assert(is_zero(Format::Bf16, xs[k]));
            law_parts_of_zero_are_zero(g, calm, xs[k], part);
        }
        assert(all_zero(Format::F8, parts));
        reveal(keeps_zero);
        assert(is_zero(Format::F32, g(Op::ContractF8, w, parts)));
    }
    assert(all_zero(Format::F32, pairs));
    reveal(totals_zero);
}

/// Query features of zero give a result of zero, a number, in every row of the output projection
/// by quarters.
pub proof fn law_sharded_output_of_zeros_is_zero(
    g: Arith,
    calm: Calm,
    x: Tensor,
    weight: Tensor,
    weight_scale: Tensor,
    h: int,
)
    requires
        keeps_zero(g, calm),
        adds_zero(g),
        forall|quarter: int|
            #![trigger quarter_input(x, h, quarter)]
            0 <= quarter < 4 ==> all_zero(Format::Bf16, quarter_input(x, h, quarter)),
        calm_output(calm, g, x, weight, weight_scale, h),
    ensures
        is_zero(Format::Bf16, sharded_value(g, x, weight, weight_scale, h)),
        !is_nan(Format::Bf16, sharded_value(g, x, weight, weight_scale, h)),
{
    let totals = row_totals(g, x, weight, h);
    assert forall|quarter: int| 0 <= quarter < 4 implies is_zero(
        Format::F32,
        #[trigger] totals[quarter],
    ) by {
        lemma_totals_zero(g);
        law_quarter_of_zeros_is_zero(
            g,
            calm,
            quarter_weights(weight, h, quarter),
            quarter_input(x, h, quarter),
        );
    }
    assert(all_zero(Format::F32, totals));
    let sum = fold(g, Op::TotalAcrossSlices, totals);
    let v = one(g, Op::NarrowBf16, sum);
    assert(is_zero(Format::Bf16, v)) by {
        reveal(adds_zero);
        assert(is_zero(Format::F32, sum));
    }
    lemma_rescaled(g, calm, v, one(g, Op::WidenBf16, weight_scale.at(at_h(h))));
    let out = sharded_value(g, x, weight, weight_scale, h);
    assert(out == 0 || out == 0x8000 ==> !(out & 0x7fff > 0x7f80)) by (bit_vector);
}

} // verus!
