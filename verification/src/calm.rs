//! Which requests of the kernels are harmless.
//!
//! Laws that hold only while nothing overflows or underflows take a predicate on requests, and ask
//! that it hold of each request that a result is made of.
use crate::activation::{double_gelu, rescaled};
use crate::blocks::{block, blocks_total, decoded_f4};
use crate::engine::{fold, one, two, Arith, Op};
use crate::layout::at_h;
use crate::mlp::half_total;
use crate::output::{part_total, quarter_input, quarter_total, quarter_weights};
use crate::quantize::{
    group_scale, high_part, largest, list_parts, list_scales, magnitude, normal, part_of,
    part_scale, F32_16, F32_256, F32_SIXTEENTH,
};
use crate::tensor::Tensor;
use vstd::prelude::*;

verus! {

/// Which requests are harmless.
pub type Calm = spec_fn(Op, Seq<u32>, Seq<u32>) -> bool;

/// A request on two values is harmless.
pub open spec fn calm_two(calm: Calm, op: Op, a: u32, b: u32) -> bool {
    calm(op, seq![a], seq![b])
}

/// A request on a list, or on one value, is harmless.
pub open spec fn calm_list(calm: Calm, op: Op, a: Seq<u32>) -> bool {
    calm(op, a, seq![])
}

/// Every request of splitting a value in a group with scale `s` is harmless.
pub open spec fn calm_value(calm: Calm, g: Arith, x: u32, s: u32) -> bool {
    let n = normal(g, x, s);
    let h = one(g, Op::WidenF8, high_part(g, x, s));
    let r = two(g, Op::Subtract, n, h);
    &&& calm_two(calm, Op::Divide, one(g, Op::WidenBf16, x), s)
    &&& calm_list(calm, Op::NarrowF8, seq![n])
    &&& calm_two(calm, Op::Subtract, n, h)
    &&& calm_two(calm, Op::Multiply, r, F32_16)
    &&& calm_list(calm, Op::NarrowF8, seq![two(g, Op::Multiply, r, F32_16)])
}

/// Every request of splitting a group of values is harmless.
pub open spec fn calm_group(calm: Calm, g: Arith, xs: Seq<u32>) -> bool {
    &&& calm_list(
        calm,
        Op::LargestInSlice,
        Seq::new(xs.len(), |k: int| magnitude(g, xs[k])),
    )
    &&& calm_two(calm, Op::Divide, largest(g, xs), F32_256)
    &&& calm_two(calm, Op::Multiply, group_scale(g, xs), F32_SIXTEENTH)
    &&& forall|k: int|
        0 <= k < xs.len() ==> calm_value(calm, g, #[trigger] xs[k], group_scale(g, xs))
}

/// Every request of splitting a list of values in groups of 960 is harmless.
pub open spec fn calm_split(calm: Calm, g: Arith, xs: Seq<u32>) -> bool {
    forall|i: int|
        #![trigger xs.subrange(960 * i, 960 * i + 960)]
        0 <= i < xs.len() / 960 ==> calm_group(calm, g, xs.subrange(960 * i, 960 * i + 960))
}

/// Every request of a row of blocks is harmless.
pub open spec fn calm_blocks(
    calm: Calm,
    g: Arith,
    weights: Seq<u32>,
    scales: Seq<u32>,
    x: Seq<u32>,
    x_scales: Seq<u32>,
) -> bool {
    &&& forall|b: int|
        #![trigger block(g, weights, scales, x, x_scales, b)]
        0 <= b < scales.len() ==> {
            let w = Seq::new(16, |k: int| weights[16 * b + k]);
            let v = Seq::new(16, |k: int| x[16 * b + k]);
            let c = g(Op::ContractF8, w, v);
            let t = one(g, Op::WidenF8, scales[b]);
            &&& calm(Op::ContractF8, w, v)
            &&& calm_two(calm, Op::Multiply, c, t)
            &&& calm_two(calm, Op::Multiply, two(g, Op::Multiply, c, t), x_scales[b / 60])
        }
    &&& calm_list(calm, Op::TotalInSlice,
        Seq::new(scales.len(), |b: int| block(g, weights, scales, x, x_scales, b)),
    )
}

/// The totals of both parts of a row of an up projection.
pub open spec fn up_totals(
    g: Arith,
    weights: Seq<u32>,
    scales: Seq<u32>,
    xs: Seq<u32>,
) -> Seq<u32> {
    Seq::new(
        2,
        |part: int|
            blocks_total(
                g,
                decoded_f4(g, weights),
                scales,
                list_parts(g, xs, part),
                list_scales(g, xs, part),
            ),
    )
}

/// Every request of a row of an up projection is harmless.
pub open spec fn calm_up(
    calm: Calm,
    g: Arith,
    weights: Seq<u32>,
    scales: Seq<u32>,
    xs: Seq<u32>,
) -> bool {
    let totals = up_totals(g, weights, scales, xs);
    &&& forall|part: int|
        #![trigger list_parts(g, xs, part)]
        0 <= part < 2 ==> calm_blocks(
            calm,
            g,
            decoded_f4(g, weights),
            scales,
            list_parts(g, xs, part),
            list_scales(g, xs, part),
        )
    &&& calm_list(calm, Op::TotalInSlice, totals)
    &&& calm_list(calm, Op::NarrowBf16, seq![fold(g, Op::TotalInSlice, totals)])
}

/// The products that a gated value of feature values `up` and `gate` is made of are harmless.
pub open spec fn calm_gated(
    calm: Calm,
    g: Arith,
    up: u32,
    gate: u32,
    up_scale: u32,
    gate_scale: u32,
) -> bool {
    &&& calm_two(calm, Op::Multiply, one(g, Op::WidenBf16, up), up_scale)
    &&& calm_two(
        calm,
        Op::Multiply,
        one(g, Op::WidenBf16, rescaled(g, up, up_scale)),
        double_gelu(g, rescaled(g, gate, gate_scale)),
    )
}

/// The totals of both halves of a row of the down projection, for one part.
pub open spec fn half_totals(
    g: Arith,
    weights: Seq<u32>,
    scales: Seq<u32>,
    xs: Seq<u32>,
    part: int,
) -> Seq<u32> {
    Seq::new(2, |half: int| half_total(g, weights, scales, xs, half, part))
}

/// The totals of both parts of a row of the down projection.
pub open spec fn down_totals(
    g: Arith,
    weights: Seq<u32>,
    scales: Seq<u32>,
    xs: Seq<u32>,
) -> Seq<u32> {
    Seq::new(
        2,
        |part: int|
            fold(g, Op::TotalAcrossSlices, half_totals(g, weights, scales, xs, part)),
    )
}

/// Every request of a row of the down projection is harmless.
pub open spec fn calm_down(
    calm: Calm,
    g: Arith,
    weights: Seq<u32>,
    scales: Seq<u32>,
    xs: Seq<u32>,
) -> bool {
    let totals = down_totals(g, weights, scales, xs);
    &&& forall|half: int, part: int|
        #![trigger half_total(g, weights, scales, xs, half, part)]
        0 <= half < 2 && 0 <= part < 2 ==> calm_blocks(
            calm,
            g,
            decoded_f4(g, weights.subrange(7680 * half, 7680 * half + 7680)),
            scales.subrange(480 * half, 480 * half + 480),
            list_parts(g, xs, part).subrange(7680 * half, 7680 * half + 7680),
            list_scales(g, xs, part).subrange(8 * half, 8 * half + 8),
        )
    &&& forall|part: int|
        #![trigger half_totals(g, weights, scales, xs, part)]
        0 <= part < 2 ==> calm_list(
            calm,
            Op::TotalAcrossSlices,
            half_totals(g, weights, scales, xs, part),
        )
    &&& calm_list(calm, Op::TotalInSlice, totals)
    &&& calm_list(calm, Op::NarrowBf16, seq![fold(g, Op::TotalInSlice, totals)])
}

/// The totals of both parts of a quarter of an output row.
pub open spec fn quarter_totals(g: Arith, weights: Seq<u32>, xs: Seq<u32>) -> Seq<u32> {
    Seq::new(2, |part: int| part_total(g, weights, xs, part))
}

/// Every request of a quarter of an output row is harmless.
pub open spec fn calm_quarter(calm: Calm, g: Arith, weights: Seq<u32>, xs: Seq<u32>) -> bool {
    &&& forall|part: int|
        #![trigger part_total(g, weights, xs, part)]
        0 <= part < 2 ==> {
            let scale = group_scale(g, xs);
            let parts = Seq::new(xs.len(), |k: int| part_of(g, xs[k], scale, part));
            &&& calm(Op::ContractF8, weights, parts)
            &&& calm_two(
                calm,
                Op::Multiply,
                g(Op::ContractF8, weights, parts),
                part_scale(g, scale, part),
            )
        }
    &&& calm_list(calm, Op::TotalInSlice, quarter_totals(g, weights, xs))
}

/// The totals of the four quarters of an output row.
pub open spec fn row_totals(g: Arith, x: Tensor, weight: Tensor, h: int) -> Seq<u32> {
    Seq::new(
        4,
        |quarter: int|
            quarter_total(g, quarter_weights(weight, h, quarter), quarter_input(x, h, quarter)),
    )
}

/// Every request of an output row is harmless.
pub open spec fn calm_output(
    calm: Calm,
    g: Arith,
    x: Tensor,
    weight: Tensor,
    weight_scale: Tensor,
    h: int,
) -> bool {
    let totals = row_totals(g, x, weight, h);
    let sum = fold(g, Op::TotalAcrossSlices, totals);
    let value = one(g, Op::WidenBf16, one(g, Op::NarrowBf16, sum));
    let scale = one(g, Op::WidenBf16, weight_scale.at(at_h(h)));
    &&& forall|quarter: int|
        #![trigger quarter_input(x, h, quarter)]
        0 <= quarter < 4 ==> calm_quarter(
            calm,
            g,
            quarter_weights(weight, h, quarter),
            quarter_input(x, h, quarter),
        )
    &&& calm_list(calm, Op::TotalAcrossSlices, totals)
    &&& calm_list(calm, Op::NarrowBf16, seq![sum])
    &&& calm_two(calm, Op::Multiply, value, scale)
    &&& calm_list(calm, Op::NarrowBf16, seq![two(g, Op::Multiply, value, scale)])
}

} // verus!
