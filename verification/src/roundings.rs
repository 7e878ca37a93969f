//! Where results are rounded: how the results of different calls relate, bit by bit.
use crate::activation::F32_ONE;
use crate::engine::{one, two, Arith, Op};
use crate::layout::{at_h, at_hp, at_hq, at_p, at_q};
use crate::mlp::{block_feature, down_feature};
use crate::output::{
    output_home, output_input, output_value, output_weights, partial_value, sharded_value,
};
use crate::places::{HIDDEN, KEY, QUERY};
use crate::products::{half_features, half_weights, in_output_slice, in_slice};
use crate::projection::{channel, copy_at, Channels};
use crate::tensor::Tensor;
use vstd::prelude::*;

verus! {

/// One as a bfloat16.
pub const BF16_ONE: u32 = 0x3f80;

/// A rounded value stays as it is when it is multiplied by one and rounded again.
pub open spec fn settles(g: Arith) -> bool {
    forall|a: u32|
        #![trigger one(g, Op::NarrowBf16, a)]
        {
            let r = one(g, Op::NarrowBf16, a);
            let w = one(g, Op::WidenBf16, r);
            &&& one(
                g,
                Op::NarrowBf16,
                two(g, Op::Multiply, w, one(g, Op::WidenBf16, BF16_ONE)),
            ) == r
            &&& one(g, Op::NarrowBf16, two(g, Op::Multiply, w, F32_ONE)) == r
        }
}

/// A channel with any scale is the channel with a scale of one, times that scale, rounded: the
/// product of weights and values is rounded before it is scaled.
pub proof fn law_channel_scale_comes_last(g: Arith, weights: Seq<u32>, xs: Seq<u32>, scale: u32)
    requires
        settles(g),
    ensures
        channel(g, weights, xs, scale) == one(
            g,
            Op::NarrowBf16,
            two(
                g,
                Op::Multiply,
                one(g, Op::WidenBf16, channel(g, weights, xs, BF16_ONE)),
                one(g, Op::WidenBf16, scale),
            ),
        ),
{
}

/// A key or value feature is the query feature with the same row of weights, the same hidden
/// features and the same scale.
pub proof fn law_key_value_is_like_query(
    g: Arith,
    x: Tensor,
    query_weight: Tensor,
    query_scale: Tensor,
    key_weight: Tensor,
    key_scale: Tensor,
    q: int,
    p: int,
)
    requires
        0 <= q < QUERY,
        0 <= p < KEY,
        forall|h: int|
            0 <= h < HIDDEN ==> #[trigger] query_weight.at(at_hq(h, q)) == key_weight.at(
                at_hp(h, p),
            ),
        forall|h: int|
            0 <= h < HIDDEN ==> #[trigger] x.at(in_slice(q / 16, h)) == x.at(in_slice(p / 8, h)),
        query_scale.at(at_q(q)) == key_scale.at(at_p(p)),
    ensures
        Channels::KeyValue.result(g, x, key_weight, key_scale, p) == Channels::Query.result(
            g,
            x,
            query_weight,
            query_scale,
            q,
        ),
{
    let (c, d) = (Channels::Query, Channels::KeyValue);
    let (a, b) = (copy_at(x, c.home(q)), copy_at(x, d.home(p)));
    assert forall|h: int| 0 <= h < HIDDEN implies #[trigger] a[h] == b[h] by {
        assert(c.home(q).plus(at_h(h)) == in_slice(q / 16, h));
        assert(d.home(p).plus(at_h(h)) == in_slice(p / 8, h));
        assert(x.at(in_slice(q / 16, h)) == x.at(in_slice(p / 8, h)));
    }
    assert(a =~= b);
    let v = Seq::new(HIDDEN as nat, |h: int| query_weight.at(c.spot(q, h)));
    let w = Seq::new(HIDDEN as nat, |h: int| key_weight.at(d.spot(p, h)));
    assert forall|h: int| 0 <= h < HIDDEN implies #[trigger] v[h] == w[h] by {
        assert(query_weight.at(at_hq(h, q)) == key_weight.at(at_hp(h, p)));
    }
    assert(v =~= w);
}

/// Each half of an output row is a channel with a scale of one, and a row with a scale of one is
/// the rounded sum of its halves.
pub proof fn law_output_is_a_sum_of_channels(
    g: Arith,
    x: Tensor,
    weight: Tensor,
    ones: Tensor,
    h: int,
)
    requires
        settles(g),
        ones.at(at_h(h)) == BF16_ONE,
    ensures
        ({
            let left = channel(g, half_weights(weight, h, 0), half_features(x, h, 0), BF16_ONE);
            let right = channel(
                g,
                half_weights(weight, h, 2048),
                half_features(x, h, 2048),
                BF16_ONE,
            );
            &&& partial_value(g, output_weights(weight, h, 0), output_input(x, h, 0)) == left
            &&& partial_value(g, output_weights(weight, h, 2048), output_input(x, h, 2048)) == right
            &&& output_value(g, x, weight, ones, h) == one(
                g,
                Op::NarrowBf16,
                two(
                    g,
                    Op::ClipSum,
                    one(g, Op::WidenBf16, right),
                    one(g, Op::WidenBf16, left),
                ),
            )
        }),
{
    lemma_half(x, weight, h, 0);
    lemma_half(x, weight, h, 2048);
}

/// Half an output row, cell by cell.
proof fn lemma_half(x: Tensor, weight: Tensor, h: int, from: int)
    ensures
        output_weights(weight, h, from) == half_weights(weight, h, from),
        output_input(x, h, from) == half_features(x, h, from),
{
    assert(output_weights(weight, h, from) =~= half_weights(weight, h, from));
    let (a, b) = (output_input(x, h, from), half_features(x, h, from));
    assert forall|k: int| 0 <= k < 2048 implies #[trigger] a[k] == b[k] by {
        assert(output_home(h).plus(at_q(from + k)) == in_output_slice(h, from + k));
    }
    assert(a =~= b);
}

/// An output row with any scale is the row with a scale of one, times that scale, rounded.
pub proof fn law_output_scale_comes_last(
    g: Arith,
    x: Tensor,
    weight: Tensor,
    weight_scale: Tensor,
    ones: Tensor,
    h: int,
)
    requires
        settles(g),
        ones.at(at_h(h)) == BF16_ONE,
    ensures
        output_value(g, x, weight, weight_scale, h) == one(
            g,
            Op::NarrowBf16,
            two(
                g,
                Op::Multiply,
                one(g, Op::WidenBf16, output_value(g, x, weight, ones, h)),
                one(g, Op::WidenBf16, weight_scale.at(at_h(h))),
            ),
        ),
{
}

/// An output row by quarters with any scale is the row with a scale of one, times that scale,
/// rounded.
pub proof fn law_sharded_scale_comes_last(
    g: Arith,
    x: Tensor,
    weight: Tensor,
    weight_scale: Tensor,
    ones: Tensor,
    h: int,
)
    requires
        settles(g),
        ones.at(at_h(h)) == BF16_ONE,
    ensures
        sharded_value(g, x, weight, weight_scale, h) == one(
            g,
            Op::NarrowBf16,
            two(
                g,
                Op::Multiply,
                one(g, Op::WidenBf16, sharded_value(g, x, weight, ones, h)),
                one(g, Op::WidenBf16, weight_scale.at(at_h(h))),
            ),
        ),
{
}

/// With a global scale of one, an output of the feed-forward block is the down projection of the
/// gated features.
pub proof fn law_block_with_scale_one_is_the_down_projection(
    g: Arith,
    weights: Seq<u32>,
    scales: Seq<u32>,
    ys: Seq<u32>,
)
    requires
        settles(g),
    ensures
        block_feature(g, weights, scales, ys, F32_ONE) == down_feature(g, weights, scales, ys),
{
}

/// An output of the feed-forward block with any global scale is the output with a scale of one,
/// times that scale, rounded.
pub proof fn law_block_scale_comes_last(
    g: Arith,
    weights: Seq<u32>,
    scales: Seq<u32>,
    ys: Seq<u32>,
    global_scale: u32,
)
    requires
        settles(g),
    ensures
        block_feature(g, weights, scales, ys, global_scale) == one(
            g,
            Op::NarrowBf16,
            two(
                g,
                Op::Multiply,
                one(g, Op::WidenBf16, block_feature(g, weights, scales, ys, F32_ONE)),
                global_scale,
            ),
        ),
{
}

} // verus!
