//! How near the attention projections come to the exact products of their weights and values.
use crate::accuracy::{
    lemma_quarters_error, lemma_sum_equal, lemma_sum_stretches, lemma_triangle, size, sum, Meaning,
};
use crate::calm::{calm_group, calm_list, calm_output, row_totals, Calm};
use crate::engine::{fold, one, Arith, Op};
use crate::layout::{at_h, at_hp, at_hq, at_p, at_q, origin, Point};
use crate::numbers::{calm_halves, calm_product, law_halves_add_up, lemma_product_near};
use crate::output::{
    output_home, output_input, output_value, output_weights, partial_value, quarter_input,
    quarter_weights, rounded_sum, sharded_value,
};
use crate::places::{term, HIDDEN, KEY, QUERY};
use crate::projection::{channel, copy_at, decoded_f8, on_cluster, on_slice, product, Channels};
use crate::quantize::group_scale;
use crate::tensor::Tensor;
use vstd::prelude::*;

verus! {

/// The contraction of a row of 8-bit weights with bfloat16 values, and its rounding, are harmless.
pub open spec fn calm_row(calm: Calm, g: Arith, weights: Seq<u32>, xs: Seq<u32>) -> bool {
    let native = Seq::new(weights.len(), |k: int| one(g, Op::LookupF8AsBf16, weights[k]));
    &&& calm(Op::ContractBf16, native, xs)
    &&& calm_list(calm, Op::NarrowBf16, seq![g(Op::ContractBf16, native, xs)])
}

/// Every request of a channel is harmless.
pub open spec fn calm_channel(
    calm: Calm,
    g: Arith,
    weights: Seq<u32>,
    xs: Seq<u32>,
    scale: u32,
) -> bool {
    let native = Seq::new(weights.len(), |k: int| one(g, Op::LookupF8AsBf16, weights[k]));
    let value = one(g, Op::NarrowBf16, g(Op::ContractBf16, native, xs));
    &&& calm_row(calm, g, weights, xs)
    &&& calm_product(calm, g, value, one(g, Op::WidenBf16, scale))
}

impl Meaning {
    /// The unit rounds as its formats do, also where it works on bfloat16 values.
    pub open spec fn multiplies_well(self, g: Arith) -> bool {
        &&& self.rounds_well(g)
        &&& self.looks_up(g)
        &&& self.contracts_near(g)
    }
}

/// A rounded contraction is near the exact product.
proof fn lemma_row_near(m: Meaning, g: Arith, weights: Seq<u32>, xs: Seq<u32>)
    requires
        m.multiplies_well(g),
        weights.len() == xs.len(),
        calm_row(m.calm, g, weights, xs),
    ensures
        ({
            let n = xs.len() as int;
            let e = sum(n, |k: int| (m.eight)(weights[k]) * (m.sixteen)(xs[k]));
            let a = sum(n, |k: int| size((m.eight)(weights[k]) * (m.sixteen)(xs[k])));
            let c = g(Op::ContractBf16, decoded_f8(g, weights), xs);
            let v = (m.sixteen)(one(g, Op::NarrowBf16, c));
            &&& 10000000real * size(v - e) <= (xs.len() as real) * a + ((xs.len() as real) * a
                + 10000000real * size(e)) / 512real
            &&& 0real <= a
        }),
{
    let n = xs.len() as int;
    let w = decoded_f8(g, weights);
    let native = Seq::new(weights.len(), |k: int| one(g, Op::LookupF8AsBf16, weights[k]));
    assert(w =~= native);
    let prod = |k: int| (m.eight)(weights[k]) * (m.sixteen)(xs[k]);
    let prods = |k: int| size((m.eight)(weights[k]) * (m.sixteen)(xs[k]));
    let own = |k: int| (m.sixteen)(w[k]) * (m.sixteen)(xs[k]);
    let owns = |k: int| size((m.sixteen)(w[k]) * (m.sixteen)(xs[k]));
    assert forall|k: int|
        #![trigger own(k)]
        #![trigger owns(k)]
        0 <= k < n implies own(k) == prod(k) && owns(k) == prods(k) by {
        reveal(Meaning::looks_up);
    }
    lemma_sum_equal(n, own, prod);
    lemma_sum_equal(n, owns, prods);
    let (e, a) = (sum(n, prod), sum(n, prods));
    lemma_sum_not_negative(n, prods);
    let r = xs.len() as real;
    let cp = g(Op::ContractBf16, w, xs);
    let c = (m.full)(cp);
    assert(10000000real * size(c - e) <= r * a) by {
        reveal(Meaning::contracts_near);
        assert(w.len() as real == r);
    }
    let v = (m.sixteen)(one(g, Op::NarrowBf16, cp));
    assert(512real * size(v - c) <= size(c)) by {
        reveal(Meaning::rounds_near);
    }
    let z = r * a;
    lemma_triangle(v - c, c - e, 0real);
    lemma_triangle(c - e, e, 0real);
}

/// A sum of terms that are not negative is not negative.
proof fn lemma_sum_not_negative(n: int, f: spec_fn(int) -> real)
    requires
        forall|k: int| 0 <= k < n ==> 0real <= #[trigger] f(k),
    ensures
        0real <= sum(n, f),
    decreases n,
{
    if n > 0 {
        lemma_sum_not_negative(n - 1, f);
        assert(0real <= f(n - 1));
    }
}

/// The errors of a channel, put together.
proof fn lemma_channel_sizes(a: real, e: real, d: real, k: real, oe: real)
    requires
        0real <= a,
        0real <= e,
        0real <= k,
        10000000real * d <= 3840real * a + (3840real * a + 10000000real * e) / 512real,
        10000000real * oe <= k * (10000000real * d + 19533real * (e + d)),
    ensures
        1000000real * oe <= k * (386real * a + 3911real * e),
{
    assert(10000000real * d + 19533real * (e + d) <= 10real * (386real * a + 3911real * e));
    let (x, y) = (10000000real * d + 19533real * (e + d), 386real * a + 3911real * e);
    assert(k * x <= 10real * (k * y)) by (nonlinear_arith)
        requires
            x <= 10real * y,
            0real <= k,
    ;
}

/// A channel is near the exact product of its weights with the hidden features, times its scale:
/// the error is that of two roundings, and of the contraction.
pub proof fn law_channel_is_near_the_product(
    m: Meaning,
    g: Arith,
    weights: Seq<u32>,
    xs: Seq<u32>,
    scale: u32,
)
    requires
        m.multiplies_well(g),
        weights.len() == HIDDEN,
        xs.len() == HIDDEN,
        calm_channel(m.calm, g, weights, xs, scale),
    ensures
        ({
            let e = sum(
                HIDDEN as int,
                |h: int| (m.eight)(weights[h]) * (m.sixteen)(xs[h]),
            );
            let a = sum(
                HIDDEN as int,
                |h: int| size((m.eight)(weights[h]) * (m.sixteen)(xs[h])),
            );
            let s = (m.sixteen)(scale);
            1000000real * size((m.sixteen)(channel(g, weights, xs, scale)) - e * s) <= size(s) * (
            386real * a + 3911real * size(e))
        }),
{
    let e = sum(HIDDEN as int, |h: int| (m.eight)(weights[h]) * (m.sixteen)(xs[h]));
    let a = sum(HIDDEN as int, |h: int| size((m.eight)(weights[h]) * (m.sixteen)(xs[h])));
    lemma_row_near(m, g, weights, xs);
    assert(decoded_f8(g, weights) =~= Seq::new(
        weights.len(),
        |k: int| one(g, Op::LookupF8AsBf16, weights[k]),
    ));
    let v = one(g, Op::NarrowBf16, g(Op::ContractBf16, decoded_f8(g, weights), xs));
    let d = size((m.sixteen)(v) - e);
    assert(xs.len() as real == 3840real);
    lemma_product_near(m, g, v, scale, e, d);
    lemma_channel_sizes(
        a,
        size(e),
        d,
        size((m.sixteen)(scale)),
        size((m.sixteen)(channel(g, weights, xs, scale)) - e * (m.sixteen)(scale)),
    );
}

/// The place of hidden feature `h` in the copy of slice `s` of the first cluster.
pub open spec fn in_slice(s: int, h: int) -> Point {
    Point { h, ring: s, ..origin() }
}

/// The place of hidden feature `h` in the copy of slice `s` of a cluster.
pub open spec fn in_cluster(cluster: int, s: int, h: int) -> Point {
    Point { h, q: 2048 * cluster, ring: s, ..origin() }
}

/// A query feature is near the exact product of its row of weights with the
/// hidden features in its slice, times its scale.
pub proof fn law_query_is_near_the_product(
    m: Meaning,
    g: Arith,
    x: Tensor,
    weight: Tensor,
    weight_scale: Tensor,
    q: int,
)
    requires
        m.multiplies_well(g),
        0 <= q < QUERY,
        calm_channel(
            m.calm,
            g,
            Seq::new(HIDDEN as nat, |h: int| weight.at(at_hq(h, q))),
            Seq::new(HIDDEN as nat, |h: int| x.at(in_slice(q / 16, h))),
            weight_scale.at(at_q(q)),
        ),
    ensures
        ({
            let e = sum(
                HIDDEN as int,
                |h: int|
                    (m.eight)(weight.at(at_hq(h, q))) * (m.sixteen)(
                        x.at(in_slice(q / 16, h)),
                    ),
            );
            let a = sum(
                HIDDEN as int,
                |h: int|
                    size(
                        (m.eight)(weight.at(at_hq(h, q))) * (m.sixteen)(
                            x.at(in_slice(q / 16, h)),
                        ),
                    ),
            );
            let s = (m.sixteen)(weight_scale.at(at_q(q)));
            let out = (m.sixteen)(Channels::Query.result(g, x, weight, weight_scale, q));
            1000000real * size(out - e * s) <= size(s) * (386real * a + 3911real * size(e))
        }),
{
    let ws = Seq::new(HIDDEN as nat, |h: int| weight.at(at_hq(h, q)));
    let xs = Seq::new(HIDDEN as nat, |h: int| x.at(in_slice(q / 16, h)));
    let scale = weight_scale.at(at_q(q));
    law_channel_is_near_the_product(m, g, ws, xs, scale);
    lemma_sum_equal(
        HIDDEN as int,
        |h: int| (m.eight)(ws[h]) * (m.sixteen)(xs[h]),
        |h: int|
            (m.eight)(weight.at(at_hq(h, q))) * (m.sixteen)(
                x.at(in_slice(q / 16, h)),
            ),
    );
    lemma_sum_equal(
        HIDDEN as int,
        |h: int| size((m.eight)(ws[h]) * (m.sixteen)(xs[h])),
        |h: int|
            size(
                (m.eight)(weight.at(at_hq(h, q))) * (m.sixteen)(
                    x.at(in_slice(q / 16, h)),
                ),
            ),
    );
    let out = Channels::Query.result(g, x, weight, weight_scale, q);
    assert(out == channel(g, ws, xs, scale)) by {
        let c = Channels::Query;
        assert forall|h: int| 0 <= h < HIDDEN implies #[trigger] copy_at(x, c.home(q))[h]
            == xs[h] by {
            assert(c.home(q).plus(at_h(h)) == in_slice(q / 16, h));
        }
        assert(copy_at(x, c.home(q)) =~= xs);
        assert(Seq::new(HIDDEN as nat, |h: int| weight.at(c.spot(q, h))) =~= ws);
    }
}

/// A key or value feature is near the exact product of its row of weights with the
/// hidden features in its slice, times its scale.
pub proof fn law_key_value_is_near_the_product(
    m: Meaning,
    g: Arith,
    x: Tensor,
    weight: Tensor,
    weight_scale: Tensor,
    p: int,
)
    requires
        m.multiplies_well(g),
        0 <= p < KEY,
        calm_channel(
            m.calm,
            g,
            Seq::new(HIDDEN as nat, |h: int| weight.at(at_hp(h, p))),
            Seq::new(HIDDEN as nat, |h: int| x.at(in_slice(p / 8, h))),
            weight_scale.at(at_p(p)),
        ),
    ensures
        ({
            let e = sum(
                HIDDEN as int,
                |h: int|
                    (m.eight)(weight.at(at_hp(h, p))) * (m.sixteen)(
                        x.at(in_slice(p / 8, h)),
                    ),
            );
            let a = sum(
                HIDDEN as int,
                |h: int|
                    size(
                        (m.eight)(weight.at(at_hp(h, p))) * (m.sixteen)(
                            x.at(in_slice(p / 8, h)),
                        ),
                    ),
            );
            let s = (m.sixteen)(weight_scale.at(at_p(p)));
            let out = (m.sixteen)(Channels::KeyValue.result(g, x, weight, weight_scale, p));
            1000000real * size(out - e * s) <= size(s) * (386real * a + 3911real * size(e))
        }),
{
    let ws = Seq::new(HIDDEN as nat, |h: int| weight.at(at_hp(h, p)));
    let xs = Seq::new(HIDDEN as nat, |h: int| x.at(in_slice(p / 8, h)));
    let scale = weight_scale.at(at_p(p));
    law_channel_is_near_the_product(m, g, ws, xs, scale);
    lemma_sum_equal(
        HIDDEN as int,
        |h: int| (m.eight)(ws[h]) * (m.sixteen)(xs[h]),
        |h: int|
            (m.eight)(weight.at(at_hp(h, p))) * (m.sixteen)(
                x.at(in_slice(p / 8, h)),
            ),
    );
    lemma_sum_equal(
        HIDDEN as int,
        |h: int| size((m.eight)(ws[h]) * (m.sixteen)(xs[h])),
        |h: int|
            size(
                (m.eight)(weight.at(at_hp(h, p))) * (m.sixteen)(
                    x.at(in_slice(p / 8, h)),
                ),
            ),
    );
    let out = Channels::KeyValue.result(g, x, weight, weight_scale, p);
    assert(out == channel(g, ws, xs, scale)) by {
        let c = Channels::KeyValue;
        assert forall|h: int| 0 <= h < HIDDEN implies #[trigger] copy_at(x, c.home(p))[h]
            == xs[h] by {
            assert(c.home(p).plus(at_h(h)) == in_slice(p / 8, h));
        }
        assert(copy_at(x, c.home(p)) =~= xs);
        assert(Seq::new(HIDDEN as nat, |h: int| weight.at(c.spot(p, h))) =~= ws);
    }
}

/// A query feature that one of both clusters computes is near the exact product of its row of
/// weights with the hidden features in its slice, times its scale.
pub proof fn law_dual_query_is_near_the_product(
    m: Meaning,
    g: Arith,
    x: Tensor,
    weight: Tensor,
    weight_scale: Tensor,
    q: int,
)
    requires
        m.multiplies_well(g),
        0 <= q < QUERY,
        calm_channel(
            m.calm,
            g,
            Seq::new(HIDDEN as nat, |h: int| weight.at(at_hq(h, q))),
            Seq::new(HIDDEN as nat, |h: int| x.at(in_cluster(q / 2048, (q / 8) % 256, h))),
            weight_scale.at(at_q(q)),
        ),
    ensures
        ({
            let e = sum(
                HIDDEN as int,
                |h: int|
                    (m.eight)(weight.at(at_hq(h, q))) * (m.sixteen)(
                        x.at(in_cluster(q / 2048, (q / 8) % 256, h)),
                    ),
            );
            let a = sum(
                HIDDEN as int,
                |h: int|
                    size(
                        (m.eight)(weight.at(at_hq(h, q))) * (m.sixteen)(
                            x.at(in_cluster(q / 2048, (q / 8) % 256, h)),
                        ),
                    ),
            );
            let s = (m.sixteen)(weight_scale.at(at_q(q)));
            let out = (m.sixteen)(Channels::DualQuery.result(g, x, weight, weight_scale, q));
            1000000real * size(out - e * s) <= size(s) * (386real * a + 3911real * size(e))
        }),
{
    let ws = Seq::new(HIDDEN as nat, |h: int| weight.at(at_hq(h, q)));
    let xs = Seq::new(HIDDEN as nat, |h: int| x.at(in_cluster(q / 2048, (q / 8) % 256, h)));
    let scale = weight_scale.at(at_q(q));
    law_channel_is_near_the_product(m, g, ws, xs, scale);
    lemma_sum_equal(
        HIDDEN as int,
        |h: int| (m.eight)(ws[h]) * (m.sixteen)(xs[h]),
        |h: int|
            (m.eight)(weight.at(at_hq(h, q))) * (m.sixteen)(
                x.at(in_cluster(q / 2048, (q / 8) % 256, h)),
            ),
    );
    lemma_sum_equal(
        HIDDEN as int,
        |h: int| size((m.eight)(ws[h]) * (m.sixteen)(xs[h])),
        |h: int|
            size(
                (m.eight)(weight.at(at_hq(h, q))) * (m.sixteen)(
                    x.at(in_cluster(q / 2048, (q / 8) % 256, h)),
                ),
            ),
    );
    let out = Channels::DualQuery.result(g, x, weight, weight_scale, q);
    assert(out == channel(g, ws, xs, scale)) by {
        let c = Channels::DualQuery;
        assert forall|h: int| 0 <= h < HIDDEN implies #[trigger] copy_at(x, c.home(q))[h]
            == xs[h] by {
            assert(c.home(q).plus(at_h(h)) == in_cluster(q / 2048, (q / 8) % 256, h));
        }
        assert(copy_at(x, c.home(q)) =~= xs);
        assert(Seq::new(HIDDEN as nat, |h: int| weight.at(c.spot(q, h))) =~= ws);
    }
}

/// A key or value feature that one of both clusters computes is near the exact product of its row
/// of weights with the hidden features in its slice, times its scale.
pub proof fn law_dual_key_value_is_near_the_product(
    m: Meaning,
    g: Arith,
    x: Tensor,
    weight: Tensor,
    weight_scale: Tensor,
    p: int,
)
    requires
        m.multiplies_well(g),
        0 <= p < KEY,
        calm_channel(
            m.calm,
            g,
            Seq::new(HIDDEN as nat, |h: int| weight.at(at_hp(h, p))),
            Seq::new(HIDDEN as nat, |h: int| x.at(in_cluster(p / 1024, 2 * ((p / 8) % 128), h))),
            weight_scale.at(at_p(p)),
        ),
    ensures
        ({
            let e = sum(
                HIDDEN as int,
                |h: int|
                    (m.eight)(weight.at(at_hp(h, p))) * (m.sixteen)(
                        x.at(in_cluster(p / 1024, 2 * ((p / 8) % 128), h)),
                    ),
            );
            let a = sum(
                HIDDEN as int,
                |h: int|
                    size(
                        (m.eight)(weight.at(at_hp(h, p))) * (m.sixteen)(
                            x.at(in_cluster(p / 1024, 2 * ((p / 8) % 128), h)),
                        ),
                    ),
            );
            let s = (m.sixteen)(weight_scale.at(at_p(p)));
            let out = (m.sixteen)(Channels::DualKeyValue.result(g, x, weight, weight_scale, p));
            1000000real * size(out - e * s) <= size(s) * (386real * a + 3911real * size(e))
        }),
{
    let ws = Seq::new(HIDDEN as nat, |h: int| weight.at(at_hp(h, p)));
    let xs = Seq::new(HIDDEN as nat, |h: int| x.at(in_cluster(p / 1024, 2 * ((p / 8) % 128), h)));
    let scale = weight_scale.at(at_p(p));
    law_channel_is_near_the_product(m, g, ws, xs, scale);
    lemma_sum_equal(
        HIDDEN as int,
        |h: int| (m.eight)(ws[h]) * (m.sixteen)(xs[h]),
        |h: int|
            (m.eight)(weight.at(at_hp(h, p))) * (m.sixteen)(
                x.at(in_cluster(p / 1024, 2 * ((p / 8) % 128), h)),
            ),
    );
    lemma_sum_equal(
        HIDDEN as int,
        |h: int| size((m.eight)(ws[h]) * (m.sixteen)(xs[h])),
        |h: int|
            size(
                (m.eight)(weight.at(at_hp(h, p))) * (m.sixteen)(
                    x.at(in_cluster(p / 1024, 2 * ((p / 8) % 128), h)),
                ),
            ),
    );
    let out = Channels::DualKeyValue.result(g, x, weight, weight_scale, p);
    assert(out == channel(g, ws, xs, scale)) by {
        let c = Channels::DualKeyValue;
        assert forall|h: int| 0 <= h < HIDDEN implies #[trigger] copy_at(x, c.home(p))[h]
            == xs[h] by {
            assert(c.home(p).plus(at_h(h)) == in_cluster(p / 1024, 2 * ((p / 8) % 128), h));
        }
        assert(copy_at(x, c.home(p)) =~= xs);
        assert(Seq::new(HIDDEN as nat, |h: int| weight.at(c.spot(p, h))) =~= ws);
    }
}

/// With the hidden features labelled by the channels, a key or value feature is near the exact
/// product of its row of weights with them, times its scale.
pub proof fn law_one_kv_matrix_is_near_the_product(
    m: Meaning,
    g: Arith,
    x: Tensor,
    weight: Tensor,
    weight_scale: Tensor,
    p: int,
)
    requires
        m.multiplies_well(g),
        0 <= p < KEY,
        calm_channel(
            m.calm,
            g,
            Seq::new(HIDDEN as nat, |h: int| weight.at(at_hp(h, p))),
            Seq::new(HIDDEN as nat, |h: int| x.at(at_hp(h, p))),
            weight_scale.at(at_p(p)),
        ),
    ensures
        ({
            let e = sum(
                HIDDEN as int,
                |h: int|
                    (m.eight)(weight.at(at_hp(h, p))) * (m.sixteen)(
                        x.at(at_hp(h, p)),
                    ),
            );
            let a = sum(
                HIDDEN as int,
                |h: int|
                    size(
                        (m.eight)(weight.at(at_hp(h, p))) * (m.sixteen)(
                            x.at(at_hp(h, p)),
                        ),
                    ),
            );
            let s = (m.sixteen)(weight_scale.at(at_p(p)));
            let out = (m.sixteen)(Channels::KeyValue.value(g, x, weight, weight_scale, p));
            1000000real * size(out - e * s) <= size(s) * (386real * a + 3911real * size(e))
        }),
{
    let ws = Seq::new(HIDDEN as nat, |h: int| weight.at(at_hp(h, p)));
    let xs = Seq::new(HIDDEN as nat, |h: int| x.at(at_hp(h, p)));
    let scale = weight_scale.at(at_p(p));
    law_channel_is_near_the_product(m, g, ws, xs, scale);
    lemma_sum_equal(
        HIDDEN as int,
        |h: int| (m.eight)(ws[h]) * (m.sixteen)(xs[h]),
        |h: int|
            (m.eight)(weight.at(at_hp(h, p))) * (m.sixteen)(
                x.at(at_hp(h, p)),
            ),
    );
    lemma_sum_equal(
        HIDDEN as int,
        |h: int| size((m.eight)(ws[h]) * (m.sixteen)(xs[h])),
        |h: int|
            size(
                (m.eight)(weight.at(at_hp(h, p))) * (m.sixteen)(
                    x.at(at_hp(h, p)),
                ),
            ),
    );
    let out = Channels::KeyValue.value(g, x, weight, weight_scale, p);
    assert(out == channel(g, ws, xs, scale)) by {
        let c = Channels::KeyValue;
        assert(Seq::new(HIDDEN as nat, |h: int| x.at(c.spot(p, h))) =~= xs);
        assert(Seq::new(HIDDEN as nat, |h: int| weight.at(c.spot(p, h))) =~= ws);
    }
}

/// With the hidden features labelled by the channels of both clusters, a key or value feature is
/// near the exact product of its row of weights with them, times its scale.
pub proof fn law_dual_one_kv_matrix_is_near_the_product(
    m: Meaning,
    g: Arith,
    x: Tensor,
    weight: Tensor,
    weight_scale: Tensor,
    p: int,
)
    requires
        m.multiplies_well(g),
        0 <= p < KEY,
        calm_channel(
            m.calm,
            g,
            Seq::new(HIDDEN as nat, |h: int| weight.at(at_hp(h, p))),
            Seq::new(HIDDEN as nat, |h: int| x.at(at_hp(h, p))),
            weight_scale.at(at_p(p)),
        ),
    ensures
        ({
            let e = sum(
                HIDDEN as int,
                |h: int|
                    (m.eight)(weight.at(at_hp(h, p))) * (m.sixteen)(
                        x.at(at_hp(h, p)),
                    ),
            );
            let a = sum(
                HIDDEN as int,
                |h: int|
                    size(
                        (m.eight)(weight.at(at_hp(h, p))) * (m.sixteen)(
                            x.at(at_hp(h, p)),
                        ),
                    ),
            );
            let s = (m.sixteen)(weight_scale.at(at_p(p)));
            let out = (m.sixteen)(Channels::DualKeyValue.value(g, x, weight, weight_scale, p));
            1000000real * size(out - e * s) <= size(s) * (386real * a + 3911real * size(e))
        }),
{
    let ws = Seq::new(HIDDEN as nat, |h: int| weight.at(at_hp(h, p)));
    let xs = Seq::new(HIDDEN as nat, |h: int| x.at(at_hp(h, p)));
    let scale = weight_scale.at(at_p(p));
    law_channel_is_near_the_product(m, g, ws, xs, scale);
    lemma_sum_equal(
        HIDDEN as int,
        |h: int| (m.eight)(ws[h]) * (m.sixteen)(xs[h]),
        |h: int|
            (m.eight)(weight.at(at_hp(h, p))) * (m.sixteen)(
                x.at(at_hp(h, p)),
            ),
    );
    lemma_sum_equal(
        HIDDEN as int,
        |h: int| size((m.eight)(ws[h]) * (m.sixteen)(xs[h])),
        |h: int|
            size(
                (m.eight)(weight.at(at_hp(h, p))) * (m.sixteen)(
                    x.at(at_hp(h, p)),
                ),
            ),
    );
    let out = Channels::DualKeyValue.value(g, x, weight, weight_scale, p);
    assert(out == channel(g, ws, xs, scale)) by {
        let c = Channels::DualKeyValue;
        assert(Seq::new(HIDDEN as nat, |h: int| x.at(c.spot(p, h))) =~= xs);
        assert(Seq::new(HIDDEN as nat, |h: int| weight.at(c.spot(p, h))) =~= ws);
    }
}

/// The copy that a slice holds is the hidden features, cell by cell.
pub proof fn law_copies_hold_the_features(x: Tensor, out: Tensor, s: int, h: int)
    requires
        copy_at(x, origin()) == copy_at(out, on_slice(s)),
        0 <= h < HIDDEN,
    ensures
        out.at(in_slice(s, h)) == x.at(at_h(h)),
{
    assert(origin().plus(at_h(h)) == at_h(h));
    assert(on_slice(s).plus(at_h(h)) == in_slice(s, h));
    let (a, b) = (copy_at(x, origin()), copy_at(out, on_slice(s)));
    assert(a[h] == x.at(origin().plus(at_h(h))));
    assert(b[h] == out.at(on_slice(s).plus(at_h(h))));
}

/// The copy that a slice of a cluster holds is the hidden features, cell by cell.
pub proof fn law_dual_copies_hold_the_features(
    x: Tensor,
    out: Tensor,
    cluster: int,
    s: int,
    h: int,
)
    requires
        copy_at(x, origin()) == copy_at(out, on_cluster(cluster, s)),
        0 <= h < HIDDEN,
    ensures
        out.at(in_cluster(cluster, s, h)) == x.at(at_h(h)),
{
    assert(origin().plus(at_h(h)) == at_h(h));
    assert(on_cluster(cluster, s).plus(at_h(h)) == in_cluster(cluster, s, h));
    let (a, b) = (copy_at(x, origin()), copy_at(out, on_cluster(cluster, s)));
    assert(a[h] == x.at(origin().plus(at_h(h))));
    assert(b[h] == out.at(on_cluster(cluster, s).plus(at_h(h))));
}

/// The place of query feature `q` in the copy that output row `h` is computed from.
pub open spec fn in_output_slice(h: int, q: int) -> Point {
    Point { h: 1920 * (h / 1920), q, ring: 4 * ((h / 30) % 64), ..origin() }
}

impl Meaning {
    /// What `n` query features from `from` on add to output row `h`.
    pub open spec fn output_sum(
        self,
        x: Tensor,
        weight: Tensor,
        h: int,
        from: int,
        n: int,
    ) -> real {
        sum(
            n,
            |k: int|
                (self.eight)(weight.at(at_hq(h, from + k))) * (self.sixteen)(
                    x.at(in_output_slice(h, from + k)),
                ),
        )
    }

    /// The sizes of what `n` query features from `from` on add to output row `h`.
    pub open spec fn output_bulk(
        self,
        x: Tensor,
        weight: Tensor,
        h: int,
        from: int,
        n: int,
    ) -> real {
        sum(
            n,
            |k: int|
                size(
                    (self.eight)(weight.at(at_hq(h, from + k))) * (self.sixteen)(
                        x.at(in_output_slice(h, from + k)),
                    ),
                ),
        )
    }
}

/// The weights of an output row from query feature `from` on.
pub open spec fn half_weights(weight: Tensor, h: int, from: int) -> Seq<u32> {
    Seq::new(2048, |k: int| weight.at(at_hq(h, from + k)))
}

/// The query features that an output row meets from `from` on.
pub open spec fn half_features(x: Tensor, h: int, from: int) -> Seq<u32> {
    Seq::new(2048, |k: int| x.at(in_output_slice(h, from + k)))
}

/// Half a row of the output projection is near the exact product of its weights with half of the
/// query features: the error is that of one rounding, and of the contraction.
pub proof fn law_output_half_is_near_the_product(
    m: Meaning,
    g: Arith,
    x: Tensor,
    weight: Tensor,
    h: int,
    offset: int,
)
    requires
        m.multiplies_well(g),
        calm_row(m.calm, g, half_weights(weight, h, offset), half_features(x, h, offset)),
    ensures
        ({
            let v = (m.sixteen)(
                partial_value(g, output_weights(weight, h, offset), output_input(x, h, offset)),
            );
            let e = m.output_sum(x, weight, h, offset, 2048);
            let a = m.output_bulk(x, weight, h, offset, 2048);
            &&& 10000000real * size(v - e) <= 2052real * a + 19532real * size(e)
            &&& 0real <= a
        }),
{
    let ws = half_weights(weight, h, offset);
    let xs = half_features(x, h, offset);
    assert(output_weights(weight, h, offset) =~= ws);
    assert forall|k: int| 0 <= k < 2048 implies #[trigger] output_input(x, h, offset)[k]
        == xs[k] by {
        assert(output_home(h).plus(at_q(offset + k)) == in_output_slice(h, offset + k));
    }
    assert(output_input(x, h, offset) =~= xs);
    lemma_row_near(m, g, ws, xs);
    lemma_sum_equal(
        2048,
        |k: int| (m.eight)(ws[k]) * (m.sixteen)(xs[k]),
        |k: int|
            (m.eight)(weight.at(at_hq(h, offset + k))) * (m.sixteen)(
                x.at(in_output_slice(h, offset + k)),
            ),
    );
    lemma_sum_equal(
        2048,
        |k: int| size((m.eight)(ws[k]) * (m.sixteen)(xs[k])),
        |k: int|
            size(
                (m.eight)(weight.at(at_hq(h, offset + k))) * (m.sixteen)(
                    x.at(in_output_slice(h, offset + k)),
                ),
            ),
    );
    assert(xs.len() as real == 2048real);
}

/// Every request of an output row in two halves is harmless.
pub open spec fn calm_output_row(
    calm: Calm,
    g: Arith,
    x: Tensor,
    weight: Tensor,
    weight_scale: Tensor,
    h: int,
) -> bool {
    let (wl, wr) = (half_weights(weight, h, 0), half_weights(weight, h, 2048));
    let (xl, xr) = (half_features(x, h, 0), half_features(x, h, 2048));
    let left = partial_value(g, wl, xl);
    let right = partial_value(g, wr, xr);
    &&& calm_row(calm, g, wl, xl)
    &&& calm_row(calm, g, wr, xr)
    &&& calm_halves(calm, g, left, right)
    &&& calm_product(
        calm,
        g,
        rounded_sum(g, left, right),
        one(g, Op::WidenBf16, weight_scale.at(at_h(h))),
    )
}

/// The errors of an output row in two halves, put together.
proof fn lemma_output_row_sizes(
    a: real,
    p: real,
    e: real,
    d: real,
    t: real,
    dv: real,
    k: real,
    oe: real,
)
    requires
        0real <= a,
        0real <= p,
        0real <= e,
        0real <= k,
        10000000real * d <= 2052real * a + 19532real * p,
        t <= e + d,
        10000000real * dv <= 10000000real * d + 19533real * t,
        10000000real * oe <= k * (10000000real * dv + 19533real * (e + dv)),
    ensures
        1000000real * oe <= k * (207real * a + 1961real * p + 3911real * e),
{
    let x = 10000000real * dv + 19533real * (e + dv);
    let y = 207real * a + 1961real * p + 3911real * e;
    assert(x <= 10real * y);
    assert(k * x <= 10real * (k * y)) by (nonlinear_arith)
        requires
            x <= 10real * y,
            0real <= k,
    ;
}

/// The output projection in two halves is near the exact product of its weights with all query
/// features, times the scale of the row: the error is that of the roundings of the halves, of their
/// sum and of the result, and of the contractions.
pub proof fn law_output_is_near_the_product(
    m: Meaning,
    g: Arith,
    x: Tensor,
    weight: Tensor,
    weight_scale: Tensor,
    h: int,
)
    requires
        m.multiplies_well(g),
        m.adds_near(g, Op::ClipSum),
        calm_output_row(m.calm, g, x, weight, weight_scale, h),
    ensures
        ({
            let e = m.output_sum(x, weight, h, 0, QUERY as int);
            let a = m.output_bulk(x, weight, h, 0, QUERY as int);
            let p = size(m.output_sum(x, weight, h, 0, 2048)) + size(
                m.output_sum(x, weight, h, 2048, 2048),
            );
            let s = (m.sixteen)(weight_scale.at(at_h(h)));
            let out = (m.sixteen)(output_value(g, x, weight, weight_scale, h));
            1000000real * size(out - e * s) <= size(s) * (207real * a + 1961real * p + 3911real
                * size(e))
        }),
{
    let (wl, wr) = (output_weights(weight, h, 0), output_weights(weight, h, 2048));
    let (xl, xr) = (output_input(x, h, 0), output_input(x, h, 2048));
    assert(wl =~= half_weights(weight, h, 0));
    assert(wr =~= half_weights(weight, h, 2048));
    assert forall|k: int| 0 <= k < 2048 implies #[trigger] xl[k] == half_features(x, h, 0)[k] by {
        assert(output_home(h).plus(at_q(0 + k)) == in_output_slice(h, 0 + k));
    }
    assert(xl =~= half_features(x, h, 0));
    assert forall|k: int| 0 <= k < 2048 implies #[trigger] xr[k] == half_features(
        x,
        h,
        2048,
    )[k] by {
        assert(output_home(h).plus(at_q(2048 + k)) == in_output_slice(h, 2048 + k));
    }
    assert(xr =~= half_features(x, h, 2048));
    let (left, right) = (partial_value(g, wl, xl), partial_value(g, wr, xr));
    let sum_up = rounded_sum(g, left, right);
    let scale = weight_scale.at(at_h(h));
    law_output_half_is_near_the_product(m, g, x, weight, h, 0);
    law_output_half_is_near_the_product(m, g, x, weight, h, 2048);
    law_halves_add_up(m, g, left, right);
    let (e0, e1) = (
        m.output_sum(x, weight, h, 0, 2048),
        m.output_sum(x, weight, h, 2048, 2048),
    );
    let (a0, a1) = (
        m.output_bulk(x, weight, h, 0, 2048),
        m.output_bulk(x, weight, h, 2048, 2048),
    );
    let e = m.output_sum(x, weight, h, 0, QUERY as int);
    let a = m.output_bulk(x, weight, h, 0, QUERY as int);
    let term = |k: int|
        (m.eight)(weight.at(at_hq(h, 0 + k))) * (m.sixteen)(x.at(in_output_slice(h, 0 + k)));
    let later = |k: int|
        (m.eight)(weight.at(at_hq(h, 2048 + k))) * (m.sixteen)(x.at(in_output_slice(h, 2048 + k)));
    let bulk = |k: int| size(term(k));
    let bulk_later = |k: int| size(later(k));
    lemma_sum_stretches(2048, 2048, term, later);
    lemma_sum_stretches(2048, 2048, bulk, bulk_later);
    assert(e == e0 + e1);
    assert(a == a0 + a1) by {
        let plain = |k: int|
            size(
                (m.eight)(weight.at(at_hq(h, 0 + k))) * (m.sixteen)(
                    x.at(in_output_slice(h, 0 + k)),
                ),
            );
        let plain_later = |k: int|
            size(
                (m.eight)(weight.at(at_hq(h, 2048 + k))) * (m.sixteen)(
                    x.at(in_output_slice(h, 2048 + k)),
                ),
            );
        lemma_sum_equal(4096, plain, bulk);
        lemma_sum_equal(2048, plain, bulk);
        lemma_sum_equal(2048, plain_later, bulk_later);
    }
    let (l, r) = ((m.sixteen)(left), (m.sixteen)(right));
    let v = (m.sixteen)(sum_up);
    let d = size(l - e0) + size(r - e1);
    let dv = size(v - e);
    lemma_triangle(v - (l + r), l - e0, r - e1);
    lemma_triangle(l - e0, r - e1, e);
    lemma_product_near(m, g, sum_up, scale, e, dv);
    lemma_output_row_sizes(
        a,
        size(e0) + size(e1),
        size(e),
        d,
        size(l + r),
        dv,
        size((m.sixteen)(scale)),
        size((m.sixteen)(product(g, sum_up, scale)) - e * (m.sixteen)(scale)),
    );
}

/// A sum over four stretches of 1024.
proof fn lemma_sum_quarters(f: spec_fn(int) -> real, quarters: spec_fn(int) -> real)
    requires
        forall|i: int|
            0 <= i < 4 ==> #[trigger] quarters(i) == sum(1024, |k: int| f(1024 * i + k)),
    ensures
        sum(4096, f) == sum(4, quarters),
{
    lemma_sum_stretches(3072, 1024, f, |k: int| f(1024 * 3 + k));
    lemma_sum_stretches(2048, 1024, f, |k: int| f(1024 * 2 + k));
    lemma_sum_stretches(1024, 1024, f, |k: int| f(1024 * 1 + k));
    lemma_sum_stretches(0, 1024, f, |k: int| f(1024 * 0 + k));
    reveal_with_fuel(sum, 5);
    assert(sum(0, f) == 0real);
    assert(quarters(0) == sum(1024, |k: int| f(1024 * 0 + k)));
    assert(quarters(1) == sum(1024, |k: int| f(1024 * 1 + k)));
    assert(quarters(2) == sum(1024, |k: int| f(1024 * 2 + k)));
    assert(quarters(3) == sum(1024, |k: int| f(1024 * 3 + k)));
    assert(sum(4, quarters) == quarters(0) + quarters(1) + quarters(2) + quarters(3));
}

/// The errors of an output row by quarters, put together.
proof fn lemma_sharded_sizes(z: real, e: real, r: real, dr: real, d: real, k: real, oe: real)
    requires
        0real <= z,
        0real <= e,
        0real <= k,
        10000real * dr <= 2804real * z,
        r <= e + dr,
        512real * d <= 512real * dr + r,
        10000000real * oe <= k * (10000000real * d + 19533real * (e + d)),
    ensures
        1000000real * oe <= k * (282000real * z + 3911real * e),
{
    let (x, y) = (10000000real * d + 19533real * (e + d), 282000real * z + 3911real * e);
    assert(x <= 10real * y);
    assert(k * x <= 10real * (k * y)) by (nonlinear_arith)
        requires
            x <= 10real * y,
            0real <= k,
    ;
}

/// The query features of the quarter that `q` is in, as output row `h` meets them.
pub open spec fn quarter_features(x: Tensor, h: int, q: int) -> Seq<u32> {
    Seq::new(1024, |k: int| x.at(at_hq(h, 1024 * (q / 1024) + k)))
}

/// The output projection by quarters is near the exact product of its weights with all query
/// features, times the scale of the row: the error is that of two roundings, and what the split
/// leaves.
pub proof fn law_sharded_output_is_near_the_sum(
    m: Meaning,
    g: Arith,
    x: Tensor,
    weight: Tensor,
    weight_scale: Tensor,
    h: int,
)
    requires
        m.rounds_well(g),
        forall|quarter: int|
            #![trigger quarter_input(x, h, quarter)]
            0 <= quarter < 4 ==> calm_group(m.calm, g, quarter_input(x, h, quarter)),
        calm_output(m.calm, g, x, weight, weight_scale, h),
    ensures
        ({
            let e = sum(
                4096,
                |q: int| (m.eight)(weight.at(at_hq(h, q))) * (m.sixteen)(x.at(at_hq(h, q))),
            );
            let z = sum(
                4096,
                |q: int|
                    size((m.eight)(weight.at(at_hq(h, q)))) * (m.full)(
                        group_scale(g, quarter_features(x, h, q)),
                    ),
            );
            let s = (m.sixteen)(weight_scale.at(at_h(h)));
            let out = (m.sixteen)(sharded_value(g, x, weight, weight_scale, h));
            1000000real * size(out - e * s) <= size(s) * (282000real * z + 3911real * size(e))
        }),
{
    let raw = |q: int| (m.eight)(weight.at(at_hq(h, q))) * (m.sixteen)(x.at(at_hq(h, q)));
    let raws = |q: int|
        size((m.eight)(weight.at(at_hq(h, q)))) * (m.full)(
            group_scale(g, quarter_features(x, h, q)),
        );
    let exact = |i: int|
        m.plain_product(quarter_weights(weight, h, i), quarter_input(x, h, i));
    let spread = |i: int|
        m.plain_spread(
            quarter_weights(weight, h, i),
            (m.full)(group_scale(g, quarter_input(x, h, i))),
        );
    assert forall|i: int|
        #![trigger exact(i)]
        #![trigger spread(i)]
        0 <= i < 4 implies exact(i) == sum(1024, |k: int| raw(1024 * i + k)) && spread(i) == sum(
        1024,
        |k: int| raws(1024 * i + k),
    ) by {
        let (w, v) = (quarter_weights(weight, h, i), quarter_input(x, h, i));
        let s = (m.full)(group_scale(g, v));
        let own = |k: int| (m.eight)(w[k]) * (m.sixteen)(v[k]);
        let owns = |k: int| size((m.eight)(w[k])) * s;
        assert forall|k: int|
            #![trigger own(k)]
            #![trigger owns(k)]
            0 <= k < 1024 implies own(k) == raw(1024 * i + k) && owns(k) == raws(1024 * i + k) by {
            let q = 1024 * i + k;
            assert(q / 1024 == i);
            assert(w[k] == weight.at(at_hq(h, q)) && v[k] == x.at(at_hq(h, q)));
            assert(quarter_features(x, h, q) =~= v);
        }
        lemma_sum_equal(1024, own, |k: int| raw(1024 * i + k));
        lemma_sum_equal(1024, owns, |k: int| raws(1024 * i + k));
    }
    lemma_sum_quarters(raw, exact);
    lemma_sum_quarters(raws, spread);
    lemma_quarters_error(m, g, x, weight, h);
    let (e, z) = (sum(4096, raw), sum(4096, raws));
    let rp = fold(g, Op::TotalAcrossSlices, row_totals(g, x, weight, h));
    let r = (m.full)(rp);
    let vp = one(g, Op::NarrowBf16, rp);
    let v = (m.sixteen)(vp);
    assert(512real * size(v - r) <= size(r)) by {
        reveal(Meaning::rounds_near);
    }
    lemma_triangle(v - r, r - e, 0real);
    lemma_triangle(r - e, e, 0real);
    let d = size(v - e);
    let scale = weight_scale.at(at_h(h));
    lemma_product_near(m, g, vp, scale, e, d);
    assert(sharded_value(g, x, weight, weight_scale, h) == product(g, vp, scale));
    lemma_sharded_sizes(
        z,
        size(e),
        size(r),
        size(r - e),
        d,
        size((m.sixteen)(scale)),
        size((m.sixteen)(product(g, vp, scale)) - e * (m.sixteen)(scale)),
    );
}

} // verus!
