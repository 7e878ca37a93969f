//! The attention projections: hidden features to query, key and value features.
use crate::engine::{computes, one, total, two, Arith, Op};
use crate::layout::{
    at_h, at_hp, at_hq, at_p, at_q, lemma_dense_live, lemma_place_four, lemma_place_one,
    lemma_place_three, lemma_place_two, lemma_split, lemma_three_digits, lemma_two_digits, only,
    origin, Axis, Layout, Point,
};
use crate::places::{
    digit, dual_kv_rows, dual_kv_single, dual_query_rows, dual_query_single, dual_replicated,
    dual_rings, dual_shards, hidden, hidden_rings, hidden_shards, key, kv_rows,
    lemma_hidden_row_covers, lemma_steps, pad, query, query_rows, replicated, single, term, HIDDEN,
    KEY, QUERY,
};
use crate::tensor::{lemma_slice, ring_local, row, slice_of, Format, Tensor};
use vstd::arithmetic::div_mod::lemma_fundamental_div_mod_converse;
use vstd::arithmetic::mul::lemma_mul_is_commutative;
use vstd::prelude::*;

verus! {

/// 8-bit weights as bfloat16 values.
pub open spec fn decoded_f8(g: Arith, weights: Seq<u32>) -> Seq<u32> {
    Seq::new(weights.len(), |k: int| one(g, Op::LookupF8AsBf16, weights[k]))
}

/// A bfloat16 times a bfloat16, rounded.
pub open spec fn product(g: Arith, x: u32, y: u32) -> u32 {
    one(
        g,
        Op::NarrowBf16,
        two(g, Op::Multiply, one(g, Op::WidenBf16, x), one(g, Op::WidenBf16, y)),
    )
}

/// One output channel: a row of weights against the values, rounded, times the channel's scale,
/// rounded again.
pub open spec fn channel(g: Arith, weights: Seq<u32>, xs: Seq<u32>, scale: u32) -> u32 {
    product(g, one(g, Op::NarrowBf16, g(Op::ContractBf16, decoded_f8(g, weights), xs)), scale)
}

/// How the output channels of a projection lie in the slices.
#[derive(Clone, Copy, PartialEq, Eq, Structural, Debug)]
pub enum Channels {
    /// Sixteen query features in each slice of the first cluster.
    Query,
    /// Eight key or value features in each slice of the first cluster.
    KeyValue,
    /// Eight query features in each slice of both clusters.
    DualQuery,
    /// Eight key or value features in every second slice of both clusters.
    DualKeyValue,
}

impl Channels {
    /// A layout whose first factors choose the slice.
    #[verifier::allow_in_spec]
    pub fn lay(self, rest: Layout) -> Layout
        returns
            (match self {
                Channels::Query => query_rows(rest),
                Channels::KeyValue => kv_rows(rest),
                Channels::DualQuery => dual_query_rows(rest),
                Channels::DualKeyValue => dual_kv_rows(rest),
            }),
    {
        match self {
            Channels::Query => query_rows(rest),
            Channels::KeyValue => kv_rows(rest),
            Channels::DualQuery => dual_query_rows(rest),
            Channels::DualKeyValue => dual_kv_rows(rest),
        }
    }

    /// The axis of the channels.
    #[verifier::allow_in_spec]
    pub fn axis(self) -> Axis
        returns
            (match self {
                Channels::Query => Axis::Q,
                Channels::KeyValue => Axis::P,
                Channels::DualQuery => Axis::Q,
                Channels::DualKeyValue => Axis::P,
            }),
    {
        match self {
            Channels::Query => Axis::Q,
            Channels::KeyValue => Axis::P,
            Channels::DualQuery => Axis::Q,
            Channels::DualKeyValue => Axis::P,
        }
    }

    /// Number of channels in a slice.
    #[verifier::allow_in_spec]
    pub fn rows(self) -> usize
        returns
            (match self {
                Channels::Query => 16usize,
                Channels::KeyValue => 8usize,
                Channels::DualQuery => 8usize,
                Channels::DualKeyValue => 8usize,
            }),
    {
        match self {
            Channels::Query => 16,
            Channels::KeyValue => 8,
            Channels::DualQuery => 8,
            Channels::DualKeyValue => 8,
        }
    }

    /// Number of channels.
    #[verifier::allow_in_spec]
    pub fn count(self) -> usize
        returns
            (match self {
                Channels::Query => QUERY,
                Channels::KeyValue => KEY,
                Channels::DualQuery => QUERY,
                Channels::DualKeyValue => KEY,
            }),
    {
        match self {
            Channels::Query => QUERY,
            Channels::KeyValue => KEY,
            Channels::DualQuery => QUERY,
            Channels::DualKeyValue => KEY,
        }
    }

    /// The point of channel `r`.
    pub open spec fn at(self, r: int) -> Point {
        match self {
            Channels::Query => at_q(r),
            Channels::KeyValue => at_p(r),
            Channels::DualQuery => at_q(r),
            Channels::DualKeyValue => at_p(r),
        }
    }

    /// The point of hidden feature `h` in channel `r`.
    pub open spec fn spot(self, r: int, h: int) -> Point {
        match self {
            Channels::Query => at_hq(h, r),
            Channels::KeyValue => at_hp(h, r),
            Channels::DualQuery => at_hq(h, r),
            Channels::DualKeyValue => at_hp(h, r),
        }
    }

    /// What channel `r` makes of the values that it meets in `x`.
    pub open spec fn value(
        self,
        g: Arith,
        x: Tensor,
        weight: Tensor,
        scale: Tensor,
        r: int,
    ) -> u32 {
        channel(
            g,
            Seq::new(HIDDEN as nat, |h: int| weight.at(self.spot(r, h))),
            Seq::new(HIDDEN as nat, |h: int| x.at(self.spot(r, h))),
            scale.at(self.at(r)),
        )
    }
}

proof fn lemma_channels_wf(c: Channels)
    ensures
        c.lay(digit(c.axis(), 1, c.rows(), hidden())).wf(),
        c.lay(digit(c.axis(), 1, c.rows(), Layout::End)).wf(),
        hidden().wf(),
{
    reveal_with_fuel(Layout::volume, 8);
    reveal_with_fuel(Layout::reach, 8);
    reveal_with_fuel(Layout::terms_wf, 8);
    match c {
        Channels::Query => {},
        Channels::KeyValue => {},
        Channels::DualQuery => {},
        Channels::DualKeyValue => {},
    }
    assert(c.lay(digit(c.axis(), 1, c.rows(), hidden())).wf());
    assert(c.lay(digit(c.axis(), 1, c.rows(), Layout::End)).wf());
}

proof fn lemma_channels_covers(c: Channels, r: int, h: int)
    requires
        0 <= r < c.count(),
        0 <= h < HIDDEN,
    ensures
        c.lay(digit(c.axis(), 1, c.rows(), hidden())).covers(c.spot(r, h)),
        c.lay(digit(c.axis(), 1, c.rows(), Layout::End)).covers(c.at(r)),
{
    reveal_with_fuel(Layout::kept, 8);
    lemma_two_digits(h, 1, HIDDEN as int);
    match c {
        Channels::Query => {
            lemma_two_digits(r, 16, 256);
        },
        Channels::KeyValue => {
            lemma_two_digits(r, 8, 256);
        },
        Channels::DualQuery => {
            lemma_three_digits(r, 8, 256, 2048, 2);
        },
        Channels::DualKeyValue => {
            lemma_three_digits(r, 8, 128, 1024, 2);
        },
    }
    assert(c.lay(digit(c.axis(), 1, c.rows(), hidden())).covers(c.spot(r, h)));
    assert(c.lay(digit(c.axis(), 1, c.rows(), Layout::End)).covers(c.at(r)));
}

/// Projects the copy of the hidden features in each slice to the channels of that slice.
fn project_channels<F: Fn(Op, Vec<u32>, Vec<u32>) -> u32>(
    alu: &F,
    c: Channels,
    x: &Tensor,
    weight: &Tensor,
    weight_scale: &Tensor,
) -> (out: Tensor)
    requires
        total(*alu),
        x.is(Format::Bf16, c.lay(hidden())),
        weight.is(Format::F8, digit(c.axis(), 1, c.count(), hidden())),
        weight_scale.is(Format::Bf16, digit(c.axis(), 1, c.count(), Layout::End)),
    ensures
        out.is(Format::Bf16, c.lay(digit(c.axis(), 1, c.rows(), Layout::End))),
        out.blank_padding(),
        forall|g: Arith, r: int|
            #![trigger computes(*alu, g), c.at(r)]
            computes(*alu, g) && 0 <= r < c.count() ==> out.at(c.at(r)) == c.value(
                g,
                *x,
                *weight,
                *weight_scale,
                r,
            ),
{
    proof {
        lemma_channels_wf(c);
        lemma_steps(Axis::H, 1, HIDDEN, 0);
    }
    let rows = c.lay(digit(c.axis(), 1, c.rows(), Layout::End));
    let weight_f8 = weight.relayout(c.lay(digit(c.axis(), 1, c.rows(), hidden())));
    let native = weight_f8.map(
        alu,
        Op::LookupF8AsBf16,
        Format::Bf16,
        c.lay(digit(c.axis(), 1, c.rows(), hidden())),
    );
    let sums = native.contract(alu, Op::ContractBf16, x, &hidden(), Format::F32, rows.duplicate());
    let contraction = sums.map(alu, Op::NarrowBf16, Format::Bf16, rows.duplicate());
    let scales = weight_scale.relayout(rows.duplicate());
    let wide_scales = scales.map(alu, Op::WidenBf16, Format::F32, rows.duplicate());
    let wide = contraction.map(alu, Op::WidenBf16, Format::F32, rows.duplicate());
    let products = wide.zip(alu, Op::Multiply, &wide_scales, Format::F32, rows.duplicate());
    let out = products.map(alu, Op::NarrowBf16, Format::Bf16, rows);
    proof {
        assert forall|g: Arith, r: int|
            #![trigger computes(*alu, g), c.at(r)]
            computes(*alu, g) && 0 <= r < c.count() implies out.at(c.at(r)) == c.value(
            g,
            *x,
            *weight,
            *weight_scale,
            r,
        ) by {
            let p = c.at(r);
            let ws = Seq::new(HIDDEN as nat, |h: int| weight.at(c.spot(r, h)));
            let xs = Seq::new(HIDDEN as nat, |h: int| x.at(c.spot(r, h)));
            lemma_channels_covers(c, r, 0);
            assert forall|h: int|
                #![trigger decoded_f8(g, ws)[h]]
                #![trigger xs[h]]
                0 <= h < HIDDEN implies row(native, hidden(), p)[h] == decoded_f8(g, ws)[h] && row(
                *x,
                hidden(),
                p,
            )[h] == xs[h] by {
                lemma_steps(Axis::H, 1, HIDDEN, h);
                assert(p.plus(only(Axis::H, h * 1)) == c.spot(r, h));
                lemma_channels_covers(c, r, h);
                assert(weight_f8.at(c.spot(r, h)) == weight.at(c.spot(r, h)));
            }
            assert(row(native, hidden(), p) =~= decoded_f8(g, ws));
            assert(row(*x, hidden(), p) =~= xs);
            assert(sums.at(p) == g(Op::ContractBf16, decoded_f8(g, ws), xs));
            assert(contraction.at(p) == one(g, Op::NarrowBf16, sums.at(p)));
            assert(scales.at(p) == weight_scale.at(p));
            assert(wide_scales.at(p) == one(g, Op::WidenBf16, scales.at(p)));
            assert(wide.at(p) == one(g, Op::WidenBf16, contraction.at(p)));
            assert(products.at(p) == two(g, Op::Multiply, wide.at(p), wide_scales.at(p)));
        }
    }
    out
}

/// The copy of the hidden features that begins at `place`.
pub open spec fn copy_at(x: Tensor, place: Point) -> Seq<u32> {
    Seq::new(HIDDEN as nat, |h: int| x.at(place.plus(at_h(h))))
}

impl Channels {
    /// The layout of the copies of the hidden features that the channels are computed from.
    #[verifier::allow_in_spec]
    pub fn copies(self) -> Layout
        returns
            (match self {
                Channels::Query => replicated(hidden()),
                Channels::KeyValue => replicated(hidden()),
                Channels::DualQuery => dual_replicated(hidden()),
                Channels::DualKeyValue => dual_replicated(hidden()),
            }),
    {
        match self {
            Channels::Query => replicated(hidden()),
            Channels::KeyValue => replicated(hidden()),
            Channels::DualQuery => dual_replicated(hidden()),
            Channels::DualKeyValue => dual_replicated(hidden()),
        }
    }

    /// Where the copy lies that channel `r` is computed from: in the slice of the channel.
    pub open spec fn home(self, r: int) -> Point {
        match self {
            Channels::Query => Point { ring: r / 16, ..origin() },
            Channels::KeyValue => Point { ring: r / 8, ..origin() },
            Channels::DualQuery => Point {
                q: 2048 * (r / 2048),
                ring: (r / 8) % 256,
                ..origin()
            },
            Channels::DualKeyValue => Point {
                q: 2048 * (r / 1024),
                ring: 2 * ((r / 8) % 128),
                ..origin()
            },
        }
    }

    /// What channel `r` makes of its copy of the hidden features.
    pub open spec fn result(
        self,
        g: Arith,
        x: Tensor,
        weight: Tensor,
        scale: Tensor,
        r: int,
    ) -> u32 {
        channel(
            g,
            Seq::new(HIDDEN as nat, |h: int| weight.at(self.spot(r, h))),
            copy_at(x, self.home(r)),
            scale.at(self.at(r)),
        )
    }
}

proof fn lemma_copies_wf(c: Channels)
    ensures
        c.copies().wf(),
        c.lay(hidden()).wf(),
        c.copies().volume() == c.lay(hidden()).volume(),
{
    reveal_with_fuel(Layout::volume, 8);
    reveal_with_fuel(Layout::reach, 8);
    reveal_with_fuel(Layout::terms_wf, 8);
    match c {
        Channels::Query => {},
        Channels::KeyValue => {},
        Channels::DualQuery => {},
        Channels::DualKeyValue => {},
    }
    assert(c.copies().wf());
    assert(c.lay(hidden()).wf());
}

/// Relabelling the slices by their channels moves nothing: the copy of a hidden feature lies in the
/// same cell under both labels.
pub proof fn law_channel_labels_keep_cells(c: Channels, r: int, h: int)
    requires
        0 <= r < c.count(),
        0 <= h < HIDDEN,
    ensures
        c.lay(hidden()).position(c.spot(r, h)) == c.copies().position(c.home(r).plus(at_h(h))),
{
    let p = c.spot(r, h);
    let q = c.home(r).plus(at_h(h));
    assert(hidden().position(p) == hidden().position(q)) by {
        reveal_with_fuel(Layout::position, 3);
    }
    match c {
        Channels::Query => {
            lemma_two_digits(r, 16, 256);
            lemma_two_digits(r / 16, 1, 256);
            lemma_place_two(pad(2), term(Axis::Q, 16, 256), hidden(), p);
            lemma_place_two(pad(2), term(Axis::Ring, 1, 256), hidden(), q);
        },
        Channels::KeyValue => {
            lemma_two_digits(r, 8, 256);
            lemma_two_digits(r / 8, 1, 256);
            lemma_place_two(pad(2), term(Axis::P, 8, 256), hidden(), p);
            lemma_place_two(pad(2), term(Axis::Ring, 1, 256), hidden(), q);
        },
        Channels::DualQuery => {
            lemma_two_digits(r, 2048, 2);
            lemma_two_digits((r / 8) % 256, 1, 256);
            lemma_fundamental_div_mod_converse(2048 * (r / 2048), 2048, r / 2048, 0);
            lemma_place_two(term(Axis::Q, 2048, 2), term(Axis::Q, 8, 256), hidden(), p);
            lemma_place_two(term(Axis::Q, 2048, 2), term(Axis::Ring, 1, 256), hidden(), q);
        },
        Channels::DualKeyValue => {
            lemma_two_digits(r, 1024, 2);
            lemma_two_digits(2 * ((r / 8) % 128), 1, 256);
            lemma_fundamental_div_mod_converse(2048 * (r / 1024), 2048, r / 1024, 0);
            lemma_place_three(term(Axis::P, 1024, 2), term(Axis::P, 8, 128), pad(2), hidden(), p);
            lemma_place_two(term(Axis::Q, 2048, 2), term(Axis::Ring, 1, 256), hidden(), q);
            assert(term(Axis::P, 1024, 2).digit(p) * 256 + term(Axis::P, 8, 128).digit(p) * 2 + pad(
                2,
            ).digit(p) == term(Axis::Q, 2048, 2).digit(q) * 256 + term(Axis::Ring, 1, 256).digit(
                q,
            ));
        },
    }
}

/// The relabelled copies are met by the channels that they lie with.
proof fn lemma_result(
    c: Channels,
    g: Arith,
    x: Tensor,
    y: Tensor,
    weight: Tensor,
    scale: Tensor,
    r: int,
)
    requires
        x.layout == c.copies(),
        y.layout == c.lay(hidden()),
        x.data@ == y.data@,
        0 <= r < c.count(),
    ensures
        c.value(g, y, weight, scale, r) == c.result(g, x, weight, scale, r),
{
    let ys = Seq::new(HIDDEN as nat, |h: int| y.at(c.spot(r, h)));
    assert forall|h: int| 0 <= h < HIDDEN implies #[trigger] ys[h] == copy_at(x, c.home(r))[h] by {
        law_channel_labels_keep_cells(c, r, h);
    }
    assert(ys =~= copy_at(x, c.home(r)));
}

/// A row of hidden features for each query feature.
#[verifier::allow_in_spec]
pub fn query_matrix() -> Layout
    returns
        digit(Axis::Q, 1, QUERY, hidden()),
{
    digit(Axis::Q, 1, QUERY, hidden())
}

/// A row of hidden features for each key or value feature.
#[verifier::allow_in_spec]
pub fn key_matrix() -> Layout
    returns
        digit(Axis::P, 1, KEY, hidden()),
{
    digit(Axis::P, 1, KEY, hidden())
}

proof fn lemma_gather_wf()
    ensures
        query().wf(),
        key().wf(),
        single(query()).wf(),
        single(key()).wf(),
        dual_query_single(digit(Axis::Q, 1, 2048, Layout::End)).wf(),
        dual_kv_single(digit(Axis::P, 1, 1024, Layout::End)).wf(),
{
    reveal_with_fuel(Layout::volume, 8);
    reveal_with_fuel(Layout::reach, 8);
    reveal_with_fuel(Layout::terms_wf, 8);
}

proof fn lemma_query_covers(q: int)
    requires
        0 <= q < QUERY,
    ensures
        query().covers(at_q(q)),
        single(query()).covers(at_q(q)),
        dual_query_single(digit(Axis::Q, 1, 2048, Layout::End)).covers(at_q(q)),
{
    reveal_with_fuel(Layout::kept, 8);
    lemma_two_digits(q, 1, QUERY as int);
    lemma_two_digits(q, 2048, 2);
}

proof fn lemma_key_covers(p: int)
    requires
        0 <= p < KEY,
    ensures
        key().covers(at_p(p)),
        single(key()).covers(at_p(p)),
        dual_kv_single(digit(Axis::P, 1, 1024, Layout::End)).covers(at_p(p)),
{
    reveal_with_fuel(Layout::kept, 8);
    lemma_two_digits(p, 1, KEY as int);
    lemma_two_digits(p, 1024, 2);
}

/// Projects the hidden features to the query features of all heads.
pub fn project_query<F: Fn(Op, Vec<u32>, Vec<u32>) -> u32>(
    alu: &F,
    x: &Tensor,
    weight: &Tensor,
    weight_scale: &Tensor,
) -> (out: Tensor)
    requires
        total(*alu),
        x.is(Format::Bf16, Channels::Query.copies()),
        weight.is(Format::F8, query_matrix()),
        weight_scale.is(Format::Bf16, query()),
    ensures
        out.is(Format::Bf16, single(query())),
        out.blank_padding(),
        forall|g: Arith, q: int|
            #![trigger computes(*alu, g), at_q(q)]
            computes(*alu, g) && 0 <= q < QUERY ==> out.at(at_q(q)) == Channels::Query.result(
                g,
                *x,
                *weight,
                *weight_scale,
                q,
            ),
{
    proof {
        lemma_copies_wf(Channels::Query);
        lemma_gather_wf();
    }
    let rows = x.alias(Channels::Query.lay(hidden()));
    let scaled = project_channels(alu, Channels::Query, &rows, weight, weight_scale);
    let out = scaled.shuffle(single(query()));
    proof {
        assert forall|g: Arith, q: int|
            #![trigger computes(*alu, g), at_q(q)]
            computes(*alu, g) && 0 <= q < QUERY implies out.at(at_q(q)) == Channels::Query.result(
            g,
            *x,
            *weight,
            *weight_scale,
            q,
        ) by {
            lemma_query_covers(q);
            lemma_result(Channels::Query, g, *x, rows, *weight, *weight_scale, q);
            assert(Channels::Query.at(q) == at_q(q));
            assert(out.at(at_q(q)) == scaled.at(at_q(q)));
        }
    }
    out
}

/// Projects the hidden features to the key features, or to the value features, of all heads.
pub fn project_one_kv_matrix<F: Fn(Op, Vec<u32>, Vec<u32>) -> u32>(
    alu: &F,
    x: &Tensor,
    weight: &Tensor,
    weight_scale: &Tensor,
) -> (out: Tensor)
    requires
        total(*alu),
        x.is(Format::Bf16, Channels::KeyValue.lay(hidden())),
        weight.is(Format::F8, key_matrix()),
        weight_scale.is(Format::Bf16, key()),
    ensures
        out.is(Format::Bf16, single(key())),
        out.blank_padding(),
        forall|g: Arith, p: int|
            #![trigger computes(*alu, g), at_p(p)]
            computes(*alu, g) && 0 <= p < KEY ==> out.at(at_p(p)) == Channels::KeyValue.value(
                g,
                *x,
                *weight,
                *weight_scale,
                p,
            ),
{
    proof {
        lemma_gather_wf();
        lemma_channels_wf(Channels::KeyValue);
    }
    let scaled = project_channels(alu, Channels::KeyValue, x, weight, weight_scale);
    let out = scaled.shuffle(single(key()));
    proof {
        assert forall|g: Arith, p: int|
            #![trigger computes(*alu, g), at_p(p)]
            computes(*alu, g) && 0 <= p < KEY implies out.at(at_p(p)) == Channels::KeyValue.value(
            g,
            *x,
            *weight,
            *weight_scale,
            p,
        ) by {
            lemma_key_covers(p);
            assert(Channels::KeyValue.at(p) == at_p(p));
            assert(out.at(at_p(p)) == scaled.at(at_p(p)));
        }
    }
    out
}

/// Projects the hidden features to the key and to the value features of all heads.
pub fn project_key_value<F: Fn(Op, Vec<u32>, Vec<u32>) -> u32>(
    alu: &F,
    x: &Tensor,
    k_weight: &Tensor,
    v_weight: &Tensor,
    k_weight_scale: &Tensor,
    v_weight_scale: &Tensor,
) -> (out: (Tensor, Tensor))
    requires
        total(*alu),
        x.is(Format::Bf16, Channels::KeyValue.copies()),
        k_weight.is(Format::F8, key_matrix()),
        v_weight.is(Format::F8, key_matrix()),
        k_weight_scale.is(Format::Bf16, key()),
        v_weight_scale.is(Format::Bf16, key()),
    ensures
        out.0.is(Format::Bf16, single(key())),
        out.0.blank_padding(),
        out.1.is(Format::Bf16, single(key())),
        out.1.blank_padding(),
        forall|g: Arith, p: int|
            #![trigger computes(*alu, g), at_p(p)]
            computes(*alu, g) && 0 <= p < KEY ==> {
                &&& out.0.at(at_p(p)) == Channels::KeyValue.result(
                    g,
                    *x,
                    *k_weight,
                    *k_weight_scale,
                    p,
                )
                &&& out.1.at(at_p(p)) == Channels::KeyValue.result(
                    g,
                    *x,
                    *v_weight,
                    *v_weight_scale,
                    p,
                )
            },
{
    proof {
        lemma_copies_wf(Channels::KeyValue);
    }
    let rows = x.alias(Channels::KeyValue.lay(hidden()));
    let k = project_one_kv_matrix(alu, &rows, k_weight, k_weight_scale);
    let v = project_one_kv_matrix(alu, &rows, v_weight, v_weight_scale);
    proof {
        assert forall|g: Arith, p: int|
            #![trigger computes(*alu, g), at_p(p)]
            computes(*alu, g) && 0 <= p < KEY implies {
            &&& k.at(at_p(p)) == Channels::KeyValue.result(g, *x, *k_weight, *k_weight_scale, p)
            &&& v.at(at_p(p)) == Channels::KeyValue.result(g, *x, *v_weight, *v_weight_scale, p)
        } by {
            lemma_result(Channels::KeyValue, g, *x, rows, *k_weight, *k_weight_scale, p);
            lemma_result(Channels::KeyValue, g, *x, rows, *v_weight, *v_weight_scale, p);
        }
    }
    (k, v)
}

/// Projects the hidden features to the query features of all heads, half of them in each cluster.
/// The halves are gathered in each cluster before they cross the large memory.
pub fn project_qkv_dual_query<F: Fn(Op, Vec<u32>, Vec<u32>) -> u32>(
    alu: &F,
    x: &Tensor,
    weight: &Tensor,
    weight_scale: &Tensor,
) -> (out: Tensor)
    requires
        total(*alu),
        x.is(Format::Bf16, Channels::DualQuery.copies()),
        weight.is(Format::F8, query_matrix()),
        weight_scale.is(Format::Bf16, query()),
    ensures
        out.is(Format::Bf16, single(query())),
        out.blank_padding(),
        forall|g: Arith, q: int|
            #![trigger computes(*alu, g), at_q(q)]
            computes(*alu, g) && 0 <= q < QUERY ==> out.at(at_q(q)) == Channels::DualQuery.result(
                g,
                *x,
                *weight,
                *weight_scale,
                q,
            ),
{
    proof {
        lemma_copies_wf(Channels::DualQuery);
        lemma_gather_wf();
    }
    let rows = x.alias(Channels::DualQuery.lay(hidden()));
    let scaled = project_channels(alu, Channels::DualQuery, &rows, weight, weight_scale);
    let gathered = scaled.shuffle(dual_query_single(digit(Axis::Q, 1, 2048, Layout::End)));
    let stored = gathered.relayout(query());
    let out = stored.relayout(single(query()));
    proof {
        assert forall|g: Arith, q: int|
            #![trigger computes(*alu, g), at_q(q)]
            computes(*alu, g) && 0 <= q < QUERY implies out.at(at_q(q))
            == Channels::DualQuery.result(g, *x, *weight, *weight_scale, q) by {
            lemma_query_covers(q);
            lemma_result(Channels::DualQuery, g, *x, rows, *weight, *weight_scale, q);
            assert(Channels::DualQuery.at(q) == at_q(q));
            assert(out.at(at_q(q)) == stored.at(at_q(q)));
            assert(stored.at(at_q(q)) == gathered.at(at_q(q)));
            assert(gathered.at(at_q(q)) == scaled.at(at_q(q)));
        }
    }
    out
}

/// Projects the hidden features to the key features, or to the value features, of all heads, half
/// of them in each cluster. The halves are gathered in each cluster before they cross the large
/// memory.
pub fn project_qkv_dual_one_kv_matrix<F: Fn(Op, Vec<u32>, Vec<u32>) -> u32>(
    alu: &F,
    x: &Tensor,
    weight: &Tensor,
    weight_scale: &Tensor,
) -> (out: Tensor)
    requires
        total(*alu),
        x.is(Format::Bf16, Channels::DualKeyValue.lay(hidden())),
        weight.is(Format::F8, key_matrix()),
        weight_scale.is(Format::Bf16, key()),
    ensures
        out.is(Format::Bf16, single(key())),
        out.blank_padding(),
        forall|g: Arith, p: int|
            #![trigger computes(*alu, g), at_p(p)]
            computes(*alu, g) && 0 <= p < KEY ==> out.at(at_p(p)) == Channels::DualKeyValue.value(
                g,
                *x,
                *weight,
                *weight_scale,
                p,
            ),
{
    proof {
        lemma_gather_wf();
        lemma_channels_wf(Channels::DualKeyValue);
    }
    let scaled = project_channels(alu, Channels::DualKeyValue, x, weight, weight_scale);
    let gathered = scaled.shuffle(dual_kv_single(digit(Axis::P, 1, 1024, Layout::End)));
    let stored = gathered.relayout(key());
    let out = stored.relayout(single(key()));
    proof {
        assert forall|g: Arith, p: int|
            #![trigger computes(*alu, g), at_p(p)]
            computes(*alu, g) && 0 <= p < KEY implies out.at(at_p(p))
            == Channels::DualKeyValue.value(g, *x, *weight, *weight_scale, p) by {
            lemma_key_covers(p);
            assert(Channels::DualKeyValue.at(p) == at_p(p));
            assert(out.at(at_p(p)) == stored.at(at_p(p)));
            assert(stored.at(at_p(p)) == gathered.at(at_p(p)));
            assert(gathered.at(at_p(p)) == scaled.at(at_p(p)));
        }
    }
    out
}

/// Projects the hidden features to the key and to the value features of all heads, half of them in
/// each cluster.
pub fn project_qkv_dual_key_value<F: Fn(Op, Vec<u32>, Vec<u32>) -> u32>(
    alu: &F,
    x: &Tensor,
    k_weight: &Tensor,
    v_weight: &Tensor,
    k_weight_scale: &Tensor,
    v_weight_scale: &Tensor,
) -> (out: (Tensor, Tensor))
    requires
        total(*alu),
        x.is(Format::Bf16, Channels::DualKeyValue.copies()),
        k_weight.is(Format::F8, key_matrix()),
        v_weight.is(Format::F8, key_matrix()),
        k_weight_scale.is(Format::Bf16, key()),
        v_weight_scale.is(Format::Bf16, key()),
    ensures
        out.0.is(Format::Bf16, single(key())),
        out.0.blank_padding(),
        out.1.is(Format::Bf16, single(key())),
        out.1.blank_padding(),
        forall|g: Arith, p: int|
            #![trigger computes(*alu, g), at_p(p)]
            computes(*alu, g) && 0 <= p < KEY ==> {
                &&& out.0.at(at_p(p)) == Channels::DualKeyValue.result(
                    g,
                    *x,
                    *k_weight,
                    *k_weight_scale,
                    p,
                )
                &&& out.1.at(at_p(p)) == Channels::DualKeyValue.result(
                    g,
                    *x,
                    *v_weight,
                    *v_weight_scale,
                    p,
                )
            },
{
    proof {
        lemma_copies_wf(Channels::DualKeyValue);
    }
    let rows = x.alias(Channels::DualKeyValue.lay(hidden()));
    let k = project_qkv_dual_one_kv_matrix(alu, &rows, k_weight, k_weight_scale);
    let v = project_qkv_dual_one_kv_matrix(alu, &rows, v_weight, v_weight_scale);
    proof {
        assert forall|g: Arith, p: int|
            #![trigger computes(*alu, g), at_p(p)]
            computes(*alu, g) && 0 <= p < KEY implies {
            &&& k.at(at_p(p)) == Channels::DualKeyValue.result(g, *x, *k_weight, *k_weight_scale, p)
            &&& v.at(at_p(p)) == Channels::DualKeyValue.result(g, *x, *v_weight, *v_weight_scale, p)
        } by {
            lemma_result(Channels::DualKeyValue, g, *x, rows, *k_weight, *k_weight_scale, p);
            lemma_result(Channels::DualKeyValue, g, *x, rows, *v_weight, *v_weight_scale, p);
        }
    }
    (k, v)
}

/// Where the copy in slice `s` of the first cluster begins.
pub open spec fn on_slice(s: int) -> Point {
    Point { ring: s, ..origin() }
}

/// Where the copy in slice `s` of a cluster begins.
pub open spec fn on_cluster(cluster: int, s: int) -> Point {
    Point { q: 2048 * cluster, ring: s, ..origin() }
}

/// The eight groups of 32 slices share their runs of hidden features among themselves only.
pub proof fn law_hidden_rings_are_independent()
    ensures
        ring_local(hidden_shards(digit(Axis::H, 1, 480, Layout::End)), hidden_rings(hidden()), 32),
{
    reveal_with_fuel(Layout::terms_wf, 8);
    let from = hidden_shards(digit(Axis::H, 1, 480, Layout::End));
    let to = hidden_rings(hidden());
    assert forall|p: Point| #[trigger] to.covers(p) implies slice_of(from, from.position(p)) / 32
        == slice_of(to, to.position(p)) / 32 by {
        let c = 0;
        let group = (p.group / 1) % 8;
        let ring = (p.ring / 1) % 32;
        let run = (p.h / 480) % 8;
        lemma_place_four(
            pad(2),
            term(Axis::Group, 1, 8),
            term(Axis::H, 480, 8),
            pad(4),
            digit(Axis::H, 1, 480, Layout::End),
            p,
        );
        lemma_place_three(
            pad(2),
            term(Axis::Group, 1, 8),
            term(Axis::Ring, 1, 32),
            hidden(),
            p,
        );
        lemma_slice(from, digit(Axis::H, 1, 480, Layout::End), p, c, group * 32 + run * 4);
        lemma_slice(to, hidden(), p, c, group * 32 + ring);
    }
}

proof fn lemma_hidden_wf()
    ensures
        hidden().wf(),
        hidden_shards(digit(Axis::H, 1, 480, Layout::End)).wf(),
        hidden_rings(hidden()).wf(),
        replicated(hidden()).wf(),
        hidden_rings(hidden()).volume() == replicated(hidden()).volume(),
{
    reveal_with_fuel(Layout::volume, 8);
    reveal_with_fuel(Layout::reach, 8);
    reveal_with_fuel(Layout::terms_wf, 8);
}

/// Relabelling eight groups of 32 slices as one row of slices moves nothing.
proof fn lemma_hidden_relabel(s: int, h: int)
    requires
        0 <= s < 256,
        0 <= h < HIDDEN,
    ensures
        ({
            let r = Point { h, group: s / 32, ..origin() };
            let q = Point { ring: s % 32, ..r };
            &&& replicated(hidden()).position(on_slice(s).plus(at_h(h))) == hidden_rings(
                hidden(),
            ).position(q)
            &&& hidden_rings(hidden()).covers(q)
            &&& hidden_shards(digit(Axis::H, 1, 480, Layout::End)).covers(r)
            &&& hidden_shards(digit(Axis::H, 1, 480, Layout::End)).position(r) == hidden_shards(
                digit(Axis::H, 1, 480, Layout::End),
            ).position(q)
        }),
{
    let p = on_slice(s).plus(at_h(h));
    let r = Point { h, group: s / 32, ..origin() };
    let q = Point { ring: s % 32, ..r };
    lemma_two_digits(s, 32, 8);
    lemma_two_digits(s, 1, 256);
    lemma_two_digits(s / 32, 1, 8);
    lemma_two_digits(s % 32, 1, 32);
    lemma_two_digits(h, 480, 8);
    lemma_two_digits(h, 1, HIDDEN as int);
    lemma_place_two(pad(2), term(Axis::Ring, 1, 256), hidden(), p);
    lemma_place_three(
        pad(2),
        term(Axis::Group, 1, 8),
        term(Axis::Ring, 1, 32),
        hidden(),
        q,
    );
    assert(hidden().position(p) == hidden().position(q)) by {
        reveal_with_fuel(Layout::position, 4);
    }
    assert(hidden_rings(hidden()).covers(q)) by {
        reveal_with_fuel(Layout::kept, 8);
    }
    assert(hidden_shards(digit(Axis::H, 1, 480, Layout::End)).covers(r)) by {
        reveal_with_fuel(Layout::kept, 8);
    }
    assert(hidden_shards(digit(Axis::H, 1, 480, Layout::End)).position(r) == hidden_shards(
        digit(Axis::H, 1, 480, Layout::End),
    ).position(q)) by {
        reveal_with_fuel(Layout::position, 8);
    }
}

/// Relabelling the eight groups of 32 slices as one row of slices moves nothing: a hidden feature
/// lies in the same cell under both labels.
pub proof fn law_slice_labels_keep_cells(s: int, h: int)
    requires
        0 <= s < 256,
        0 <= h < HIDDEN,
    ensures
        replicated(hidden()).position(on_slice(s).plus(at_h(h))) == hidden_rings(
            hidden(),
        ).position((Point { h, group: s / 32, ring: s % 32, ..origin() })),
{
    lemma_hidden_relabel(s, h);
}

/// Both ways to label the slices leave the second cluster, and only that, as padding.
proof fn lemma_second_cluster_blank(rings: Tensor, out: Tensor)
    requires
        rings.is(Format::Bf16, hidden_rings(hidden())),
        rings.blank_padding(),
        out.is(Format::Bf16, replicated(hidden())),
        out.data@ == rings.data@,
    ensures
        out.blank_padding(),
{
    let a = digit(Axis::Group, 1, 8, digit(Axis::Ring, 1, 32, hidden()));
    let b = digit(Axis::Ring, 1, 256, hidden());
    reveal_with_fuel(Layout::volume, 8);
    reveal_with_fuel(Layout::terms_wf, 8);
    reveal_with_fuel(Layout::dense, 8);
    assert(a.volume() == b.volume());
    assert forall|i: int| 0 <= i < out.data@.len() && !out.layout.live(
        i,
    ) implies #[trigger] out.data@[i] == 0 by {
        lemma_split(pad(2), b, i);
        lemma_dense_live(a, i % a.volume());
        lemma_dense_live(b, i % b.volume());
        assert(out.layout.live(i) == (i / b.volume() < 1 && b.live(i % b.volume())));
        assert(rings.layout.live(i) == (i / a.volume() < 1 && a.live(i % a.volume())));
    }
}

/// Copies the hidden features to every slice of the first cluster.
pub fn prepare_qkv_input(x: &Tensor) -> (out: Tensor)
    requires
        x.is(Format::Bf16, single(hidden())),
    ensures
        out.is(Format::Bf16, replicated(hidden())),
        out.blank_padding(),
        forall|s: int|
            0 <= s < 256 ==> copy_at(*x, origin()) == #[trigger] copy_at(out, on_slice(s)),
{
    proof {
        lemma_hidden_wf();
        law_hidden_rings_are_independent();
    }
    let shards = x.shuffle(hidden_shards(digit(Axis::H, 1, 480, Layout::End)));
    let shared = shards.switch(hidden_rings(hidden()), 32);
    let ghost ring_view = shared;
    let out = shared.relabel(replicated(hidden()));
    proof {
        lemma_second_cluster_blank(ring_view, out);
        assert forall|s: int|
            0 <= s < 256 implies copy_at(*x, origin()) == #[trigger] copy_at(out, on_slice(s)) by {
            assert forall|h: int| 0 <= h < HIDDEN implies copy_at(*x, origin())[h]
                == #[trigger] copy_at(out, on_slice(s))[h] by {
                let r = Point { h, group: s / 32, ..origin() };
                let q = Point { ring: s % 32, ..r };
                lemma_hidden_relabel(s, h);
                assert(ring_view.at(q) == shards.at(q));
                assert(shards.at(q) == shards.at(r));
                assert(shards.at(r) == x.at(r));
                assert(single(hidden()).position(r) == single(hidden()).position(at_h(h))) by {
                    reveal_with_fuel(Layout::position, 8);
                }
                assert(origin().plus(at_h(h)) == at_h(h));
            }
            assert(copy_at(*x, origin()) =~= copy_at(out, on_slice(s)));
        }
    }
    out
}

/// In both clusters, the eight groups of 32 slices share their runs of hidden features among
/// themselves only.
pub proof fn law_dual_rings_are_independent()
    ensures
        ring_local(dual_shards(digit(Axis::H, 1, 480, Layout::End)), dual_rings(hidden()), 32),
{
    reveal_with_fuel(Layout::terms_wf, 8);
    let from = dual_shards(digit(Axis::H, 1, 480, Layout::End));
    let to = dual_rings(hidden());
    assert forall|p: Point| #[trigger] to.covers(p) implies slice_of(from, from.position(p)) / 32
        == slice_of(to, to.position(p)) / 32 by {
        let c = (p.q / 2048) % 2;
        let group = (p.group / 1) % 8;
        let ring = (p.ring / 1) % 32;
        let run = (p.h / 480) % 8;
        lemma_place_four(
            term(Axis::Q, 2048, 2),
            term(Axis::Group, 1, 8),
            term(Axis::H, 480, 8),
            pad(4),
            digit(Axis::H, 1, 480, Layout::End),
            p,
        );
        lemma_place_three(
            term(Axis::Q, 2048, 2),
            term(Axis::Group, 1, 8),
            term(Axis::Ring, 1, 32),
            hidden(),
            p,
        );
        lemma_slice(from, digit(Axis::H, 1, 480, Layout::End), p, c, group * 32 + run * 4);
        lemma_slice(to, hidden(), p, c, group * 32 + ring);
    }
}

proof fn lemma_dual_wf()
    ensures
        hidden().wf(),
        dual_shards(digit(Axis::H, 1, 480, Layout::End)).wf(),
        dual_rings(hidden()).wf(),
        dual_replicated(hidden()).wf(),
        dual_rings(hidden()).volume() == dual_replicated(hidden()).volume(),
{
    reveal_with_fuel(Layout::volume, 8);
    reveal_with_fuel(Layout::reach, 8);
    reveal_with_fuel(Layout::terms_wf, 8);
}

/// Relabelling eight groups of 32 slices as one row of slices moves nothing.
proof fn lemma_dual_relabel(cluster: int, s: int, h: int)
    requires
        0 <= cluster < 2,
        0 <= s < 256,
        0 <= h < HIDDEN,
    ensures
        ({
            let r = Point { q: 2048 * cluster, h, group: s / 32, ..origin() };
            let q = Point { ring: s % 32, ..r };
            &&& dual_replicated(hidden()).position(on_cluster(cluster, s).plus(at_h(h)))
                == dual_rings(hidden()).position(q)
            &&& dual_rings(hidden()).covers(q)
            &&& dual_shards(digit(Axis::H, 1, 480, Layout::End)).covers(r)
            &&& dual_shards(digit(Axis::H, 1, 480, Layout::End)).position(r) == dual_shards(
                digit(Axis::H, 1, 480, Layout::End),
            ).position(q)
        }),
{
    let p = on_cluster(cluster, s).plus(at_h(h));
    let r = Point { q: 2048 * cluster, h, group: s / 32, ..origin() };
    let q = Point { ring: s % 32, ..r };
    lemma_two_digits(s, 32, 8);
    lemma_two_digits(s, 1, 256);
    lemma_two_digits(s / 32, 1, 8);
    lemma_two_digits(s % 32, 1, 32);
    lemma_two_digits(h, 480, 8);
    lemma_two_digits(h, 1, HIDDEN as int);
    lemma_fundamental_div_mod_converse(2048 * cluster, 2048, cluster, 0);
    lemma_two_digits(2048 * cluster, 2048, 2);
    lemma_place_two(term(Axis::Q, 2048, 2), term(Axis::Ring, 1, 256), hidden(), p);
    lemma_place_three(
        term(Axis::Q, 2048, 2),
        term(Axis::Group, 1, 8),
        term(Axis::Ring, 1, 32),
        hidden(),
        q,
    );
    assert(hidden().position(p) == hidden().position(q)) by {
        reveal_with_fuel(Layout::position, 4);
    }
    assert(dual_rings(hidden()).covers(q)) by {
        reveal_with_fuel(Layout::kept, 8);
    }
    assert(dual_shards(digit(Axis::H, 1, 480, Layout::End)).covers(r)) by {
        reveal_with_fuel(Layout::kept, 8);
    }
    assert(dual_shards(digit(Axis::H, 1, 480, Layout::End)).position(r) == dual_shards(
        digit(Axis::H, 1, 480, Layout::End),
    ).position(q)) by {
        reveal_with_fuel(Layout::position, 8);
    }
}

/// In both clusters, relabelling the eight groups of 32 slices as one row of slices moves nothing:
/// a hidden feature lies in the same cell under both labels.
pub proof fn law_dual_slice_labels_keep_cells(cluster: int, s: int, h: int)
    requires
        0 <= cluster < 2,
        0 <= s < 256,
        0 <= h < HIDDEN,
    ensures
        dual_replicated(hidden()).position(on_cluster(cluster, s).plus(at_h(h))) == dual_rings(
            hidden(),
        ).position(
            (Point { q: 2048 * cluster, h, group: s / 32, ring: s % 32, ..origin() }),
        ),
{
    lemma_dual_relabel(cluster, s, h);
}

/// Copies the hidden features to every slice of both clusters, by way of the large memory.
pub fn prepare_qkv_dual_input(x: &Tensor) -> (out: Tensor)
    requires
        x.is(Format::Bf16, single(hidden())),
    ensures
        out.is(Format::Bf16, dual_replicated(hidden())),
        forall|cluster: int, s: int|
            0 <= cluster < 2 && 0 <= s < 256 ==> copy_at(*x, origin()) == #[trigger] copy_at(
                out,
                on_cluster(cluster, s),
            ),
{
    proof {
        lemma_dual_wf();
        law_dual_rings_are_independent();
    }
    let stored = x.relayout(hidden());
    let shards = stored.relayout(dual_shards(digit(Axis::H, 1, 480, Layout::End)));
    let shared = shards.switch(dual_rings(hidden()), 32);
    let ghost ring_view = shared;
    let out = shared.relabel(dual_replicated(hidden()));
    proof {
        assert forall|cluster: int, s: int|
            0 <= cluster < 2 && 0 <= s < 256 implies copy_at(*x, origin()) == #[trigger] copy_at(
            out,
            on_cluster(cluster, s),
        ) by {
            assert forall|h: int| 0 <= h < HIDDEN implies copy_at(*x, origin())[h]
                == #[trigger] copy_at(out, on_cluster(cluster, s))[h] by {
                let r = Point { q: 2048 * cluster, h, group: s / 32, ..origin() };
                let q = Point { ring: s % 32, ..r };
                lemma_dual_relabel(cluster, s, h);
                assert(ring_view.at(q) == shards.at(q));
                assert(shards.at(q) == shards.at(r));
                assert(shards.at(r) == stored.at(r));
                assert(hidden().position(r) == hidden().position(at_h(h))) by {
                    reveal_with_fuel(Layout::position, 8);
                }
                lemma_hidden_row_covers(h);
                assert(stored.at(at_h(h)) == x.at(at_h(h)));
                assert(origin().plus(at_h(h)) == at_h(h));
            }
            assert(copy_at(*x, origin()) =~= copy_at(out, on_cluster(cluster, s)));
        }
    }
    out
}

/// Channels that are computed from equal copies in one cluster, or in both, get the same query
/// features.
pub proof fn law_dual_query_agrees(
    g: Arith,
    x: Tensor,
    y: Tensor,
    values: Seq<u32>,
    weight: Tensor,
    scale: Tensor,
    q: int,
)
    requires
        forall|s: int| 0 <= s < 256 ==> #[trigger] copy_at(x, on_slice(s)) == values,
        forall|cluster: int, s: int|
            0 <= cluster < 2 && 0 <= s < 256 ==> #[trigger] copy_at(y, on_cluster(cluster, s))
                == values,
        0 <= q < QUERY,
    ensures
        Channels::Query.result(g, x, weight, scale, q) == Channels::DualQuery.result(
            g,
            y,
            weight,
            scale,
            q,
        ),
{
    lemma_two_digits(q, 16, 256);
    lemma_two_digits(q, 2048, 2);
    assert(Channels::Query.home(q) == on_slice(q / 16));
    assert(Channels::DualQuery.home(q) == on_cluster(q / 2048, (q / 8) % 256));
    assert(copy_at(x, on_slice(q / 16)) == copy_at(y, on_cluster(q / 2048, (q / 8) % 256)));
    assert(Seq::new(HIDDEN as nat, |h: int| weight.at(Channels::Query.spot(q, h))) =~= Seq::new(
        HIDDEN as nat,
        |h: int| weight.at(Channels::DualQuery.spot(q, h)),
    ));
}

/// Channels that are computed from equal copies in one cluster, or in both, get the same key or
/// value features.
pub proof fn law_dual_key_value_agrees(
    g: Arith,
    x: Tensor,
    y: Tensor,
    values: Seq<u32>,
    weight: Tensor,
    scale: Tensor,
    p: int,
)
    requires
        forall|s: int| 0 <= s < 256 ==> #[trigger] copy_at(x, on_slice(s)) == values,
        forall|cluster: int, s: int|
            0 <= cluster < 2 && 0 <= s < 256 ==> #[trigger] copy_at(y, on_cluster(cluster, s))
                == values,
        0 <= p < KEY,
    ensures
        Channels::KeyValue.result(g, x, weight, scale, p) == Channels::DualKeyValue.result(
            g,
            y,
            weight,
            scale,
            p,
        ),
{
    let s = 2 * ((p / 8) % 128);
    lemma_two_digits(p, 8, 256);
    lemma_two_digits(p, 1024, 2);
    assert(Channels::KeyValue.home(p) == on_slice(p / 8));
    assert(Channels::DualKeyValue.home(p) == on_cluster(p / 1024, s));
    assert(copy_at(x, on_slice(p / 8)) == copy_at(y, on_cluster(p / 1024, s)));
    assert(Seq::new(HIDDEN as nat, |h: int| weight.at(Channels::KeyValue.spot(p, h))) =~= Seq::new(
        HIDDEN as nat,
        |h: int| weight.at(Channels::DualKeyValue.spot(p, h)),
    ));
}

/// What the slices between those of the channels hold never reaches a key or value feature.
pub proof fn law_padded_slices_never_count(
    g: Arith,
    x: Tensor,
    y: Tensor,
    weight: Tensor,
    scale: Tensor,
    p: int,
)
    requires
        forall|cluster: int, s: int|
            0 <= cluster < 2 && 0 <= s < 256 && s % 2 == 0 ==> #[trigger] copy_at(
                x,
                on_cluster(cluster, s),
            ) == copy_at(y, on_cluster(cluster, s)),
        0 <= p < KEY,
    ensures
        Channels::DualKeyValue.result(g, x, weight, scale, p) == Channels::DualKeyValue.result(
            g,
            y,
            weight,
            scale,
            p,
        ),
{
    let s = 2 * ((p / 8) % 128);
    lemma_two_digits(p, 1024, 2);
    assert(Channels::DualKeyValue.home(p) == on_cluster(p / 1024, s));
    assert(copy_at(x, on_cluster(p / 1024, s)) == copy_at(y, on_cluster(p / 1024, s)));
}

/// Reading the query features by head, by group of heads, and by feature of a head moves nothing,
/// whatever the numbers of heads, groups and features are.
pub proof fn law_query_heads_keep_cells(heads: usize, groups: usize, size: usize, q: int)
    requires
        0 < heads,
        0 < groups,
        0 < size,
        groups * size <= usize::MAX,
        heads * (groups * size) == QUERY,
        0 <= q < QUERY,
    ensures
        digit(
            Axis::Q,
            (groups * size) as usize,
            heads,
            digit(Axis::Q, size, groups, digit(Axis::Q, 1, size, Layout::End)),
        ).position(at_q(q)) == query().position(at_q(q)),
{
    let p = at_q(q);
    let b = groups * size;
    let rest = digit(Axis::Q, 1, size, Layout::End);
    assert(size * groups == b && b * heads == QUERY) by (nonlinear_arith)
        requires
            b == groups * size,
            heads * (groups * size) == QUERY,
    ;
    lemma_three_digits(q, size as int, groups as int, b, heads as int);
    lemma_place_one(term(Axis::Q, 1, size), p);
    lemma_place_one(term(Axis::Q, 1, QUERY), p);
    lemma_place_two(term(Axis::Q, b as usize, heads), term(Axis::Q, size, groups), rest, p);
    let x = (q / b) % (heads as int);
    let y = (q / (size as int)) % (groups as int);
    assert((x * groups + y) * size == x * b + y * size) by (nonlinear_arith)
        requires
            b == groups * size,
    ;
    lemma_two_digits(q, 1, QUERY as int);
}

/// Reading the key or value features by head and by feature of a head moves nothing, whatever the
/// numbers of heads and features are.
pub proof fn law_key_heads_keep_cells(heads: usize, size: usize, k: int)
    requires
        0 < heads,
        0 < size,
        heads * size == KEY,
        0 <= k < KEY,
    ensures
        digit(Axis::P, size, heads, digit(Axis::P, 1, size, Layout::End)).position(at_p(k))
            == key().position(at_p(k)),
{
    let p = at_p(k);
    let rest = digit(Axis::P, 1, size, Layout::End);
    lemma_mul_is_commutative(heads as int, size as int);
    lemma_two_digits(k, size as int, heads as int);
    lemma_two_digits(k, 1, KEY as int);
    lemma_place_one(term(Axis::P, 1, size), p);
    lemma_place_one(term(Axis::P, 1, KEY), p);
    reveal_with_fuel(Layout::position, 2);
}

} // verus!
