//! The output projection: query features back to hidden features.
//!
//! Each cluster computes half of the 3840 hidden features, thirty of them in each of 64 groups of
//! four slices.
use crate::engine::{computes, fold, one, total, two, Arith, Op};
use crate::layout::{
    at_h, at_hq, at_q, lemma_place_three, lemma_place_two, lemma_same_run, lemma_three_digits,
    lemma_two_digits, only, origin, Axis, Coords, Layout, Point,
};
use crate::places::{
    digit, hidden, hidden_rows, k_rows, lemma_hidden_row_covers, lemma_hidden_row_wf, lemma_steps,
    merge_rows, output_replicated, pad, query, room, single, term, HIDDEN, QUERY,
};
use crate::projection::{decoded_f8, product};
use crate::quantize::{group_scale, part_of, part_scale, split, with_part, Groups};
use crate::tensor::{moved, row, Format, Tensor};
use vstd::arithmetic::div_mod::lemma_fundamental_div_mod_converse;
use vstd::prelude::*;

verus! {

/// A row of query features for each hidden feature.
#[verifier::allow_in_spec]
pub fn output_matrix() -> Layout
    returns
        digit(Axis::H, 1, HIDDEN, query()),
{
    digit(Axis::H, 1, HIDDEN, query())
}

/// The layout of thirty results in every fourth slice.
#[verifier::allow_in_spec]
pub fn thirty_results() -> Layout
    returns
        hidden_rows(digit(Axis::H, 1, 30, Layout::End)),
{
    hidden_rows(digit(Axis::H, 1, 30, Layout::End))
}

/// The layout of 120 results in every sixteenth slice.
#[verifier::allow_in_spec]
pub fn merged_results() -> Layout
    returns
        merge_rows(digit(Axis::H, 1, 120, Layout::End)),
{
    merge_rows(digit(Axis::H, 1, 120, Layout::End))
}

/// Half of the query features.
#[verifier::allow_in_spec]
fn half_query() -> Layout
    returns
        digit(Axis::Q, 1, 2048, Layout::End),
{
    digit(Axis::Q, 1, 2048, Layout::End)
}

/// Where the copy of the query features lies that hidden feature `h` is computed from.
pub open spec fn output_home(h: int) -> Point {
    Point { h: 1920 * (h / 1920), ring: 4 * ((h / 30) % 64), ..origin() }
}

/// The query features from `offset` on that hidden feature `h` is computed from.
pub open spec fn output_input(x: Tensor, h: int, offset: int) -> Seq<u32> {
    Seq::new(2048, |k: int| x.at(output_home(h).plus(at_q(offset + k))))
}

/// The weights of hidden feature `h` from query feature `offset` on.
pub open spec fn output_weights(weight: Tensor, h: int, offset: int) -> Seq<u32> {
    Seq::new(2048, |k: int| weight.at(at_hq(h, offset + k)))
}

/// What half of the query features gives for a hidden feature, rounded.
pub open spec fn partial_value(g: Arith, weights: Seq<u32>, xs: Seq<u32>) -> u32 {
    one(g, Op::NarrowBf16, g(Op::ContractBf16, decoded_f8(g, weights), xs))
}

proof fn lemma_partial_wf()
    ensures
        hidden_rows(query()).wf(),
        hidden_rows(query()).volume() == output_replicated(query()).volume(),
        hidden_rows(half_query()).wf(),
        hidden_rows(digit(Axis::H, 1, 30, half_query())).wf(),
        thirty_results().wf(),
        merged_results().wf(),
        half_query().wf(),
{
    reveal_with_fuel(Layout::volume, 8);
    reveal_with_fuel(Layout::reach, 8);
    reveal_with_fuel(Layout::terms_wf, 8);
}

proof fn lemma_partial_covers(h: int, k: int)
    requires
        0 <= h < HIDDEN,
        0 <= k < 2048,
    ensures
        hidden_rows(half_query()).covers(at_hq(h - h % 30, k)),
        hidden_rows(half_query()).position(at_hq(h, k)) == hidden_rows(half_query()).position(
            at_hq(h - h % 30, k),
        ),
        hidden_rows(digit(Axis::H, 1, 30, half_query())).covers(at_hq(h, k)),
        thirty_results().covers(at_h(h)),
        merged_results().covers(at_h(h)),
        0 <= h - h % 30 < HIDDEN,
        (h - h % 30) / 30 == h / 30,
        (h - h % 30) / 1920 == h / 1920,
{
    let s = h - h % 30;
    lemma_same_run(h, 30, 128, 0);
    lemma_three_digits(h, 30, 64, 1920, 2);
    lemma_three_digits(s, 30, 64, 1920, 2);
    lemma_three_digits(h, 120, 16, 1920, 2);
    lemma_two_digits(k, 1, 2048);
    assert(s / 1920 == h / 1920);
    assert(hidden_rows(half_query()).covers(at_hq(s, k))) by {
        reveal_with_fuel(Layout::kept, 8);
    }
    assert(hidden_rows(digit(Axis::H, 1, 30, half_query())).covers(at_hq(h, k))) by {
        reveal_with_fuel(Layout::kept, 8);
    }
    assert(thirty_results().covers(at_h(h))) by {
        reveal_with_fuel(Layout::kept, 8);
    }
    assert(merged_results().covers(at_h(h))) by {
        reveal_with_fuel(Layout::kept, 8);
    }
    reveal_with_fuel(Layout::position, 8);
}

/// Relabelling the slices by their hidden features moves nothing: the copy of a query feature lies
/// in the same cell under both labels.
pub proof fn law_output_labels_keep_cells(h: int, q: int)
    requires
        0 <= h < HIDDEN,
        0 <= q < QUERY,
    ensures
        hidden_rows(query()).position(at_hq(h, q)) == output_replicated(query()).position(
            output_home(h).plus(at_q(q)),
        ),
{
    let a = at_hq(h, q);
    let b = output_home(h).plus(at_q(q));
    assert(query().position(a) == query().position(b)) by {
        reveal_with_fuel(Layout::position, 3);
    }
    lemma_two_digits(h, 1920, 2);
    lemma_two_digits(4 * ((h / 30) % 64), 1, 256);
    lemma_fundamental_div_mod_converse(1920 * (h / 1920), 1920, h / 1920, 0);
    lemma_place_three(term(Axis::H, 1920, 2), term(Axis::H, 30, 64), pad(4), query(), a);
    lemma_place_two(term(Axis::H, 1920, 2), term(Axis::Ring, 1, 256), query(), b);
    assert(term(Axis::H, 1920, 2).digit(a) * 256 + term(Axis::H, 30, 64).digit(a) * 4 + pad(
        4,
    ).digit(a) == term(Axis::H, 1920, 2).digit(b) * 256 + term(Axis::Ring, 1, 256).digit(b));
}

/// Contracts half of the query features, from `offset` on, with every row of weights. The sums of
/// four neighbouring runs of thirty are brought together before they are rounded.
pub fn output_partial<F: Fn(Op, Vec<u32>, Vec<u32>) -> u32>(
    alu: &F,
    x: &Tensor,
    weight: &Tensor,
    offset: usize,
) -> (out: Tensor)
    requires
        total(*alu),
        x.is(Format::Bf16, output_replicated(query())),
        weight.is(Format::F8, output_matrix()),
        offset <= 2048,
    ensures
        out.is(Format::Bf16, merged_results()),
        out.blank_padding(),
        forall|g: Arith, h: int|
            #![trigger computes(*alu, g), at_h(h)]
            computes(*alu, g) && 0 <= h < HIDDEN ==> out.at(at_h(h)) == partial_value(
                g,
                output_weights(*weight, h, offset as int),
                output_input(*x, h, offset as int),
            ),
{
    proof {
        lemma_partial_wf();
        lemma_steps(Axis::Q, 1, 2048, 0);
    }
    let shift = Coords::on(Axis::Q, offset);
    let rows = x.alias(hidden_rows(query()));
    let half = rows.tile(&shift, hidden_rows(half_query()));
    let weight_f8 = weight.tile(&shift, hidden_rows(digit(Axis::H, 1, 30, half_query())));
    let native = weight_f8.map(
        alu,
        Op::LookupF8AsBf16,
        Format::Bf16,
        hidden_rows(digit(Axis::H, 1, 30, half_query())),
    );
    let partial = native.contract(
        alu,
        Op::ContractBf16,
        &half,
        &half_query(),
        Format::F32,
        thirty_results(),
    );
    let merged = partial.shuffle(merged_results());
    let out = merged.map(alu, Op::NarrowBf16, Format::Bf16, merged_results());
    proof {
        assert forall|g: Arith, h: int|
            #![trigger computes(*alu, g), at_h(h)]
            computes(*alu, g) && 0 <= h < HIDDEN implies out.at(at_h(h)) == partial_value(
            g,
            output_weights(*weight, h, offset as int),
            output_input(*x, h, offset as int),
        ) by {
            let p = at_h(h);
            let ws = decoded_f8(g, output_weights(*weight, h, offset as int));
            let xs = output_input(*x, h, offset as int);
            lemma_partial_covers(h, 0);
            assert forall|k: int|
                #![trigger ws[k]]
                #![trigger xs[k]]
                0 <= k < 2048 implies row(native, half_query(), p)[k] == ws[k] && row(
                half,
                half_query(),
                p,
            )[k] == xs[k] by {
                let s = h - h % 30;
                lemma_steps(Axis::Q, 1, 2048, k);
                assert(p.plus(only(Axis::Q, k * 1)) == at_hq(h, k));
                lemma_partial_covers(h, k);
                assert(at_hq(h, k).plus(shift@) == at_hq(h, offset + k));
                assert(weight_f8.at(at_hq(h, k)) == weight.at(at_hq(h, offset + k)));
                assert(half.at(at_hq(h, k)) == half.at(at_hq(s, k)));
                assert(at_hq(s, k).plus(shift@) == at_hq(s, offset + k));
                assert(half.at(at_hq(s, k)) == rows.at(at_hq(s, offset + k)));
                law_output_labels_keep_cells(s, offset + k);
                assert(output_home(s) == output_home(h));
            }
            assert(row(native, half_query(), p) =~= ws);
            assert(row(half, half_query(), p) =~= xs);
            assert(partial.at(p) == g(Op::ContractBf16, ws, xs));
            assert(merged.at(p) == partial.at(p));
        }
    }
    out
}

/// The sum of two bfloat16 values, rounded.
pub open spec fn rounded_sum(g: Arith, left: u32, right: u32) -> u32 {
    one(
        g,
        Op::NarrowBf16,
        two(g, Op::ClipSum, one(g, Op::WidenBf16, right), one(g, Op::WidenBf16, left)),
    )
}

/// Adds the sums of the two halves up.
pub fn add_partials<F: Fn(Op, Vec<u32>, Vec<u32>) -> u32>(
    alu: &F,
    left: &Tensor,
    right: &Tensor,
) -> (out: Tensor)
    requires
        total(*alu),
        left.is(Format::Bf16, merged_results()),
        right.is(Format::Bf16, merged_results()),
    ensures
        out.is(Format::Bf16, merged_results()),
        out.blank_padding(),
        forall|g: Arith, h: int|
            #![trigger computes(*alu, g), at_h(h)]
            computes(*alu, g) && 0 <= h < HIDDEN ==> out.at(at_h(h)) == rounded_sum(
                g,
                left.at(at_h(h)),
                right.at(at_h(h)),
            ),
{
    proof {
        lemma_partial_wf();
    }
    let wide_left = left.map(alu, Op::WidenBf16, Format::F32, merged_results());
    let wide_right = right.map(alu, Op::WidenBf16, Format::F32, merged_results());
    let sum = wide_right.zip(alu, Op::ClipSum, &wide_left, Format::F32, merged_results());
    let out = sum.map(alu, Op::NarrowBf16, Format::Bf16, merged_results());
    proof {
        assert forall|g: Arith, h: int|
            #![trigger computes(*alu, g), at_h(h)]
            computes(*alu, g) && 0 <= h < HIDDEN implies out.at(at_h(h)) == rounded_sum(
            g,
            left.at(at_h(h)),
            right.at(at_h(h)),
        ) by {
            let p = at_h(h);
            lemma_partial_covers(h, 0);
            assert(wide_left.at(p) == one(g, Op::WidenBf16, left.at(p)));
            assert(wide_right.at(p) == one(g, Op::WidenBf16, right.at(p)));
            assert(sum.at(p) == two(g, Op::ClipSum, wide_right.at(p), wide_left.at(p)));
        }
    }
    out
}

/// Applies the scale of each hidden feature.
pub fn apply_output_channel_scale<F: Fn(Op, Vec<u32>, Vec<u32>) -> u32>(
    alu: &F,
    x: &Tensor,
    weight_scale: &Tensor,
) -> (out: Tensor)
    requires
        total(*alu),
        x.is(Format::Bf16, merged_results()),
        weight_scale.is(Format::Bf16, hidden()),
    ensures
        out.is(Format::Bf16, merged_results()),
        out.blank_padding(),
        forall|g: Arith, h: int|
            #![trigger computes(*alu, g), at_h(h)]
            computes(*alu, g) && 0 <= h < HIDDEN ==> out.at(at_h(h)) == product(
                g,
                x.at(at_h(h)),
                weight_scale.at(at_h(h)),
            ),
{
    proof {
        lemma_partial_wf();
    }
    let scales = weight_scale.relayout(merged_results());
    let wide_scales = scales.map(alu, Op::WidenBf16, Format::F32, merged_results());
    let wide = x.map(alu, Op::WidenBf16, Format::F32, merged_results());
    let products = wide.zip(alu, Op::Multiply, &wide_scales, Format::F32, merged_results());
    let out = products.map(alu, Op::NarrowBf16, Format::Bf16, merged_results());
    proof {
        assert forall|g: Arith, h: int|
            #![trigger computes(*alu, g), at_h(h)]
            computes(*alu, g) && 0 <= h < HIDDEN implies out.at(at_h(h)) == product(
            g,
            x.at(at_h(h)),
            weight_scale.at(at_h(h)),
        ) by {
            let p = at_h(h);
            lemma_partial_covers(h, 0);
            assert(scales.at(p) == weight_scale.at(p));
            assert(wide_scales.at(p) == one(g, Op::WidenBf16, scales.at(p)));
            assert(wide.at(p) == one(g, Op::WidenBf16, x.at(p)));
            assert(products.at(p) == two(g, Op::Multiply, wide.at(p), wide_scales.at(p)));
        }
    }
    out
}

/// What the output projection gives for hidden feature `h`: the rounded sums of the two halves of
/// the query features, added up, times the scale.
pub open spec fn output_value(
    g: Arith,
    x: Tensor,
    weight: Tensor,
    weight_scale: Tensor,
    h: int,
) -> u32 {
    product(
        g,
        rounded_sum(
            g,
            partial_value(g, output_weights(weight, h, 0), output_input(x, h, 0)),
            partial_value(g, output_weights(weight, h, 2048), output_input(x, h, 2048)),
        ),
        weight_scale.at(at_h(h)),
    )
}

/// Projects the query features to the hidden features, in two halves, and gathers the result in
/// one slice by way of the large memory.
pub fn project_output<F: Fn(Op, Vec<u32>, Vec<u32>) -> u32>(
    alu: &F,
    x: &Tensor,
    weight: &Tensor,
    weight_scale: &Tensor,
) -> (out: Tensor)
    requires
        total(*alu),
        x.is(Format::Bf16, output_replicated(query())),
        weight.is(Format::F8, output_matrix()),
        weight_scale.is(Format::Bf16, hidden()),
    ensures
        out.is(Format::Bf16, single(hidden())),
        out.blank_padding(),
        forall|g: Arith, h: int|
            #![trigger computes(*alu, g), at_h(h)]
            computes(*alu, g) && 0 <= h < HIDDEN ==> out.at(at_h(h)) == output_value(
                g,
                *x,
                *weight,
                *weight_scale,
                h,
            ),
{
    proof {
        lemma_hidden_row_wf();
    }
    let left = output_partial(alu, x, weight, 0);
    let right = output_partial(alu, x, weight, 2048);
    let sum = add_partials(alu, &left, &right);
    let result = apply_output_channel_scale(alu, &sum, weight_scale);
    let stored = result.relayout(hidden());
    let out = stored.relayout(single(hidden()));
    proof {
        assert forall|g: Arith, h: int|
            #![trigger computes(*alu, g), at_h(h)]
            computes(*alu, g) && 0 <= h < HIDDEN implies out.at(at_h(h)) == output_value(
            g,
            *x,
            *weight,
            *weight_scale,
            h,
        ) by {
            lemma_hidden_row_covers(h);
            assert(out.at(at_h(h)) == stored.at(at_h(h)));
            assert(stored.at(at_h(h)) == result.at(at_h(h)));
        }
    }
    out
}

/// A quarter of the query features.
#[verifier::allow_in_spec]
fn quarter_query() -> Layout
    returns
        digit(Axis::Q, 1, 1024, Layout::End),
{
    digit(Axis::Q, 1, 1024, Layout::End)
}

/// The quarters of the query features, each in a slice of its own.
#[verifier::allow_in_spec]
fn quarters() -> Layout
    returns
        digit(Axis::Q, 1024, 4, Layout::End),
{
    digit(Axis::Q, 1024, 4, Layout::End)
}

/// The high and the low parts.
#[verifier::allow_in_spec]
fn pair() -> Layout
    returns
        digit(Axis::Part, 1, 2, Layout::End),
{
    digit(Axis::Part, 1, 2, Layout::End)
}

/// Thirty rows, and what each of them holds, in the slice of a quarter.
#[verifier::allow_in_spec]
fn thirty_of(rest: Layout) -> Layout
    returns
        k_rows(digit(Axis::H, 1, 30, rest)),
{
    k_rows(digit(Axis::H, 1, 30, rest))
}

/// The query features of a quarter that hidden feature `h` is computed from.
pub open spec fn quarter_input(x: Tensor, h: int, quarter: int) -> Seq<u32> {
    Seq::new(1024, |k: int| x.at(at_hq(h, 1024 * quarter + k)))
}

/// The weights of hidden feature `h` for a quarter of the query features.
pub open spec fn quarter_weights(weight: Tensor, h: int, quarter: int) -> Seq<u32> {
    Seq::new(1024, |k: int| weight.at(at_hq(h, 1024 * quarter + k)))
}

/// The contraction of a row of weights with the high (0) or low (1) parts of the values, times
/// the scale of the parts.
pub open spec fn part_total(g: Arith, weights: Seq<u32>, xs: Seq<u32>, part: int) -> u32 {
    let s = group_scale(g, xs);
    two(
        g,
        Op::Multiply,
        g(Op::ContractF8, weights, Seq::new(xs.len(), |k: int| part_of(g, xs[k], s, part))),
        part_scale(g, s, part),
    )
}

/// The contraction of a row of weights with both parts of the values.
pub open spec fn quarter_total(g: Arith, weights: Seq<u32>, xs: Seq<u32>) -> u32 {
    fold(g, Op::TotalInSlice, Seq::new(2, |part: int| part_total(g, weights, xs, part)))
}

/// What the output projection by quarters gives for hidden feature `h`: the totals of the four
/// quarters, added up, rounded, times the scale.
pub open spec fn sharded_value(
    g: Arith,
    x: Tensor,
    weight: Tensor,
    weight_scale: Tensor,
    h: int,
) -> u32 {
    let sum = fold(
        g,
        Op::TotalAcrossSlices,
        Seq::new(
            4,
            |quarter: int|
                quarter_total(
                    g,
                    quarter_weights(weight, h, quarter),
                    quarter_input(x, h, quarter),
                ),
        ),
    );
    product(g, one(g, Op::NarrowBf16, sum), weight_scale.at(at_h(h)))
}

proof fn lemma_sharded_wf()
    ensures
        thirty_of(quarter_query()).wf(),
        thirty_of(pair()).wf(),
        thirty_of(Layout::End).wf(),
        quarter_query().wf(),
        quarters().wf(),
        pair().wf(),
        thirty_results().wf(),
        merged_results().wf(),
{
    reveal_with_fuel(Layout::volume, 8);
    reveal_with_fuel(Layout::reach, 8);
    reveal_with_fuel(Layout::terms_wf, 8);
}

proof fn lemma_sharded_covers(h: int, q: int, part: int)
    requires
        0 <= h < HIDDEN,
        0 <= q < QUERY,
        0 <= part < 2,
    ensures
        thirty_of(quarter_query()).covers(at_hq(h, q)),
        q % 1024 == 0 ==> thirty_of(pair()).covers(with_part(at_hq(h, q), part)),
        q % 1024 == 0 ==> thirty_of(Layout::End).covers(at_hq(h, q)),
        thirty_of(quarter_query()).position(with_part(at_hq(h, q), part)) == thirty_of(
            quarter_query(),
        ).position(at_hq(h, q)),
{
    lemma_three_digits(h, 30, 64, 1920, 2);
    lemma_two_digits(q, 1024, 4);
    lemma_two_digits(part, 1, 2);
    assert(thirty_of(quarter_query()).covers(at_hq(h, q))) by {
        reveal_with_fuel(Layout::kept, 8);
    }
    if q % 1024 == 0 {
        assert(thirty_of(pair()).covers(with_part(at_hq(h, q), part))) by {
            reveal_with_fuel(Layout::kept, 8);
        }
        assert(thirty_of(Layout::End).covers(at_hq(h, q))) by {
            reveal_with_fuel(Layout::kept, 8);
        }
    }
    reveal_with_fuel(Layout::position, 8);
}

/// The thirty rows of a slice meet the same values.
proof fn lemma_sharded_slice(h: int, q: int, part: int)
    requires
        0 <= h < HIDDEN,
    ensures
        k_rows(quarter_query()).position(at_hq(h, q)) == k_rows(quarter_query()).position(
            at_hq(h - h % 30, q),
        ),
        k_rows(digit(Axis::Part, 1, 2, quarter_query())).position(with_part(at_hq(h, q), part))
            == k_rows(digit(Axis::Part, 1, 2, quarter_query())).position(
            with_part(at_hq(h - h % 30, q), part),
        ),
        k_rows(digit(Axis::Part, 1, 2, room(8, Layout::End))).position(
            with_part(at_hq(h, q), part),
        ) == k_rows(digit(Axis::Part, 1, 2, room(8, Layout::End))).position(
            with_part(at_hq(h - h % 30, q), part),
        ),
        0 <= h - h % 30 < HIDDEN,
        (h - h % 30) % 30 == 0,
{
    let s = h - h % 30;
    lemma_same_run(h, 30, 128, 0);
    lemma_two_digits(h, 1920, 2);
    assert(s / 1920 == h / 1920);
    assert(s / 30 == h / 30);
    reveal_with_fuel(Layout::position, 8);
}

/// What a row meets in the slice of a quarter.
proof fn lemma_part_total(
    g: Arith,
    x: Tensor,
    weight: Tensor,
    parts: Tensor,
    scales: Tensor,
    weight_f8: Tensor,
    h: int,
    quarter: int,
    part: int,
)
    requires
        x.layout == k_rows(quarter_query()),
        parts.layout == k_rows(digit(Axis::Part, 1, 2, quarter_query())),
        scales.layout == k_rows(digit(Axis::Part, 1, 2, room(8, Layout::End))),
        weight_f8.layout == thirty_of(quarter_query()),
        weight_f8.holds(moved(weight)),
        forall|p: Point|
            #![trigger with_part(p, part)]
            Groups::Shards.has(p) ==> parts.at(with_part(p, part)) == part_of(
                g,
                x.at(p),
                Groups::Shards.scale(g, x, p),
                part,
            ),
        forall|p: Point|
            #![trigger part_scale(g, Groups::Shards.scale(g, x, p), part)]
            Groups::Shards.has(p) ==> scales.at(with_part(Groups::Shards.first(p), part))
                == part_scale(g, Groups::Shards.scale(g, x, p), part),
        0 <= h < HIDDEN,
        0 <= quarter < 4,
        0 <= part < 2,
    ensures
        ({
            let xs = quarter_input(x, h, quarter);
            let s = group_scale(g, xs);
            let p = with_part(at_hq(h, 1024 * quarter), part);
            &&& row(weight_f8, quarter_query(), p) == quarter_weights(weight, h, quarter)
            &&& row(parts, quarter_query(), p) == Seq::new(
                xs.len(),
                |k: int| part_of(g, xs[k], s, part),
            )
            &&& scales.at(p) == part_scale(g, s, part)
        }),
{
    let q = 1024 * quarter;
    let f = h - h % 30;
    let xs = quarter_input(x, h, quarter);
    let s = group_scale(g, xs);
    let p = with_part(at_hq(h, q), part);
    let ws = quarter_weights(weight, h, quarter);
    let ps = Seq::new(xs.len(), |k: int| part_of(g, xs[k], s, part));
    lemma_steps(Axis::Q, 1, 1024, 0);
    lemma_sharded_slice(h, q, part);
    assert forall|k: int| 0 <= k < 1024 implies #[trigger] Groups::Shards.scale(
        g,
        x,
        at_hq(f, q + k),
    ) == s by {
        let m = at_hq(f, q + k);
        assert((q + k) % 1024 == k);
        assert forall|j: int| 0 <= j < 1024 implies #[trigger] Groups::Shards.members(x, m)[j]
            == xs[j] by {
            assert(Groups::Shards.first(m).plus(only(Axis::Q, j)) == at_hq(f, q + j));
            lemma_sharded_slice(h, q + j, part);
        }
        assert(Groups::Shards.members(x, m) =~= xs);
    }
    assert forall|k: int|
        #![trigger ws[k]]
        #![trigger ps[k]]
        0 <= k < 1024 implies row(weight_f8, quarter_query(), p)[k] == ws[k] && row(
        parts,
        quarter_query(),
        p,
    )[k] == ps[k] by {
        let m = at_hq(f, q + k);
        lemma_steps(Axis::Q, 1, 1024, k);
        assert(p.plus(only(Axis::Q, k * 1)) == with_part(at_hq(h, q + k), part));
        lemma_sharded_covers(h, q + k, part);
        lemma_sharded_slice(h, q + k, part);
        assert(weight_f8.at(at_hq(h, q + k)) == weight.at(at_hq(h, q + k)));
        assert(Groups::Shards.has(m));
        assert(parts.at(with_part(m, part)) == part_of(
            g,
            x.at(m),
            Groups::Shards.scale(g, x, m),
            part,
        ));
    }
    assert(row(weight_f8, quarter_query(), p) =~= ws);
    assert(row(parts, quarter_query(), p) =~= ps);
    let t = at_hq(f, q);
    assert(Groups::Shards.has(t));
    assert(Groups::Shards.first(t) == t);
    assert(Groups::Shards.scale(g, x, at_hq(f, q + 0)) == s);
    assert(scales.at(with_part(Groups::Shards.first(t), part)) == part_scale(
        g,
        Groups::Shards.scale(g, x, t),
        part,
    ));
}

/// Projects the query features to the hidden features by quarters: each of four neighbouring
/// slices contracts a quarter of the query features, in high and low parts, and the four totals
/// are added up.
pub fn project_output_k_sharded_distributed<F: Fn(Op, Vec<u32>, Vec<u32>) -> u32>(
    alu: &F,
    x: &Tensor,
    weight: &Tensor,
    weight_scale: &Tensor,
) -> (out: Tensor)
    requires
        total(*alu),
        x.is(Format::Bf16, k_rows(digit(Axis::Q, 1, 1024, Layout::End))),
        weight.is(Format::F8, output_matrix()),
        weight_scale.is(Format::Bf16, hidden()),
    ensures
        out.is(Format::Bf16, merged_results()),
        out.blank_padding(),
        forall|g: Arith, h: int|
            #![trigger computes(*alu, g), at_h(h)]
            computes(*alu, g) && 0 <= h < HIDDEN ==> out.at(at_h(h)) == sharded_value(
                g,
                *x,
                *weight,
                *weight_scale,
                h,
            ),
{
    proof {
        lemma_sharded_wf();
        lemma_steps(Axis::Q, 1, 1024, 0);
        lemma_steps(Axis::Q, 1024, 4, 0);
        lemma_steps(Axis::Part, 1, 2, 0);
    }
    let (parts, scales) = split(alu, x, Groups::Shards);
    let weight_f8 = weight.relayout(thirty_of(quarter_query()));
    let sums = weight_f8.contract(
        alu,
        Op::ContractF8,
        &parts,
        &quarter_query(),
        Format::F32,
        thirty_of(pair()),
    );
    let weighed = sums.zip(alu, Op::Multiply, &scales, Format::F32, thirty_of(pair()));
    let both = weighed.reduce(
        alu,
        Op::TotalInSlice,
        &pair(),
        Format::F32,
        thirty_of(Layout::End),
    );
    let partial = both.reduce(
        alu,
        Op::TotalAcrossSlices,
        &quarters(),
        Format::F32,
        thirty_results(),
    );
    let merged = partial.shuffle(merged_results());
    let result = merged.map(alu, Op::NarrowBf16, Format::Bf16, merged_results());
    let out = apply_output_channel_scale(alu, &result, weight_scale);
    proof {
        assert forall|g: Arith, h: int|
            #![trigger computes(*alu, g), at_h(h)]
            computes(*alu, g) && 0 <= h < HIDDEN implies out.at(at_h(h)) == sharded_value(
            g,
            *x,
            *weight,
            *weight_scale,
            h,
        ) by {
            let p = at_h(h);
            lemma_partial_covers(h, 0);
            let totals = Seq::new(
                4,
                |quarter: int|
                    quarter_total(
                        g,
                        quarter_weights(*weight, h, quarter),
                        quarter_input(*x, h, quarter),
                    ),
            );
            assert forall|quarter: int| 0 <= quarter < 4 implies row(both, quarters(), p)[quarter]
                == #[trigger] totals[quarter] by {
                let q = 1024 * quarter;
                let ws = quarter_weights(*weight, h, quarter);
                let xs = quarter_input(*x, h, quarter);
                let pairs = Seq::new(2, |part: int| part_total(g, ws, xs, part));
                lemma_steps(Axis::Q, 1024, 4, quarter);
                assert(p.plus(only(Axis::Q, quarter * 1024)) == at_hq(h, q));
                lemma_sharded_covers(h, q, 0);
                assert forall|part: int| 0 <= part < 2 implies row(
                    weighed,
                    pair(),
                    at_hq(h, q),
                )[part] == #[trigger] pairs[part] by {
                    lemma_part_total(g, *x, *weight, parts, scales, weight_f8, h, quarter, part);
                    lemma_sharded_covers(h, q, part);
                    lemma_steps(Axis::Part, 1, 2, part);
                    assert(at_hq(h, q).plus(only(Axis::Part, part * 1)) == with_part(
                        at_hq(h, q),
                        part,
                    ));
                    assert(weighed.at(with_part(at_hq(h, q), part)) == two(
                        g,
                        Op::Multiply,
                        sums.at(with_part(at_hq(h, q), part)),
                        scales.at(with_part(at_hq(h, q), part)),
                    ));
                }
                assert(row(weighed, pair(), at_hq(h, q)) =~= pairs);
                assert(both.at(at_hq(h, q)) == fold(g, Op::TotalInSlice, pairs));
            }
            assert(row(both, quarters(), p) =~= totals);
            assert(partial.at(p) == fold(g, Op::TotalAcrossSlices, totals));
            assert(merged.at(p) == partial.at(p));
            assert(result.at(p) == one(g, Op::NarrowBf16, merged.at(p)));
        }
    }
    out
}

/// An output row depends on the query features alone, not on the slice whose copy it is computed
/// from.
pub proof fn law_output_of_copies(
    g: Arith,
    x: Tensor,
    values: Seq<u32>,
    weight: Tensor,
    weight_scale: Tensor,
    h: int,
)
    requires
        values.len() == QUERY,
        forall|r: int, q: int|
            0 <= r < HIDDEN && 0 <= q < QUERY ==> #[trigger] x.at(output_home(r).plus(at_q(q)))
                == values[q],
        0 <= h < HIDDEN,
    ensures
        output_value(g, x, weight, weight_scale, h) == product(
            g,
            rounded_sum(
                g,
                partial_value(g, output_weights(weight, h, 0), values.subrange(0, 2048)),
                partial_value(g, output_weights(weight, h, 2048), values.subrange(2048, 4096)),
            ),
            weight_scale.at(at_h(h)),
        ),
{
    assert(output_input(x, h, 0) =~= values.subrange(0, 2048));
    assert(output_input(x, h, 2048) =~= values.subrange(2048, 4096));
}

/// The order of the two halves does not matter, where a unit's sums do not depend on the order of
/// their operands.
pub proof fn law_partials_commute(g: Arith, left: u32, right: u32)
    requires
        forall|x: u32, y: u32| #[trigger]
            two(g, Op::ClipSum, x, y) == two(g, Op::ClipSum, y, x),
    ensures
        rounded_sum(g, left, right) == rounded_sum(g, right, left),
{
}

/// A half of zero adds nothing, where a unit adds nothing with zero and rounding gives a widened
/// value back. A negative zero is left out: the sum of the two zeros is the positive one.
pub proof fn law_zero_partial_is_neutral(g: Arith, left: u32)
    requires
        forall|v: u32|
            v != 0x8000_0000 ==> #[trigger] two(g, Op::ClipSum, one(g, Op::WidenBf16, 0), v) == v,
        one(g, Op::NarrowBf16, one(g, Op::WidenBf16, left)) == left,
        one(g, Op::WidenBf16, left) != 0x8000_0000,
    ensures
        rounded_sum(g, left, 0) == left,
{
}

} // verus!
