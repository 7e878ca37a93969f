//! The feed-forward block: two projections up, a gate, and one projection down.
use crate::activation::{gated, geglu, rescaled};
use crate::blocks::{
    blocks_total, decoded_f4, lemma_loaded_scales, lemma_loaded_weights, lemma_same_slice,
    project_rows, Matrix,
};
use crate::engine::{computes, fold, one, total, two, Arith, Op};
use crate::layout::{
    at_h, at_hl, at_l, lemma_same_run, lemma_three_digits, lemma_two_digits, only, origin, Axis,
    Layout,
};
use crate::operands::{
    feed_parts, feed_scales, feed_split, feed_values, hidden_parts, hidden_scales, hidden_split,
    hidden_values, load_down_input, load_up_input, prepare_down_input, prepare_up_input,
};
use crate::places::{
    digit, down_partials, down_results, down_rows, hidden, lemma_hidden_row_covers,
    lemma_hidden_row_wf, lemma_steps, room, single, up_results, up_rows, FEED, HIDDEN,
};
use crate::quantize::{list_parts, list_scales, with_part};
use crate::tensor::{moved, row, Format, Tensor};
use vstd::prelude::*;

verus! {

/// What an up projection gives for feed-forward feature `l`: the totals of both parts, added up
/// and rounded.
pub open spec fn up_value(
    g: Arith,
    x: Tensor,
    x_scales: Tensor,
    weight: Tensor,
    scale: Tensor,
    l: int,
) -> u32 {
    one(
        g,
        Op::NarrowBf16,
        fold(
            g,
            Op::TotalInSlice,
            Seq::new(
                2,
                |part: int| Matrix::Up.row_total(g, x, x_scales, weight, scale, l, 0, part),
            ),
        ),
    )
}

proof fn lemma_up_matrix_wf()
    ensures
        up_results().wf(),
        up_rows(digit(Axis::L, 1, 60, digit(Axis::Part, 1, 2, Layout::End))).wf(),
        digit(Axis::Part, 1, 2, Layout::End).wf(),
{
    reveal_with_fuel(Layout::volume, 8);
    reveal_with_fuel(Layout::reach, 8);
    reveal_with_fuel(Layout::terms_wf, 8);
}

proof fn lemma_up_matrix_covers(l: int, part: int)
    requires
        0 <= l < FEED,
        0 <= part < 2,
    ensures
        up_results().covers(at_l(l)),
        up_rows(digit(Axis::L, 1, 60, digit(Axis::Part, 1, 2, Layout::End))).covers(
            with_part(at_l(l), part),
        ),
{
    reveal_with_fuel(Layout::kept, 8);
    lemma_three_digits(l, 60, 128, 7680, 2);
    lemma_two_digits(part, 1, 2);
}

/// Projects the hidden features up: every row of weights against the parts of the hidden
/// features.
pub fn project_up_matrix<F: Fn(Op, Vec<u32>, Vec<u32>) -> u32>(
    alu: &F,
    x: &Tensor,
    x_scales: &Tensor,
    weight: &Tensor,
    scale: &Tensor,
) -> (out: Tensor)
    requires
        total(*alu),
        x.is(Format::F8, Matrix::Up.parts()),
        x_scales.is(Format::F32, Matrix::Up.part_scales()),
        weight.is(Format::F4, Matrix::Up.weights()),
        scale.is(Format::F8, Matrix::Up.scales()),
    ensures
        out.is(Format::Bf16, up_results()),
        out.blank_padding(),
        forall|g: Arith, l: int|
            #![trigger computes(*alu, g), at_l(l)]
            computes(*alu, g) && 0 <= l < FEED ==> out.at(at_l(l)) == up_value(
                g,
                *x,
                *x_scales,
                *weight,
                *scale,
                l,
            ),
{
    proof {
        lemma_up_matrix_wf();
        lemma_steps(Axis::Part, 1, 2, 0);
    }
    let partials = project_rows(alu, Matrix::Up, x, x_scales, weight, scale);
    let gathered = partials.shuffle(
        up_rows(digit(Axis::L, 1, 60, digit(Axis::Part, 1, 2, Layout::End))),
    );
    let pair = digit(Axis::Part, 1, 2, Layout::End);
    let totals = gathered.reduce(alu, Op::TotalInSlice, &pair, Format::F32, up_results());
    let out = totals.map(alu, Op::NarrowBf16, Format::Bf16, up_results());
    proof {
        assert forall|g: Arith, l: int|
            #![trigger computes(*alu, g), at_l(l)]
            computes(*alu, g) && 0 <= l < FEED implies out.at(at_l(l)) == up_value(
            g,
            *x,
            *x_scales,
            *weight,
            *scale,
            l,
        ) by {
            let p = at_l(l);
            let parts = Seq::new(
                2,
                |part: int| Matrix::Up.row_total(g, *x, *x_scales, *weight, *scale, l, 0, part),
            );
            lemma_up_matrix_covers(l, 0);
            assert(Matrix::Up.has(l, 0));
            assert(Matrix::Up.spot(l, 0) == p);
            assert forall|part: int| 0 <= part < 2 implies row(gathered, pair, p)[part]
                == #[trigger] parts[part] by {
                lemma_up_matrix_covers(l, part);
                lemma_steps(Axis::Part, 1, 2, part);
                assert(p.plus(only(Axis::Part, part * 1)) == with_part(p, part));
                assert(gathered.at(with_part(p, part)) == partials.at(with_part(p, part)));
            }
            assert(row(gathered, pair, p) =~= parts);
            assert(totals.at(p) == fold(g, Op::TotalInSlice, parts));
        }
    }
    out
}

/// The total of the row of hidden feature `h` over both halves of the feed-forward features, for
/// one part.
pub open spec fn down_total(
    g: Arith,
    x: Tensor,
    x_scales: Tensor,
    weight: Tensor,
    scale: Tensor,
    h: int,
    part: int,
) -> u32 {
    fold(
        g,
        Op::TotalAcrossSlices,
        Seq::new(
            2,
            |half: int|
                Matrix::Down.row_total(g, x, x_scales, weight, scale, h, 7680 * half, part),
        ),
    )
}

/// What the down projection gives for hidden feature `h`: the totals of both parts, added up and
/// rounded.
pub open spec fn down_value(
    g: Arith,
    x: Tensor,
    x_scales: Tensor,
    weight: Tensor,
    scale: Tensor,
    h: int,
) -> u32 {
    one(
        g,
        Op::NarrowBf16,
        fold(
            g,
            Op::TotalInSlice,
            Seq::new(2, |part: int| down_total(g, x, x_scales, weight, scale, h, part)),
        ),
    )
}

proof fn lemma_down_matrix_wf()
    ensures
        down_results().wf(),
        down_rows(digit(Axis::H, 1, 60, digit(Axis::Part, 1, 2, Layout::End))).wf(),
        down_partials(digit(Axis::H, 1, 15, digit(Axis::Part, 1, 2, Layout::End))).wf(),
        digit(Axis::L, 7680, 2, Layout::End).wf(),
        digit(Axis::Part, 1, 2, Layout::End).wf(),
{
    reveal_with_fuel(Layout::volume, 8);
    reveal_with_fuel(Layout::reach, 8);
    reveal_with_fuel(Layout::terms_wf, 8);
}

proof fn lemma_down_matrix_covers(h: int, part: int)
    requires
        0 <= h < HIDDEN,
        0 <= part < 2,
    ensures
        down_results().covers(at_h(h)),
        down_rows(digit(Axis::H, 1, 60, digit(Axis::Part, 1, 2, Layout::End))).covers(
            with_part(at_h(h), part),
        ),
        down_partials(digit(Axis::H, 1, 15, digit(Axis::Part, 1, 2, Layout::End))).covers(
            with_part(at_h(h), part),
        ),
{
    reveal_with_fuel(Layout::kept, 8);
    lemma_three_digits(h, 60, 32, 1920, 2);
    lemma_three_digits(h, 15, 128, 1920, 2);
    lemma_two_digits(part, 1, 2);
}

/// Projects the feed-forward features down: every row of weights against the parts of the
/// feed-forward features. The two halves of a row are added up before the two parts are.
pub fn project_down_matrix<F: Fn(Op, Vec<u32>, Vec<u32>) -> u32>(
    alu: &F,
    x: &Tensor,
    x_scales: &Tensor,
    weight: &Tensor,
    scale: &Tensor,
) -> (out: Tensor)
    requires
        total(*alu),
        x.is(Format::F8, Matrix::Down.parts()),
        x_scales.is(Format::F32, Matrix::Down.part_scales()),
        weight.is(Format::F4, Matrix::Down.weights()),
        scale.is(Format::F8, Matrix::Down.scales()),
    ensures
        out.is(Format::Bf16, down_results()),
        out.blank_padding(),
        forall|g: Arith, h: int|
            #![trigger computes(*alu, g), at_h(h)]
            computes(*alu, g) && 0 <= h < HIDDEN ==> out.at(at_h(h)) == down_value(
                g,
                *x,
                *x_scales,
                *weight,
                *scale,
                h,
            ),
{
    proof {
        lemma_down_matrix_wf();
        lemma_steps(Axis::Part, 1, 2, 0);
        lemma_steps(Axis::L, 7680, 2, 0);
    }
    let halves = digit(Axis::L, 7680, 2, Layout::End);
    let pair = digit(Axis::Part, 1, 2, Layout::End);
    let partials = project_rows(alu, Matrix::Down, x, x_scales, weight, scale);
    let whole = partials.reduce(
        alu,
        Op::TotalAcrossSlices,
        &halves,
        Format::F32,
        down_partials(digit(Axis::H, 1, 15, digit(Axis::Part, 1, 2, Layout::End))),
    );
    let gathered = whole.shuffle(
        down_rows(digit(Axis::H, 1, 60, digit(Axis::Part, 1, 2, Layout::End))),
    );
    let totals = gathered.reduce(alu, Op::TotalInSlice, &pair, Format::F32, down_results());
    let out = totals.map(alu, Op::NarrowBf16, Format::Bf16, down_results());
    proof {
        assert forall|g: Arith, h: int|
            #![trigger computes(*alu, g), at_h(h)]
            computes(*alu, g) && 0 <= h < HIDDEN implies out.at(at_h(h)) == down_value(
            g,
            *x,
            *x_scales,
            *weight,
            *scale,
            h,
        ) by {
            let p = at_h(h);
            let parts = Seq::new(
                2,
                |part: int| down_total(g, *x, *x_scales, *weight, *scale, h, part),
            );
            lemma_down_matrix_covers(h, 0);
            assert forall|part: int| 0 <= part < 2 implies row(gathered, pair, p)[part]
                == #[trigger] parts[part] by {
                let q = with_part(p, part);
                let sums = Seq::new(
                    2,
                    |half: int|
                        Matrix::Down.row_total(
                            g,
                            *x,
                            *x_scales,
                            *weight,
                            *scale,
                            h,
                            7680 * half,
                            part,
                        ),
                );
                lemma_down_matrix_covers(h, part);
                lemma_steps(Axis::Part, 1, 2, part);
                assert(p.plus(only(Axis::Part, part * 1)) == q);
                assert(gathered.at(q) == whole.at(q));
                assert forall|half: int| 0 <= half < 2 implies row(partials, halves, q)[half]
                    == #[trigger] sums[half] by {
                    lemma_steps(Axis::L, 7680, 2, half);
                    assert(Matrix::Down.has(h, 7680 * half));
                    assert(q.plus(only(Axis::L, half * 7680)) == with_part(
                        Matrix::Down.spot(h, 7680 * half),
                        part,
                    ));
                }
                assert(row(partials, halves, q) =~= sums);
                assert(whole.at(q) == fold(g, Op::TotalAcrossSlices, sums));
            }
            assert(row(gathered, pair, p) =~= parts);
            assert(totals.at(p) == fold(g, Op::TotalInSlice, parts));
        }
    }
    out
}

proof fn lemma_part_scales_wf()
    ensures
        Matrix::Up.part_scales().wf(),
        Matrix::Down.part_scales().wf(),
{
    reveal_with_fuel(Layout::volume, 8);
    reveal_with_fuel(Layout::reach, 8);
    reveal_with_fuel(Layout::terms_wf, 8);
    assert(Matrix::Up.part_scales().wf());
    assert(Matrix::Down.part_scales().wf());
}

/// The scales of hidden parts, brought to every slice, are the same for every row.
proof fn lemma_up_scales(stored: Tensor, loaded: Tensor, l: int, i: int, part: int)
    requires
        stored.is(Format::F32, hidden_scales()),
        loaded.is(Format::F32, Matrix::Up.part_scales()),
        loaded.holds(moved(stored)),
        0 <= l < FEED,
        0 <= i < 4,
        0 <= part < 2,
    ensures
        loaded.at(with_part(at_hl(960 * i, l), part)) == stored.at(
            with_part(at_hl(960 * i, l), part),
        ),
{
    let s = l - l % 30;
    let p = with_part(at_hl(960 * i, l), part);
    let q = with_part(at_hl(960 * i, s), part);
    lemma_same_run(l, 30, 512, 0);
    lemma_same_slice(Matrix::Up, l, s, 0, 960 * i, part);
    assert(Matrix::Up.spot(l, 960 * i) == at_hl(960 * i, l));
    assert(Matrix::Up.spot(s, 960 * i) == at_hl(960 * i, s));
    assert(Matrix::Up.part_scales().covers(q)) by {
        reveal_with_fuel(Layout::kept, 8);
        lemma_three_digits(s, 30, 256, 7680, 2);
        lemma_two_digits(960 * i, 960, 4);
        lemma_two_digits(part, 1, 2);
    }
    assert(loaded.at(q) == stored.at(q));
    assert(hidden_scales().position(p) == hidden_scales().position(q)) by {
        reveal_with_fuel(Layout::position, 8);
    }
}

/// Rows that meet the same values give the same.
proof fn lemma_up_value(
    g: Arith,
    x: Tensor,
    x_scales: Tensor,
    y: Tensor,
    y_scales: Tensor,
    weight: Tensor,
    scale: Tensor,
    l: int,
)
    requires
        forall|part: int|
            0 <= part < 2 ==> #[trigger] Matrix::Up.part_row(x, l, 0, part)
                == Matrix::Up.part_row(y, l, 0, part),
        forall|part: int|
            0 <= part < 2 ==> #[trigger] Matrix::Up.part_scale_row(x_scales, l, 0, part)
                == Matrix::Up.part_scale_row(y_scales, l, 0, part),
    ensures
        up_value(g, x, x_scales, weight, scale, l) == up_value(g, y, y_scales, weight, scale, l),
{
    assert(Seq::new(
        2,
        |part: int| Matrix::Up.row_total(g, x, x_scales, weight, scale, l, 0, part),
    ) =~= Seq::new(
        2,
        |part: int| Matrix::Up.row_total(g, y, y_scales, weight, scale, l, 0, part),
    ));
}

/// The two projections up, of the same hidden features.
pub fn project_up_and_gate<F: Fn(Op, Vec<u32>, Vec<u32>) -> u32>(
    alu: &F,
    parts: &Tensor,
    scales: &Tensor,
    up_weight: &Tensor,
    gate_weight: &Tensor,
    up_scale: &Tensor,
    gate_scale: &Tensor,
) -> (out: (Tensor, Tensor))
    requires
        total(*alu),
        parts.is(Format::F8, hidden_parts()),
        scales.is(Format::F32, hidden_scales()),
        up_weight.is(Format::F4, Matrix::Up.weights()),
        gate_weight.is(Format::F4, Matrix::Up.weights()),
        up_scale.is(Format::F8, Matrix::Up.scales()),
        gate_scale.is(Format::F8, Matrix::Up.scales()),
    ensures
        out.0.is(Format::Bf16, up_results()),
        out.0.blank_padding(),
        out.1.is(Format::Bf16, up_results()),
        out.1.blank_padding(),
        forall|g: Arith, l: int|
            #![trigger computes(*alu, g), at_l(l)]
            computes(*alu, g) && 0 <= l < FEED ==> {
                &&& out.0.at(at_l(l)) == up_value(g, *parts, *scales, *up_weight, *up_scale, l)
                &&& out.1.at(at_l(l)) == up_value(g, *parts, *scales, *gate_weight, *gate_scale, l)
            },
{
    proof {
        lemma_part_scales_wf();
    }
    let x = load_up_input(parts);
    let x_scales = scales.relayout(Matrix::Up.part_scales());
    let up = project_up_matrix(alu, &x, &x_scales, up_weight, up_scale);
    let gate = project_up_matrix(alu, &x, &x_scales, gate_weight, gate_scale);
    proof {
        assert forall|g: Arith, l: int|
            #![trigger computes(*alu, g), at_l(l)]
            computes(*alu, g) && 0 <= l < FEED implies {
            &&& up.at(at_l(l)) == up_value(g, *parts, *scales, *up_weight, *up_scale, l)
            &&& gate.at(at_l(l)) == up_value(g, *parts, *scales, *gate_weight, *gate_scale, l)
        } by {
            let m = Matrix::Up;
            assert forall|part: int| 0 <= part < 2 implies #[trigger] m.part_row(x, l, 0, part)
                == m.part_row(*parts, l, 0, part) by {
                assert forall|h: int| 0 <= h < HIDDEN implies #[trigger] m.part_row(
                    x,
                    l,
                    0,
                    part,
                )[h] == m.part_row(*parts, l, 0, part)[h] by {
                    assert(x.at(with_part(at_hl(h, l), part)) == parts.at(
                        with_part(at_h(h), part),
                    ));
                    assert(hidden_parts().position(with_part(at_hl(h, l), part))
                        == hidden_parts().position(with_part(at_h(h), part))) by {
                        reveal_with_fuel(Layout::position, 8);
                    }
                }
                assert(m.part_row(x, l, 0, part) =~= m.part_row(*parts, l, 0, part));
            }
            assert forall|part: int| 0 <= part < 2 implies #[trigger] m.part_scale_row(
                x_scales,
                l,
                0,
                part,
            ) == m.part_scale_row(*scales, l, 0, part) by {
                assert forall|i: int| 0 <= i < 4 implies #[trigger] m.part_scale_row(
                    x_scales,
                    l,
                    0,
                    part,
                )[i] == m.part_scale_row(*scales, l, 0, part)[i] by {
                    lemma_up_scales(*scales, x_scales, l, i, part);
                }
                assert(m.part_scale_row(x_scales, l, 0, part) =~= m.part_scale_row(
                    *scales,
                    l,
                    0,
                    part,
                ));
            }
            lemma_up_value(g, x, x_scales, *parts, *scales, *up_weight, *up_scale, l);
            lemma_up_value(g, x, x_scales, *parts, *scales, *gate_weight, *gate_scale, l);
        }
    }
    (up, gate)
}

/// The scales of feed-forward parts, brought to every slice, are the same for every row.
proof fn lemma_down_scales(stored: Tensor, loaded: Tensor, h: int, k: int, part: int)
    requires
        stored.is(Format::F32, feed_scales()),
        loaded.is(Format::F32, Matrix::Down.part_scales()),
        loaded.holds(moved(stored)),
        0 <= h < HIDDEN,
        0 <= k < FEED,
        k % 960 == 0,
        0 <= part < 2,
    ensures
        loaded.at(with_part(at_hl(h, k), part)) == stored.at(with_part(at_hl(h, k), part)),
{
    let s = h - h % 15;
    let p = with_part(at_hl(h, k), part);
    let q = with_part(at_hl(s, k), part);
    let start = 7680 * (k / 7680);
    lemma_same_run(h, 15, 256, 0);
    lemma_two_digits(k, 7680, 2);
    assert(Matrix::Down.has(h, start));
    assert(Matrix::Down.has(s, start));
    lemma_same_slice(Matrix::Down, h, s, start, k % 7680, part);
    assert(Matrix::Down.spot(h, start + k % 7680) == at_hl(h, k));
    assert(Matrix::Down.spot(s, start + k % 7680) == at_hl(s, k));
    assert(Matrix::Down.part_scales().covers(q)) by {
        reveal_with_fuel(Layout::kept, 8);
        lemma_three_digits(s, 15, 128, 1920, 2);
        lemma_three_digits(k, 960, 8, 7680, 2);
        lemma_two_digits(part, 1, 2);
    }
    assert(loaded.at(q) == stored.at(q));
    assert(feed_scales().position(p) == feed_scales().position(q)) by {
        reveal_with_fuel(Layout::position, 8);
    }
}

/// Rows that meet the same values give the same.
proof fn lemma_down_value(
    g: Arith,
    x: Tensor,
    x_scales: Tensor,
    y: Tensor,
    y_scales: Tensor,
    weight: Tensor,
    scale: Tensor,
    h: int,
)
    requires
        forall|half: int, part: int|
            0 <= half < 2 && 0 <= part < 2 ==> #[trigger] Matrix::Down.part_row(
                x,
                h,
                7680 * half,
                part,
            ) == Matrix::Down.part_row(y, h, 7680 * half, part),
        forall|half: int, part: int|
            0 <= half < 2 && 0 <= part < 2 ==> #[trigger] Matrix::Down.part_scale_row(
                x_scales,
                h,
                7680 * half,
                part,
            ) == Matrix::Down.part_scale_row(y_scales, h, 7680 * half, part),
    ensures
        down_value(g, x, x_scales, weight, scale, h) == down_value(
            g,
            y,
            y_scales,
            weight,
            scale,
            h,
        ),
{
    let a = Seq::new(2, |part: int| down_total(g, x, x_scales, weight, scale, h, part));
    let b = Seq::new(2, |part: int| down_total(g, y, y_scales, weight, scale, h, part));
    assert forall|part: int| 0 <= part < 2 implies #[trigger] a[part] == b[part] by {
        assert(Seq::new(
            2,
            |half: int|
                Matrix::Down.row_total(g, x, x_scales, weight, scale, h, 7680 * half, part),
        ) =~= Seq::new(
            2,
            |half: int|
                Matrix::Down.row_total(g, y, y_scales, weight, scale, h, 7680 * half, part),
        ));
    }
    assert(a =~= b);
}

/// The projection down, gathered in one slice.
pub fn project_down<F: Fn(Op, Vec<u32>, Vec<u32>) -> u32>(
    alu: &F,
    parts: &Tensor,
    scales: &Tensor,
    weight: &Tensor,
    scale: &Tensor,
) -> (out: Tensor)
    requires
        total(*alu),
        parts.is(Format::F8, feed_parts()),
        scales.is(Format::F32, feed_scales()),
        weight.is(Format::F4, Matrix::Down.weights()),
        scale.is(Format::F8, Matrix::Down.scales()),
    ensures
        out.is(Format::Bf16, single(hidden())),
        out.blank_padding(),
        forall|g: Arith, h: int|
            #![trigger computes(*alu, g), at_h(h)]
            computes(*alu, g) && 0 <= h < HIDDEN ==> out.at(at_h(h)) == down_value(
                g,
                *parts,
                *scales,
                *weight,
                *scale,
                h,
            ),
{
    proof {
        lemma_part_scales_wf();
        lemma_hidden_row_wf();
    }
    let x = load_down_input(parts);
    let x_scales = scales.relayout(Matrix::Down.part_scales());
    let down = project_down_matrix(alu, &x, &x_scales, weight, scale);
    let stored = down.relayout(hidden());
    let out = stored.relayout(single(hidden()));
    proof {
        assert forall|g: Arith, h: int|
            #![trigger computes(*alu, g), at_h(h)]
            computes(*alu, g) && 0 <= h < HIDDEN implies out.at(at_h(h)) == down_value(
            g,
            *parts,
            *scales,
            *weight,
            *scale,
            h,
        ) by {
            let m = Matrix::Down;
            assert forall|half: int, part: int|
                0 <= half < 2 && 0 <= part < 2 implies #[trigger] m.part_row(
                x,
                h,
                7680 * half,
                part,
            ) == m.part_row(*parts, h, 7680 * half, part) by {
                let start = 7680 * half;
                assert forall|k: int| 0 <= k < 7680 implies #[trigger] m.part_row(
                    x,
                    h,
                    start,
                    part,
                )[k] == m.part_row(*parts, h, start, part)[k] by {
                    let l = start + k;
                    assert(x.at(with_part(at_hl(h, l), part)) == parts.at(
                        with_part(at_l(l), part),
                    ));
                    assert(feed_parts().position(with_part(at_hl(h, l), part))
                        == feed_parts().position(with_part(at_l(l), part))) by {
                        reveal_with_fuel(Layout::position, 8);
                    }
                }
                assert(m.part_row(x, h, start, part) =~= m.part_row(*parts, h, start, part));
            }
            assert forall|half: int, part: int|
                0 <= half < 2 && 0 <= part < 2 implies #[trigger] m.part_scale_row(
                x_scales,
                h,
                7680 * half,
                part,
            ) == m.part_scale_row(*scales, h, 7680 * half, part) by {
                let start = 7680 * half;
                assert forall|i: int| 0 <= i < 8 implies #[trigger] m.part_scale_row(
                    x_scales,
                    h,
                    start,
                    part,
                )[i] == m.part_scale_row(*scales, h, start, part)[i] by {
                    lemma_down_scales(*scales, x_scales, h, start + 960 * i, part);
                }
                assert(m.part_scale_row(x_scales, h, start, part) =~= m.part_scale_row(
                    *scales,
                    h,
                    start,
                    part,
                ));
            }
            lemma_down_value(g, x, x_scales, *parts, *scales, *weight, *scale, h);
            lemma_hidden_row_covers(h);
            assert(out.at(at_h(h)) == stored.at(at_h(h)));
            assert(stored.at(at_h(h)) == down.at(at_h(h)));
        }
    }
    out
}

/// What an up projection makes of the hidden features `xs` with one row of weights.
pub open spec fn up_feature(g: Arith, weights: Seq<u32>, scales: Seq<u32>, xs: Seq<u32>) -> u32 {
    one(
        g,
        Op::NarrowBf16,
        fold(
            g,
            Op::TotalInSlice,
            Seq::new(
                2,
                |part: int|
                    blocks_total(
                        g,
                        decoded_f4(g, weights),
                        scales,
                        list_parts(g, xs, part),
                        list_scales(g, xs, part),
                    ),
            ),
        ),
    )
}

/// The total of one half of a row of the down projection, for one part.
pub open spec fn half_total(
    g: Arith,
    weights: Seq<u32>,
    scales: Seq<u32>,
    xs: Seq<u32>,
    half: int,
    part: int,
) -> u32 {
    blocks_total(
        g,
        decoded_f4(g, weights.subrange(7680 * half, 7680 * half + 7680)),
        scales.subrange(480 * half, 480 * half + 480),
        list_parts(g, xs, part).subrange(7680 * half, 7680 * half + 7680),
        list_scales(g, xs, part).subrange(8 * half, 8 * half + 8),
    )
}

/// What the down projection makes of the feed-forward features `xs` with one row of weights.
pub open spec fn down_feature(g: Arith, weights: Seq<u32>, scales: Seq<u32>, xs: Seq<u32>) -> u32 {
    one(
        g,
        Op::NarrowBf16,
        fold(
            g,
            Op::TotalInSlice,
            Seq::new(
                2,
                |part: int|
                    fold(
                        g,
                        Op::TotalAcrossSlices,
                        Seq::new(
                            2,
                            |half: int| half_total(g, weights, scales, xs, half, part),
                        ),
                    ),
            ),
        ),
    )
}

/// The layout of the weights of an up projection in the large memory.
#[verifier::allow_in_spec]
pub fn up_matrix() -> Layout
    returns
        digit(Axis::L, 1, FEED, digit(Axis::H, 1, HIDDEN, Layout::End)),
{
    digit(Axis::L, 1, FEED, digit(Axis::H, 1, HIDDEN, Layout::End))
}

/// The layout of the block scales of an up projection in the large memory.
#[verifier::allow_in_spec]
pub fn up_matrix_scales() -> Layout
    returns
        digit(Axis::L, 1, FEED, digit(Axis::H, 16, 240, Layout::End)),
{
    digit(Axis::L, 1, FEED, digit(Axis::H, 16, 240, Layout::End))
}

/// The layout of the weights of the down projection in the large memory.
#[verifier::allow_in_spec]
pub fn down_matrix() -> Layout
    returns
        digit(Axis::H, 1, HIDDEN, digit(Axis::L, 1, FEED, Layout::End)),
{
    digit(Axis::H, 1, HIDDEN, digit(Axis::L, 1, FEED, Layout::End))
}

/// The layout of the block scales of the down projection in the large memory.
#[verifier::allow_in_spec]
pub fn down_matrix_scales() -> Layout
    returns
        digit(Axis::H, 1, HIDDEN, digit(Axis::L, 16, 960, Layout::End)),
{
    digit(Axis::H, 1, HIDDEN, digit(Axis::L, 16, 960, Layout::End))
}

/// The row of feed-forward feature `l` of the weights of an up projection.
pub open spec fn up_weights(t: Tensor, l: int) -> Seq<u32> {
    Seq::new(HIDDEN as nat, |h: int| t.at(at_hl(h, l)))
}

/// The row of feed-forward feature `l` of the block scales of an up projection.
pub open spec fn up_scales(t: Tensor, l: int) -> Seq<u32> {
    Seq::new(240, |b: int| t.at(at_hl(16 * b, l)))
}

/// The row of hidden feature `h` of the weights of the down projection.
pub open spec fn down_weights(t: Tensor, h: int) -> Seq<u32> {
    Seq::new(FEED as nat, |l: int| t.at(at_hl(h, l)))
}

/// The row of hidden feature `h` of the block scales of the down projection.
pub open spec fn down_scales(t: Tensor, h: int) -> Seq<u32> {
    Seq::new(960, |b: int| t.at(at_hl(h, 16 * b)))
}

/// The rows of an up projection meet the parts of the hidden features.
proof fn lemma_up_parts(
    g: Arith,
    xs: Seq<u32>,
    parts: Tensor,
    scales: Tensor,
    l: int,
    part: int,
)
    requires
        parts.is(Format::F8, hidden_parts()),
        scales.is(Format::F32, hidden_scales()),
        xs.len() == HIDDEN,
        hidden_split(g, xs, parts, scales),
        0 <= part < 2,
    ensures
        Matrix::Up.part_row(parts, l, 0, part) == list_parts(g, xs, part),
        Matrix::Up.part_scale_row(scales, l, 0, part) == list_scales(g, xs, part),
{
    let m = Matrix::Up;
    assert forall|h: int| 0 <= h < HIDDEN implies #[trigger] m.part_row(parts, l, 0, part)[h]
        == list_parts(g, xs, part)[h] by {
        assert(parts.at(with_part(at_h(h), part)) == list_parts(g, xs, part)[h]);
        assert(hidden_parts().position(with_part(at_hl(h, l), part)) == hidden_parts().position(
            with_part(at_h(h), part),
        )) by {
            reveal_with_fuel(Layout::position, 8);
        }
    }
    assert(m.part_row(parts, l, 0, part) =~= list_parts(g, xs, part));
    assert forall|i: int| 0 <= i < 4 implies #[trigger] m.part_scale_row(scales, l, 0, part)[i]
        == list_scales(g, xs, part)[i] by {
        assert(hidden_scales().position(with_part(at_hl(960 * i, l), part))
            == hidden_scales().position(with_part(at_h(960 * i), part))) by {
            reveal_with_fuel(Layout::position, 8);
        }
    }
    assert(m.part_scale_row(scales, l, 0, part) =~= list_scales(g, xs, part));
}

/// An up projection of stored parts is one of the hidden features that they are parts of.
pub proof fn law_up_of_split_features(
    g: Arith,
    xs: Seq<u32>,
    parts: Tensor,
    scales: Tensor,
    weight: Tensor,
    scale: Tensor,
    l: int,
)
    requires
        parts.is(Format::F8, hidden_parts()),
        scales.is(Format::F32, hidden_scales()),
        xs.len() == HIDDEN,
        hidden_split(g, xs, parts, scales),
    ensures
        up_value(g, parts, scales, weight, scale, l) == up_feature(
            g,
            up_weights(weight, l),
            up_scales(scale, l),
            xs,
        ),
{
    let m = Matrix::Up;
    let a = Seq::new(2, |part: int| m.row_total(g, parts, scales, weight, scale, l, 0, part));
    let b = Seq::new(
        2,
        |part: int|
            blocks_total(
                g,
                decoded_f4(g, up_weights(weight, l)),
                up_scales(scale, l),
                list_parts(g, xs, part),
                list_scales(g, xs, part),
            ),
    );
    assert(m.weight_row(weight, l, 0) =~= up_weights(weight, l));
    assert(m.scale_row(scale, l, 0) =~= up_scales(scale, l));
    assert forall|part: int| 0 <= part < 2 implies #[trigger] a[part] == b[part] by {
        lemma_up_parts(g, xs, parts, scales, l, part);
    }
    assert(a =~= b);
}

/// The rows of the down projection meet the parts of the feed-forward features.
proof fn lemma_down_parts(
    g: Arith,
    xs: Seq<u32>,
    parts: Tensor,
    scales: Tensor,
    h: int,
    half: int,
    part: int,
)
    requires
        parts.is(Format::F8, feed_parts()),
        scales.is(Format::F32, feed_scales()),
        xs.len() == FEED,
        feed_split(g, xs, parts, scales),
        0 <= half < 2,
        0 <= part < 2,
    ensures
        Matrix::Down.part_row(parts, h, 7680 * half, part) == list_parts(g, xs, part).subrange(
            7680 * half,
            7680 * half + 7680,
        ),
        Matrix::Down.part_scale_row(scales, h, 7680 * half, part) == list_scales(
            g,
            xs,
            part,
        ).subrange(8 * half, 8 * half + 8),
{
    let m = Matrix::Down;
    let start = 7680 * half;
    let lp = list_parts(g, xs, part).subrange(start, start + 7680);
    let ls = list_scales(g, xs, part).subrange(8 * half, 8 * half + 8);
    assert forall|k: int| 0 <= k < 7680 implies #[trigger] m.part_row(parts, h, start, part)[k]
        == lp[k] by {
        let l = start + k;
        assert(parts.at(with_part(at_l(l), part)) == list_parts(g, xs, part)[l]);
        assert(feed_parts().position(with_part(at_hl(h, l), part)) == feed_parts().position(
            with_part(at_l(l), part),
        )) by {
            reveal_with_fuel(Layout::position, 8);
        }
    }
    assert(m.part_row(parts, h, start, part) =~= lp);
    assert forall|i: int| 0 <= i < 8 implies #[trigger] m.part_scale_row(
        scales,
        h,
        start,
        part,
    )[i] == ls[i] by {
        let j = 8 * half + i;
        assert(scales.at(with_part(at_l(960 * j), part)) == list_scales(g, xs, part)[j]);
        assert(start + 960 * i == 960 * j);
        assert(feed_scales().position(with_part(at_hl(h, 960 * j), part))
            == feed_scales().position(with_part(at_l(960 * j), part))) by {
            reveal_with_fuel(Layout::position, 8);
        }
    }
    assert(m.part_scale_row(scales, h, start, part) =~= ls);
}

/// The down projection of stored parts is one of the feed-forward features that they are parts
/// of.
pub proof fn law_down_of_split_features(
    g: Arith,
    xs: Seq<u32>,
    parts: Tensor,
    scales: Tensor,
    weight: Tensor,
    scale: Tensor,
    h: int,
)
    requires
        parts.is(Format::F8, feed_parts()),
        scales.is(Format::F32, feed_scales()),
        xs.len() == FEED,
        feed_split(g, xs, parts, scales),
    ensures
        down_value(g, parts, scales, weight, scale, h) == down_feature(
            g,
            down_weights(weight, h),
            down_scales(scale, h),
            xs,
        ),
{
    let m = Matrix::Down;
    let w = down_weights(weight, h);
    let ws = down_scales(scale, h);
    let a = Seq::new(2, |part: int| down_total(g, parts, scales, weight, scale, h, part));
    let b = Seq::new(
        2,
        |part: int|
            fold(
                g,
                Op::TotalAcrossSlices,
                Seq::new(2, |half: int| half_total(g, w, ws, xs, half, part)),
            ),
    );
    assert forall|part: int| 0 <= part < 2 implies #[trigger] a[part] == b[part] by {
        let c = Seq::new(
            2,
            |half: int| m.row_total(g, parts, scales, weight, scale, h, 7680 * half, part),
        );
        let d = Seq::new(2, |half: int| half_total(g, w, ws, xs, half, part));
        assert forall|half: int| 0 <= half < 2 implies #[trigger] c[half] == d[half] by {
            let start = 7680 * half;
            assert(m.weight_row(weight, h, start) =~= w.subrange(start, start + 7680));
            assert(m.scale_row(scale, h, start) =~= ws.subrange(480 * half, 480 * half + 480)) by {
                assert forall|b: int| 0 <= b < 480 implies #[trigger] m.scale_row(
                    scale,
                    h,
                    start,
                )[b] == ws[480 * half + b] by {
                    assert(start + 16 * b == 16 * (480 * half + b));
                }
            }
            lemma_down_parts(g, xs, parts, scales, h, half, part);
        }
        assert(c =~= d);
    }
    assert(a =~= b);
}

/// The gated feed-forward features that the hidden features `xs` give.
pub open spec fn gated_features(
    g: Arith,
    xs: Seq<u32>,
    up_weight: Tensor,
    gate_weight: Tensor,
    up_scale: Tensor,
    gate_scale: Tensor,
    up_global_scale: u32,
    gate_global_scale: u32,
) -> Seq<u32> {
    Seq::new(
        FEED as nat,
        |l: int|
            gated(
                g,
                up_feature(g, up_weights(up_weight, l), up_scales(up_scale, l), xs),
                up_feature(g, up_weights(gate_weight, l), up_scales(gate_scale, l), xs),
                up_global_scale,
                gate_global_scale,
            ),
    )
}

/// What the block makes of the gated features `ys` with one row of down weights.
pub open spec fn block_feature(
    g: Arith,
    weights: Seq<u32>,
    scales: Seq<u32>,
    ys: Seq<u32>,
    global_scale: u32,
) -> u32 {
    rescaled(g, down_feature(g, weights, scales, ys), global_scale)
}

proof fn lemma_feedforward_wf()
    ensures
        Matrix::Up.weights().wf(),
        Matrix::Up.scales().wf(),
        Matrix::Down.weights().wf(),
        Matrix::Down.scales().wf(),
        single(room(8, Layout::End)).wf(),
        single(hidden()).wf(),
{
    reveal_with_fuel(Layout::volume, 8);
    reveal_with_fuel(Layout::reach, 8);
    reveal_with_fuel(Layout::terms_wf, 8);
    assert(Matrix::Up.weights().wf());
    assert(Matrix::Up.scales().wf());
    assert(Matrix::Down.weights().wf());
    assert(Matrix::Down.scales().wf());
}

/// An up projection with weights that were brought to the slices.
proof fn lemma_up_loaded(
    g: Arith,
    parts: Tensor,
    scales: Tensor,
    weight: Tensor,
    scale: Tensor,
    loaded_weight: Tensor,
    loaded_scale: Tensor,
    l: int,
)
    requires
        loaded_weight.layout == Matrix::Up.weights(),
        loaded_weight.holds(moved(weight)),
        loaded_scale.layout == Matrix::Up.scales(),
        loaded_scale.holds(moved(scale)),
        0 <= l < FEED,
    ensures
        up_value(g, parts, scales, loaded_weight, loaded_scale, l) == up_value(
            g,
            parts,
            scales,
            weight,
            scale,
            l,
        ),
{
    let m = Matrix::Up;
    lemma_loaded_weights(m, weight, loaded_weight, l, 0);
    lemma_loaded_scales(m, scale, loaded_scale, l, 0);
    assert(Seq::new(
        2,
        |part: int| m.row_total(g, parts, scales, loaded_weight, loaded_scale, l, 0, part),
    ) =~= Seq::new(2, |part: int| m.row_total(g, parts, scales, weight, scale, l, 0, part)));
}

/// The down projection with weights that were brought to the slices.
proof fn lemma_down_loaded(
    g: Arith,
    parts: Tensor,
    scales: Tensor,
    weight: Tensor,
    scale: Tensor,
    loaded_weight: Tensor,
    loaded_scale: Tensor,
    h: int,
)
    requires
        loaded_weight.layout == Matrix::Down.weights(),
        loaded_weight.holds(moved(weight)),
        loaded_scale.layout == Matrix::Down.scales(),
        loaded_scale.holds(moved(scale)),
        0 <= h < HIDDEN,
    ensures
        down_value(g, parts, scales, loaded_weight, loaded_scale, h) == down_value(
            g,
            parts,
            scales,
            weight,
            scale,
            h,
        ),
{
    let m = Matrix::Down;
    let a = Seq::new(
        2,
        |part: int| down_total(g, parts, scales, loaded_weight, loaded_scale, h, part),
    );
    let b = Seq::new(2, |part: int| down_total(g, parts, scales, weight, scale, h, part));
    assert forall|part: int| 0 <= part < 2 implies #[trigger] a[part] == b[part] by {
        lemma_loaded_weights(m, weight, loaded_weight, h, 0);
        lemma_loaded_scales(m, scale, loaded_scale, h, 0);
        lemma_loaded_weights(m, weight, loaded_weight, h, 7680);
        lemma_loaded_scales(m, scale, loaded_scale, h, 7680);
        assert(Seq::new(
            2,
            |half: int|
                m.row_total(
                    g,
                    parts,
                    scales,
                    loaded_weight,
                    loaded_scale,
                    h,
                    7680 * half,
                    part,
                ),
        ) =~= Seq::new(
            2,
            |half: int| m.row_total(g, parts, scales, weight, scale, h, 7680 * half, part),
        ));
    }
    assert(a =~= b);
}

/// The feed-forward block: projects the hidden features up twice, gates the one projection with
/// the other, and projects the result down.
pub fn feedforward<F: Fn(Op, Vec<u32>, Vec<u32>) -> u32>(
    alu: &F,
    x: &Tensor,
    up_weight: &Tensor,
    gate_weight: &Tensor,
    down_weight: &Tensor,
    up_weight_scale: &Tensor,
    gate_weight_scale: &Tensor,
    down_weight_scale: &Tensor,
    up_global_scale: &Tensor,
    gate_global_scale: &Tensor,
    down_global_scale: &Tensor,
) -> (out: Tensor)
    requires
        total(*alu),
        x.is(Format::Bf16, single(hidden())),
        up_weight.is(Format::F4, up_matrix()),
        gate_weight.is(Format::F4, up_matrix()),
        down_weight.is(Format::F4, down_matrix()),
        up_weight_scale.is(Format::F8, up_matrix_scales()),
        gate_weight_scale.is(Format::F8, up_matrix_scales()),
        down_weight_scale.is(Format::F8, down_matrix_scales()),
        up_global_scale.is(Format::F32, Layout::End),
        gate_global_scale.is(Format::F32, Layout::End),
        down_global_scale.is(Format::F32, Layout::End),
    ensures
        out.is(Format::Bf16, single(hidden())),
        out.blank_padding(),
        forall|g: Arith, h: int|
            #![trigger computes(*alu, g), at_h(h)]
            computes(*alu, g) && 0 <= h < HIDDEN ==> out.at(at_h(h)) == block_feature(
                g,
                down_weights(*down_weight, h),
                down_scales(*down_weight_scale, h),
                gated_features(
                    g,
                    hidden_values(*x),
                    *up_weight,
                    *gate_weight,
                    *up_weight_scale,
                    *gate_weight_scale,
                    up_global_scale.at(origin()),
                    gate_global_scale.at(origin()),
                ),
                down_global_scale.at(origin()),
            ),
{
    proof {
        lemma_feedforward_wf();
    }
    let up_packed = up_weight.relayout(Matrix::Up.weights());
    let gate_packed = gate_weight.relayout(Matrix::Up.weights());
    let down_packed = down_weight.relayout(Matrix::Down.weights());
    let up_block_scales = up_weight_scale.relayout(Matrix::Up.scales());
    let gate_block_scales = gate_weight_scale.relayout(Matrix::Up.scales());
    let down_block_scales = down_weight_scale.relayout(Matrix::Down.scales());

    let (x_parts, x_scales) = prepare_up_input(alu, x);
    let (up, gate) = project_up_and_gate(
        alu,
        &x_parts,
        &x_scales,
        &up_packed,
        &gate_packed,
        &up_block_scales,
        &gate_block_scales,
    );
    let y = geglu(alu, &up, &gate, up_global_scale, gate_global_scale);
    let (down_parts, down_part_scales) = prepare_down_input(alu, &y);
    let down = project_down(alu, &down_parts, &down_part_scales, &down_packed, &down_block_scales);

    let global = down_global_scale.relayout(single(room(8, Layout::End)));
    let wide = down.map(alu, Op::WidenBf16, Format::F32, single(hidden()));
    let product = wide.zip(alu, Op::Multiply, &global, Format::F32, single(hidden()));
    let out = product.map(alu, Op::NarrowBf16, Format::Bf16, single(hidden()));
    proof {
        assert forall|g: Arith, h: int|
            #![trigger computes(*alu, g), at_h(h)]
            computes(*alu, g) && 0 <= h < HIDDEN implies out.at(at_h(h)) == block_feature(
            g,
            down_weights(*down_weight, h),
            down_scales(*down_weight_scale, h),
            gated_features(
                g,
                hidden_values(*x),
                *up_weight,
                *gate_weight,
                *up_weight_scale,
                *gate_weight_scale,
                up_global_scale.at(origin()),
                gate_global_scale.at(origin()),
            ),
            down_global_scale.at(origin()),
        ) by {
            let p = at_h(h);
            let xs = hidden_values(*x);
            let ys = gated_features(
                g,
                xs,
                *up_weight,
                *gate_weight,
                *up_weight_scale,
                *gate_weight_scale,
                up_global_scale.at(origin()),
                gate_global_scale.at(origin()),
            );
            assert forall|l: int| 0 <= l < FEED implies #[trigger] feed_values(y)[l] == ys[l] by {
                let q = at_l(l);
                lemma_up_loaded(
                    g,
                    x_parts,
                    x_scales,
                    *up_weight,
                    *up_weight_scale,
                    up_packed,
                    up_block_scales,
                    l,
                );
                lemma_up_loaded(
                    g,
                    x_parts,
                    x_scales,
                    *gate_weight,
                    *gate_weight_scale,
                    gate_packed,
                    gate_block_scales,
                    l,
                );
                law_up_of_split_features(g, xs, x_parts, x_scales, *up_weight, *up_weight_scale, l);
                law_up_of_split_features(
                    g,
                    xs,
                    x_parts,
                    x_scales,
                    *gate_weight,
                    *gate_weight_scale,
                    l,
                );
            }
            assert(feed_values(y) =~= ys);
            lemma_down_loaded(
                g,
                down_parts,
                down_part_scales,
                *down_weight,
                *down_weight_scale,
                down_packed,
                down_block_scales,
                h,
            );
            law_down_of_split_features(
                g,
                ys,
                down_parts,
                down_part_scales,
                *down_weight,
                *down_weight_scale,
                h,
            );
            lemma_hidden_row_covers(h);
            assert(global.at(p) == down_global_scale.at(origin())) by {
                assert(single(room(8, Layout::End)).covers(origin())) by {
                    reveal_with_fuel(Layout::kept, 8);
                }
                assert(single(room(8, Layout::End)).position(p) == single(
                    room(8, Layout::End),
                ).position(origin())) by {
                    reveal_with_fuel(Layout::position, 8);
                }
                assert(global.at(origin()) == down_global_scale.at(origin()));
            }
            assert(wide.at(p) == one(g, Op::WidenBf16, down.at(p)));
            assert(product.at(p) == two(g, Op::Multiply, wide.at(p), global.at(p)));
        }
    }
    out
}

} // verus!
