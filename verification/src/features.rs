//! How near the steps of the feed-forward block come to the exact numbers, cell by cell.
use crate::accuracy::{
    lemma_down_error, lemma_list_error, lemma_row_error, lemma_size_product, lemma_sum_equal,
    lemma_sum_stretches, lemma_total_of_two, lemma_triangle, lemma_up_error, size, sum, Meaning,
};
use crate::activation::rescaled;
use crate::blocks::{blocks_total, decoded_f4, Matrix};
use crate::calm::{calm_blocks, calm_down, calm_group, calm_list, calm_split, calm_two, calm_up};
use crate::engine::{fold, one, two, Arith, Op};
use crate::layout::{at_h, at_hl, at_l};
use crate::mlp::{
    block_feature, down_feature, down_scales, down_total, down_value, down_weights, gated_features,
    up_feature, up_scales, up_value, up_weights,
};
use crate::numbers::{
    calm_gate, calm_product, law_gate_is_near_the_unit, law_scale_is_a_256th_of_the_largest,
    lemma_rescaled_near,
};
use crate::operands::{feed_split, feed_values, hidden_split, hidden_values};
use crate::places::{term, FEED, HIDDEN};
use crate::quantize::{
    group_scale, largest, list_parts, list_scale, list_scales, low_scale, with_part, F32_256,
    F32_SIXTEENTH, F32_TINY,
};
use crate::tensor::Tensor;
use vstd::prelude::*;

verus! {

/// The scale of the low parts is a sixteenth of that of the high parts.
proof fn lemma_low_scale(m: Meaning, g: Arith, s: u32)
    requires
        m.rounds_well(g),
        calm_two(m.calm, Op::Multiply, s, F32_SIXTEENTH),
        0real < (m.full)(s),
    ensures
        10000000real * size(16real * (m.full)(low_scale(g, s)) - (m.full)(s)) <= (m.full)(s),
{
    reveal(Meaning::exact);
    reveal(Meaning::computes_near);
    let (a, t) = ((m.full)(s), (m.full)(F32_SIXTEENTH));
    assert(16real * (a * t) == a) by (nonlinear_arith)
        requires
            16real * t == 1real,
    ;
}

/// The stored parts and scales of hidden features stand for the features: each is about its
/// scale times the high part and a sixteenth of the low part.
pub proof fn law_stored_hidden_parts_are_near(
    m: Meaning,
    g: Arith,
    x: Tensor,
    parts: Tensor,
    scales: Tensor,
    h: int,
)
    requires
        m.rounds_well(g),
        calm_split(m.calm, g, hidden_values(x)),
        hidden_split(g, hidden_values(x), parts, scales),
        0 <= h < HIDDEN,
    ensures
        ({
            let first = at_h(960 * (h / 960));
            let s = (m.full)(scales.at(with_part(first, 0)));
            let low = (m.full)(scales.at(with_part(first, 1)));
            let hi = (m.eight)(parts.at(with_part(at_h(h), 0)));
            let lo = (m.eight)(parts.at(with_part(at_h(h), 1)));
            &&& 10000real * size((m.sixteen)(x.at(at_h(h))) - (s * hi + low * lo)) <= 2510real * s
            &&& 10000000real * size(16real * low - s) <= s
            &&& 0real < s
            &&& size(hi) <= 256real
            &&& size(lo) <= 128real
        }),
{
    let xs = hidden_values(x);
    let i = h / 960;
    lemma_list_error(m, g, xs, h);
    assert(xs[h] == x.at(at_h(h)));
    assert(scales.at(with_part(at_h(960 * i), 0)) == list_scales(g, xs, 0)[i]);
    assert(scales.at(with_part(at_h(960 * i), 1)) == list_scales(g, xs, 1)[i]);
    assert(parts.at(with_part(at_h(h), 0)) == list_parts(g, xs, 0)[h]);
    assert(parts.at(with_part(at_h(h), 1)) == list_parts(g, xs, 1)[h]);
    assert(calm_group(m.calm, g, xs.subrange(960 * i, 960 * i + 960)));
    lemma_low_scale(m, g, list_scale(g, xs, i));
}

/// The stored scale of a group of hidden features is the smallest one, or a 256th of the
/// largest magnitude of the group; and no magnitude is much above 256 of it.
pub proof fn law_stored_hidden_scale_is_a_256th_of_the_largest(
    m: Meaning,
    g: Arith,
    x: Tensor,
    parts: Tensor,
    scales: Tensor,
    i: int,
)
    requires
        m.rounds_well(g),
        m.names(),
        m.divides_near(g),
        m.picks(g),
        0 <= i < 4,
        hidden_split(g, hidden_values(x), parts, scales),
        ({
            let group = hidden_values(x).subrange(960 * i, 960 * i + 960);
            &&& calm_group(m.calm, g, group)
            &&& calm_two(
                m.calm,
                Op::ClipMax,
                two(g, Op::Divide, largest(g, group), F32_256),
                F32_TINY,
            )
        }),
    ensures
        ({
            let s = scales.at(with_part(at_h(960 * i), 0));
            &&& forall|k: int|
                #![trigger at_h(960 * i + k)]
                0 <= k < 960 ==> 1000000real * size((m.sixteen)(x.at(at_h(960 * i + k))))
                    <= 256000100real * (m.full)(s)
            &&& s == F32_TINY || exists|k: int|
                #![trigger at_h(960 * i + k)]
                0 <= k < 960 && 10000000real * size(
                    256real * (m.full)(s) - size((m.sixteen)(x.at(at_h(960 * i + k)))),
                ) <= size((m.sixteen)(x.at(at_h(960 * i + k))))
        }),
{
    let xs = hidden_values(x);
    let group = xs.subrange(960 * i, 960 * i + 960);
    let s = scales.at(with_part(at_h(960 * i), 0));
    assert(s == list_scales(g, xs, 0)[i]);
    assert(s == group_scale(g, group));
    law_scale_is_a_256th_of_the_largest(m, g, group);
    assert forall|k: int| 0 <= k < 960 implies #[trigger] group[k] == x.at(at_h(960 * i + k)) by {}
    assert forall|k: int|
        #![trigger at_h(960 * i + k)]
        0 <= k < 960 implies 1000000real * size((m.sixteen)(x.at(at_h(960 * i + k))))
        <= 256000100real * (m.full)(s) by {
        assert(group[k] == x.at(at_h(960 * i + k)));
    }
    if s != F32_TINY {
        let k = choose|k: int|
            0 <= k < group.len() && 10000000real * size(
                256real * (m.full)(group_scale(g, group)) - size((m.sixteen)(#[trigger] group[k])),
            ) <= size((m.sixteen)(group[k]));
        assert(group[k] == x.at(at_h(960 * i + k)));
    }
}

/// The stored parts and scales of feed-forward features stand for the features: each is about its
/// scale times the high part and a sixteenth of the low part.
pub proof fn law_stored_feed_forward_parts_are_near(
    m: Meaning,
    g: Arith,
    x: Tensor,
    parts: Tensor,
    scales: Tensor,
    l: int,
)
    requires
        m.rounds_well(g),
        calm_split(m.calm, g, feed_values(x)),
        feed_split(g, feed_values(x), parts, scales),
        0 <= l < FEED,
    ensures
        ({
            let first = at_l(960 * (l / 960));
            let s = (m.full)(scales.at(with_part(first, 0)));
            let low = (m.full)(scales.at(with_part(first, 1)));
            let hi = (m.eight)(parts.at(with_part(at_l(l), 0)));
            let lo = (m.eight)(parts.at(with_part(at_l(l), 1)));
            &&& 10000real * size((m.sixteen)(x.at(at_l(l))) - (s * hi + low * lo)) <= 2510real * s
            &&& 10000000real * size(16real * low - s) <= s
            &&& 0real < s
            &&& size(hi) <= 256real
            &&& size(lo) <= 128real
        }),
{
    let xs = feed_values(x);
    let i = l / 960;
    lemma_list_error(m, g, xs, l);
    assert(xs[l] == x.at(at_l(l)));
    assert(scales.at(with_part(at_l(960 * i), 0)) == list_scales(g, xs, 0)[i]);
    assert(scales.at(with_part(at_l(960 * i), 1)) == list_scales(g, xs, 1)[i]);
    assert(parts.at(with_part(at_l(l), 0)) == list_parts(g, xs, 0)[l]);
    assert(parts.at(with_part(at_l(l), 1)) == list_parts(g, xs, 1)[l]);
    assert(calm_group(m.calm, g, xs.subrange(960 * i, 960 * i + 960)));
    lemma_low_scale(m, g, list_scale(g, xs, i));
}

/// The stored scale of a group of feed-forward features is the smallest one, or a 256th of the
/// largest magnitude of the group; and no magnitude is much above 256 of it.
pub proof fn law_stored_feed_forward_scale_is_a_256th_of_the_largest(
    m: Meaning,
    g: Arith,
    x: Tensor,
    parts: Tensor,
    scales: Tensor,
    i: int,
)
    requires
        m.rounds_well(g),
        m.names(),
        m.divides_near(g),
        m.picks(g),
        0 <= i < 16,
        feed_split(g, feed_values(x), parts, scales),
        ({
            let group = feed_values(x).subrange(960 * i, 960 * i + 960);
            &&& calm_group(m.calm, g, group)
            &&& calm_two(
                m.calm,
                Op::ClipMax,
                two(g, Op::Divide, largest(g, group), F32_256),
                F32_TINY,
            )
        }),
    ensures
        ({
            let s = scales.at(with_part(at_l(960 * i), 0));
            &&& forall|k: int|
                #![trigger at_l(960 * i + k)]
                0 <= k < 960 ==> 1000000real * size((m.sixteen)(x.at(at_l(960 * i + k))))
                    <= 256000100real * (m.full)(s)
            &&& s == F32_TINY || exists|k: int|
                #![trigger at_l(960 * i + k)]
                0 <= k < 960 && 10000000real * size(
                    256real * (m.full)(s) - size((m.sixteen)(x.at(at_l(960 * i + k)))),
                ) <= size((m.sixteen)(x.at(at_l(960 * i + k))))
        }),
{
    let xs = feed_values(x);
    let group = xs.subrange(960 * i, 960 * i + 960);
    let s = scales.at(with_part(at_l(960 * i), 0));
    assert(s == list_scales(g, xs, 0)[i]);
    assert(s == group_scale(g, group));
    law_scale_is_a_256th_of_the_largest(m, g, group);
    assert forall|k: int| 0 <= k < 960 implies #[trigger] group[k] == x.at(at_l(960 * i + k)) by {}
    assert forall|k: int|
        #![trigger at_l(960 * i + k)]
        0 <= k < 960 implies 1000000real * size((m.sixteen)(x.at(at_l(960 * i + k))))
        <= 256000100real * (m.full)(s) by {
        assert(group[k] == x.at(at_l(960 * i + k)));
    }
    if s != F32_TINY {
        let k = choose|k: int|
            0 <= k < group.len() && 10000000real * size(
                256real * (m.full)(group_scale(g, group)) - size((m.sixteen)(#[trigger] group[k])),
            ) <= size((m.sixteen)(group[k]));
        assert(group[k] == x.at(at_l(960 * i + k)));
    }
}

/// The sizes of terms bound that of their sum.
proof fn lemma_sum_size(n: int, f: spec_fn(int) -> real, b: spec_fn(int) -> real)
    requires
        forall|k: int| 0 <= k < n ==> size(#[trigger] f(k)) <= b(k),
    ensures
        size(sum(n, f)) <= sum(n, b),
    decreases n,
{
    if n > 0 {
        lemma_sum_size(n - 1, f, b);
        assert(size(f(n - 1)) <= b(n - 1));
    }
}

/// The size of what a part of a value adds to a row.
proof fn lemma_term_size(m: Meaning, w: Seq<u32>, s: Seq<u32>, x: Seq<u32>, p: Seq<u32>, h: int)
    requires
        0real <= (m.full)(p[h / 960]),
    ensures
        size(m.term(w, s, x, p, h)) == m.bulk(w, s, x, p, h),
{
    let (a, b, c) = (m.weight(w, s, h), (m.full)(p[h / 960]), (m.eight)(x[h]));
    lemma_size_product(a, b * c);
    lemma_size_product(b, c);
}

/// A row and how near it is: its total, what its values add, and the sizes of that.
proof fn lemma_row_sums(
    m: Meaning,
    g: Arith,
    w: Seq<u32>,
    s: Seq<u32>,
    x: Seq<u32>,
    p: Seq<u32>,
    term: spec_fn(int) -> real,
    bulk: spec_fn(int) -> real,
)
    requires
        m.rounds_well(g),
        calm_blocks(m.calm, g, decoded_f4(g, w), s, x, p),
        0 < s.len() <= 480,
        w.len() == 16 * s.len(),
        x.len() == 16 * s.len(),
        s.len() == 60 * p.len(),
        forall|i: int| 0 <= i < p.len() ==> 0real <= (m.full)(#[trigger] p[i]),
        forall|h: int| 0 <= h < w.len() ==> #[trigger] term(h) == m.term(w, s, x, p, h),
        forall|h: int| 0 <= h < w.len() ==> #[trigger] bulk(h) == m.bulk(w, s, x, p, h),
    ensures
        ({
            let n = w.len() as int;
            let t = (m.full)(blocks_total(g, decoded_f4(g, w), s, x, p));
            &&& 10000000real * size(t - sum(n, term)) <= 550real * sum(n, bulk)
            &&& size(sum(n, term)) <= sum(n, bulk)
        }),
{
    let n = w.len() as int;
    lemma_row_error(m, g, w, s, x, p);
    lemma_sum_equal(n, term, |h: int| m.term(w, s, x, p, h));
    lemma_sum_equal(n, bulk, |h: int| m.bulk(w, s, x, p, h));
    assert forall|h: int| 0 <= h < n implies size(#[trigger] term(h)) <= bulk(h) by {
        assert(0 <= h / 960 < p.len());
        lemma_term_size(m, w, s, x, p, h);
        assert(bulk(h) == m.bulk(w, s, x, p, h));
    }
    lemma_sum_size(n, term, bulk);
}

impl Meaning {
    /// What a part of hidden feature `h` adds to the row of feed-forward feature `l`.
    pub open spec fn up_term(
        self,
        x: Tensor,
        x_scales: Tensor,
        weight: Tensor,
        scale: Tensor,
        l: int,
        h: int,
        part: int,
    ) -> real {
        (self.four)(weight.at(at_hl(h, l))) * (self.eight)(scale.at(at_hl(16 * (h / 16), l))) * ((
        self.full)(x_scales.at(with_part(at_hl(960 * (h / 960), l), part))) * (self.eight)(
            x.at(with_part(at_hl(h, l), part)),
        ))
    }

    /// The size of what a part of hidden feature `h` adds to the row of feed-forward feature `l`.
    pub open spec fn up_bulk(
        self,
        x: Tensor,
        x_scales: Tensor,
        weight: Tensor,
        scale: Tensor,
        l: int,
        h: int,
        part: int,
    ) -> real {
        size((self.four)(weight.at(at_hl(h, l))) * (self.eight)(scale.at(at_hl(16 * (h / 16), l))))
            * ((self.full)(x_scales.at(with_part(at_hl(960 * (h / 960), l), part))) * size(
            (self.eight)(x.at(with_part(at_hl(h, l), part))),
        ))
    }

    /// What a part of feed-forward feature `l` adds to the row of hidden feature `h`.
    pub open spec fn down_term(
        self,
        x: Tensor,
        x_scales: Tensor,
        weight: Tensor,
        scale: Tensor,
        h: int,
        l: int,
        part: int,
    ) -> real {
        (self.four)(weight.at(at_hl(h, l))) * (self.eight)(scale.at(at_hl(h, 16 * (l / 16)))) * ((
        self.full)(x_scales.at(with_part(at_hl(h, 960 * (l / 960)), part))) * (self.eight)(
            x.at(with_part(at_hl(h, l), part)),
        ))
    }

    /// The size of what a part of feed-forward feature `l` adds to the row of hidden feature `h`.
    pub open spec fn down_bulk(
        self,
        x: Tensor,
        x_scales: Tensor,
        weight: Tensor,
        scale: Tensor,
        h: int,
        l: int,
        part: int,
    ) -> real {
        size((self.four)(weight.at(at_hl(h, l))) * (self.eight)(scale.at(at_hl(h, 16 * (l / 16)))))
            * ((self.full)(x_scales.at(with_part(at_hl(h, 960 * (l / 960)), part))) * size(
            (self.eight)(x.at(with_part(at_hl(h, l), part))),
        ))
    }
}

/// Every request of a row of a matrix, from column `start` on, is harmless for a part, and the
/// scales of the parts are not negative.
pub open spec fn calm_matrix_row(
    m: Meaning,
    g: Arith,
    of: Matrix,
    x: Tensor,
    x_scales: Tensor,
    weight: Tensor,
    scale: Tensor,
    r: int,
    start: int,
    part: int,
) -> bool {
    let p = of.part_scale_row(x_scales, r, start, part);
    &&& calm_blocks(
        m.calm,
        g,
        decoded_f4(g, of.weight_row(weight, r, start)),
        of.scale_row(scale, r, start),
        of.part_row(x, r, start, part),
        p,
    )
    &&& forall|i: int| 0 <= i < p.len() ==> 0real <= (m.full)(#[trigger] p[i])
}

/// Every request of a row of an up projection is harmless.
pub open spec fn calm_up_row(
    m: Meaning,
    g: Arith,
    x: Tensor,
    x_scales: Tensor,
    weight: Tensor,
    scale: Tensor,
    l: int,
) -> bool {
    let totals = Seq::new(
        2,
        |part: int| Matrix::Up.row_total(g, x, x_scales, weight, scale, l, 0, part),
    );
    &&& calm_matrix_row(m, g, Matrix::Up, x, x_scales, weight, scale, l, 0, 0)
    &&& calm_matrix_row(m, g, Matrix::Up, x, x_scales, weight, scale, l, 0, 1)
    &&& calm_list(m.calm, Op::TotalInSlice, totals)
    &&& calm_list(m.calm, Op::NarrowBf16, seq![fold(g, Op::TotalInSlice, totals)])
}

/// A row of an up projection is near the sum of what both parts of all hidden features add.
proof fn lemma_up_row_sums(
    m: Meaning,
    g: Arith,
    x: Tensor,
    x_scales: Tensor,
    weight: Tensor,
    scale: Tensor,
    l: int,
    part: int,
)
    requires
        m.rounds_well(g),
        calm_matrix_row(m, g, Matrix::Up, x, x_scales, weight, scale, l, 0, part),
    ensures
        ({
            let t = (m.full)(Matrix::Up.row_total(g, x, x_scales, weight, scale, l, 0, part));
            let e = sum(3840, |h: int| m.up_term(x, x_scales, weight, scale, l, h, part));
            let z = sum(3840, |h: int| m.up_bulk(x, x_scales, weight, scale, l, h, part));
            &&& 10000000real * size(t - e) <= 550real * z
            &&& size(e) <= z
        }),
{
    let of = Matrix::Up;
    let (w, s) = (of.weight_row(weight, l, 0), of.scale_row(scale, l, 0));
    let (v, p) = (of.part_row(x, l, 0, part), of.part_scale_row(x_scales, l, 0, part));
    let term = |h: int| m.up_term(x, x_scales, weight, scale, l, h, part);
    let bulk = |h: int| m.up_bulk(x, x_scales, weight, scale, l, h, part);
    assert forall|h: int|
        #![trigger term(h)]
        #![trigger bulk(h)]
        0 <= h < 3840 implies term(h) == m.term(w, s, v, p, h) && bulk(h) == m.bulk(
        w,
        s,
        v,
        p,
        h,
    ) by {
        assert(w[h] == weight.at(at_hl(h, l)));
        assert(s[h / 16] == scale.at(at_hl(16 * (h / 16), l)));
        assert(v[h] == x.at(with_part(at_hl(h, l), part)));
        assert(p[h / 960] == x_scales.at(with_part(at_hl(960 * (h / 960), l), part)));
    }
    lemma_row_sums(m, g, w, s, v, p, term, bulk);
}

/// The errors of a row of which both parts are added up and rounded, put together.
proof fn lemma_two_parts(
    t: real,
    u: real,
    e: real,
    f: real,
    z: real,
    y: real,
    r: real,
    out: real,
)
    requires
        10000000real * size(t - e) <= 553real * z,
        10000000real * size(u - f) <= 553real * y,
        size(e) <= z,
        size(f) <= y,
        10000000real * size(r - (t + u)) <= 2real * (size(t) + size(u)),
        512real * size(out - r) <= size(r),
    ensures
        1000000real * size(out - (e + f)) <= 60real * (z + y) + 1954real * size(e + f),
{
    lemma_triangle(t - e, e, 0real);
    lemma_triangle(u - f, f, 0real);
    lemma_triangle(r - (t + u), t - e, u - f);
    lemma_triangle(r - (e + f), e + f, 0real);
    lemma_triangle(out - r, r - (e + f), 0real);
    lemma_two_parts_sizes(
        z,
        y,
        size(t),
        size(u),
        size(t - e),
        size(u - f),
        size(r - (t + u)),
        size(r - (e + f)),
        size(r),
        size(e + f),
        size(out - r),
        size(out - (e + f)),
    );
}

proof fn lemma_two_parts_sizes(
    z: real,
    y: real,
    t: real,
    u: real,
    dt: real,
    du: real,
    dr: real,
    re: real,
    r: real,
    ef: real,
    dout: real,
    oe: real,
)
    requires
        0real <= z,
        0real <= y,
        10000000real * dt <= 553real * z,
        10000000real * du <= 553real * y,
        t <= dt + z,
        u <= du + y,
        10000000real * dr <= 2real * (t + u),
        re <= dr + dt + du,
        r <= re + ef,
        512real * dout <= r,
        oe <= dout + re,
        0real <= ef,
    ensures
        1000000real * oe <= 60real * (z + y) + 1954real * ef,
{
}

/// A row of an up projection is near what the high and low parts of all hidden features add to it,
/// each times its scale: the error is that of one rounding, and of the sums.
pub proof fn law_up_matrix_is_near_the_product(
    m: Meaning,
    g: Arith,
    x: Tensor,
    x_scales: Tensor,
    weight: Tensor,
    scale: Tensor,
    l: int,
)
    requires
        m.rounds_well(g),
        calm_up_row(m, g, x, x_scales, weight, scale, l),
    ensures
        ({
            let e = sum(3840, |h: int| m.up_term(x, x_scales, weight, scale, l, h, 0)) + sum(
                3840,
                |h: int| m.up_term(x, x_scales, weight, scale, l, h, 1),
            );
            let z = sum(3840, |h: int| m.up_bulk(x, x_scales, weight, scale, l, h, 0)) + sum(
                3840,
                |h: int| m.up_bulk(x, x_scales, weight, scale, l, h, 1),
            );
            1000000real * size(
                (m.sixteen)(up_value(g, x, x_scales, weight, scale, l)) - e,
            ) <= 60real * z + 1954real * size(e)
        }),
{
    let totals = Seq::new(
        2,
        |part: int| Matrix::Up.row_total(g, x, x_scales, weight, scale, l, 0, part),
    );
    lemma_up_row_sums(m, g, x, x_scales, weight, scale, l, 0);
    lemma_up_row_sums(m, g, x, x_scales, weight, scale, l, 1);
    lemma_total_of_two(m, g, Op::TotalInSlice, totals);
    let r = fold(g, Op::TotalInSlice, totals);
    let out = one(g, Op::NarrowBf16, r);
    assert(512real * size((m.sixteen)(out) - (m.full)(r)) <= size((m.full)(r))) by {
        reveal(Meaning::rounds_near);
    }
    assert(up_value(g, x, x_scales, weight, scale, l) == out);
    lemma_two_parts(
        (m.full)(totals[0]),
        (m.full)(totals[1]),
        sum(3840, |h: int| m.up_term(x, x_scales, weight, scale, l, h, 0)),
        sum(3840, |h: int| m.up_term(x, x_scales, weight, scale, l, h, 1)),
        sum(3840, |h: int| m.up_bulk(x, x_scales, weight, scale, l, h, 0)),
        sum(3840, |h: int| m.up_bulk(x, x_scales, weight, scale, l, h, 1)),
        (m.full)(r),
        (m.sixteen)(out),
    );
}

/// The totals of both halves of a row of the down projection, for a part.
pub open spec fn matrix_halves(
    g: Arith,
    x: Tensor,
    x_scales: Tensor,
    weight: Tensor,
    scale: Tensor,
    h: int,
    part: int,
) -> Seq<u32> {
    Seq::new(
        2,
        |half: int| Matrix::Down.row_total(g, x, x_scales, weight, scale, h, 7680 * half, part),
    )
}

/// Every request of a row of the down projection is harmless for a part.
pub open spec fn calm_down_part(
    m: Meaning,
    g: Arith,
    x: Tensor,
    x_scales: Tensor,
    weight: Tensor,
    scale: Tensor,
    h: int,
    part: int,
) -> bool {
    &&& calm_matrix_row(m, g, Matrix::Down, x, x_scales, weight, scale, h, 0, part)
    &&& calm_matrix_row(m, g, Matrix::Down, x, x_scales, weight, scale, h, 7680, part)
    &&& calm_list(
        m.calm,
        Op::TotalAcrossSlices,
        matrix_halves(g, x, x_scales, weight, scale, h, part),
    )
}

/// Every request of a row of the down projection is harmless.
pub open spec fn calm_down_row(
    m: Meaning,
    g: Arith,
    x: Tensor,
    x_scales: Tensor,
    weight: Tensor,
    scale: Tensor,
    h: int,
) -> bool {
    let totals = Seq::new(
        2,
        |part: int|
            fold(
                g,
                Op::TotalAcrossSlices,
                matrix_halves(g, x, x_scales, weight, scale, h, part),
            ),
    );
    &&& calm_down_part(m, g, x, x_scales, weight, scale, h, 0)
    &&& calm_down_part(m, g, x, x_scales, weight, scale, h, 1)
    &&& calm_list(m.calm, Op::TotalInSlice, totals)
    &&& calm_list(m.calm, Op::NarrowBf16, seq![fold(g, Op::TotalInSlice, totals)])
}

/// Half a row of the down projection is near the sum of what a part of its features adds.
proof fn lemma_down_half_sums(
    m: Meaning,
    g: Arith,
    x: Tensor,
    x_scales: Tensor,
    weight: Tensor,
    scale: Tensor,
    h: int,
    start: int,
    part: int,
)
    requires
        m.rounds_well(g),
        start == 0 || start == 7680,
        calm_matrix_row(m, g, Matrix::Down, x, x_scales, weight, scale, h, start, part),
    ensures
        ({
            let t = (m.full)(
                Matrix::Down.row_total(g, x, x_scales, weight, scale, h, start, part),
            );
            let e = sum(
                7680,
                |k: int| m.down_term(x, x_scales, weight, scale, h, start + k, part),
            );
            let z = sum(
                7680,
                |k: int| m.down_bulk(x, x_scales, weight, scale, h, start + k, part),
            );
            &&& 10000000real * size(t - e) <= 550real * z
            &&& size(e) <= z
        }),
{
    let of = Matrix::Down;
    let (w, s) = (of.weight_row(weight, h, start), of.scale_row(scale, h, start));
    let (v, p) = (of.part_row(x, h, start, part), of.part_scale_row(x_scales, h, start, part));
    let term = |k: int| m.down_term(x, x_scales, weight, scale, h, start + k, part);
    let bulk = |k: int| m.down_bulk(x, x_scales, weight, scale, h, start + k, part);
    assert forall|k: int|
        #![trigger term(k)]
        #![trigger bulk(k)]
        0 <= k < 7680 implies term(k) == m.term(w, s, v, p, k) && bulk(k) == m.bulk(
        w,
        s,
        v,
        p,
        k,
    ) by {
        let l = start + k;
        assert(start + 16 * (k / 16) == 16 * (l / 16));
        assert(start + 960 * (k / 960) == 960 * (l / 960));
        assert(w[k] == weight.at(at_hl(h, l)));
        assert(s[k / 16] == scale.at(at_hl(h, 16 * (l / 16))));
        assert(v[k] == x.at(with_part(at_hl(h, l), part)));
        assert(p[k / 960] == x_scales.at(with_part(at_hl(h, 960 * (l / 960)), part)));
    }
    lemma_row_sums(m, g, w, s, v, p, term, bulk);
}

/// The total of both halves of a row of the down projection is near the sum of what a part of all
/// features adds.
proof fn lemma_down_part_sums(
    m: Meaning,
    g: Arith,
    x: Tensor,
    x_scales: Tensor,
    weight: Tensor,
    scale: Tensor,
    h: int,
    part: int,
)
    requires
        m.rounds_well(g),
        calm_down_part(m, g, x, x_scales, weight, scale, h, part),
    ensures
        ({
            let t = (m.full)(
                fold(
                    g,
                    Op::TotalAcrossSlices,
                    matrix_halves(g, x, x_scales, weight, scale, h, part),
                ),
            );
            let e = sum(15360, |l: int| m.down_term(x, x_scales, weight, scale, h, l, part));
            let z = sum(15360, |l: int| m.down_bulk(x, x_scales, weight, scale, h, l, part));
            &&& 10000000real * size(t - e) <= 553real * z
            &&& size(e) <= z
        }),
{
    let halves = matrix_halves(g, x, x_scales, weight, scale, h, part);
    lemma_down_half_sums(m, g, x, x_scales, weight, scale, h, 0, part);
    lemma_down_half_sums(m, g, x, x_scales, weight, scale, h, 7680, part);
    lemma_total_of_two(m, g, Op::TotalAcrossSlices, halves);
    let term = |l: int| m.down_term(x, x_scales, weight, scale, h, l, part);
    let bulk = |l: int| m.down_bulk(x, x_scales, weight, scale, h, l, part);
    let term0 = |k: int| m.down_term(x, x_scales, weight, scale, h, 0 + k, part);
    let bulk0 = |k: int| m.down_bulk(x, x_scales, weight, scale, h, 0 + k, part);
    let term1 = |k: int| m.down_term(x, x_scales, weight, scale, h, 7680 + k, part);
    let bulk1 = |k: int| m.down_bulk(x, x_scales, weight, scale, h, 7680 + k, part);
    lemma_sum_equal(7680, term0, term);
    lemma_sum_equal(7680, bulk0, bulk);
    lemma_sum_stretches(7680, 7680, term, term1);
    lemma_sum_stretches(7680, 7680, bulk, bulk1);
    let (e0, e1) = (sum(7680, term0), sum(7680, term1));
    let (z0, z1) = (sum(7680, bulk0), sum(7680, bulk1));
    let (t0, t1) = ((m.full)(halves[0]), (m.full)(halves[1]));
    let t = (m.full)(fold(g, Op::TotalAcrossSlices, halves));
    lemma_triangle(t0 - e0, e0, 0real);
    lemma_triangle(t1 - e1, e1, 0real);
    lemma_triangle(t - (t0 + t1), t0 - e0, t1 - e1);
    lemma_triangle(e0, e1, 0real);
}

/// A row of the down projection is near what the high and low parts of all feed-forward features
/// add to it, each times its scale: the error is that of one rounding, and of the sums.
pub proof fn law_down_matrix_is_near_the_product(
    m: Meaning,
    g: Arith,
    x: Tensor,
    x_scales: Tensor,
    weight: Tensor,
    scale: Tensor,
    h: int,
)
    requires
        m.rounds_well(g),
        calm_down_row(m, g, x, x_scales, weight, scale, h),
    ensures
        ({
            let e = sum(15360, |l: int| m.down_term(x, x_scales, weight, scale, h, l, 0)) + sum(
                15360,
                |l: int| m.down_term(x, x_scales, weight, scale, h, l, 1),
            );
            let z = sum(15360, |l: int| m.down_bulk(x, x_scales, weight, scale, h, l, 0)) + sum(
                15360,
                |l: int| m.down_bulk(x, x_scales, weight, scale, h, l, 1),
            );
            1000000real * size(
                (m.sixteen)(down_value(g, x, x_scales, weight, scale, h)) - e,
            ) <= 60real * z + 1954real * size(e)
        }),
{
    let totals = Seq::new(
        2,
        |part: int|
            fold(
                g,
                Op::TotalAcrossSlices,
                matrix_halves(g, x, x_scales, weight, scale, h, part),
            ),
    );
    lemma_down_part_sums(m, g, x, x_scales, weight, scale, h, 0);
    lemma_down_part_sums(m, g, x, x_scales, weight, scale, h, 1);
    lemma_total_of_two(m, g, Op::TotalInSlice, totals);
    let r = fold(g, Op::TotalInSlice, totals);
    let out = one(g, Op::NarrowBf16, r);
    assert(512real * size((m.sixteen)(out) - (m.full)(r)) <= size((m.full)(r))) by {
        reveal(Meaning::rounds_near);
    }
    assert(down_value(g, x, x_scales, weight, scale, h) == out) by {
        let parts = Seq::new(
            2,
            |part: int| down_total(g, x, x_scales, weight, scale, h, part),
        );
        assert forall|part: int| 0 <= part < 2 implies #[trigger] parts[part] == totals[part] by {
            assert(Seq::new(
                2,
                |half: int|
                    Matrix::Down.row_total(g, x, x_scales, weight, scale, h, 7680 * half, part),
            ) =~= matrix_halves(g, x, x_scales, weight, scale, h, part));
        }
        assert(parts =~= totals);
    }
    lemma_two_parts(
        (m.full)(totals[0]),
        (m.full)(totals[1]),
        sum(15360, |l: int| m.down_term(x, x_scales, weight, scale, h, l, 0)),
        sum(15360, |l: int| m.down_term(x, x_scales, weight, scale, h, l, 1)),
        sum(15360, |l: int| m.down_bulk(x, x_scales, weight, scale, h, l, 0)),
        sum(15360, |l: int| m.down_bulk(x, x_scales, weight, scale, h, l, 1)),
        (m.full)(r),
        (m.sixteen)(out),
    );
}

/// An up projection of the feed-forward block is near the exact product of its row of weights with
/// the hidden features: the error is that of one rounding, and what the split leaves.
pub proof fn law_up_feature_is_near_the_product(
    m: Meaning,
    g: Arith,
    x: Tensor,
    weight: Tensor,
    scale: Tensor,
    l: int,
)
    requires
        m.rounds_well(g),
        calm_split(m.calm, g, hidden_values(x)),
        calm_up(m.calm, g, up_weights(weight, l), up_scales(scale, l), hidden_values(x)),
    ensures
        ({
            let e = sum(
                HIDDEN as int,
                |h: int|
                    (m.four)(weight.at(at_hl(h, l))) * (m.eight)(
                        scale.at(at_hl(16 * (h / 16), l)),
                    ) * (m.sixteen)(x.at(at_h(h))),
            );
            let z = sum(
                HIDDEN as int,
                |h: int|
                    size(
                        (m.four)(weight.at(at_hl(h, l))) * (m.eight)(
                            scale.at(at_hl(16 * (h / 16), l)),
                        ),
                    ) * (m.full)(list_scales(g, hidden_values(x), 0)[h / 960]),
            );
            let out = up_feature(g, up_weights(weight, l), up_scales(scale, l), hidden_values(x));
            1000000real * size((m.sixteen)(out) - e) <= 268000real * z + 1954real * size(e)
        }),
{
    let xs = hidden_values(x);
    let (w, s) = (up_weights(weight, l), up_scales(scale, l));
    let p = list_scales(g, xs, 0);
    lemma_up_error(m, g, w, s, xs);
    let own = |h: int| m.weight(w, s, h) * (m.sixteen)(xs[h]);
    let owns = |h: int| size(m.weight(w, s, h)) * (m.full)(p[h / 960]);
    let raw = |h: int|
        (m.four)(weight.at(at_hl(h, l))) * (m.eight)(scale.at(at_hl(16 * (h / 16), l))) * (
        m.sixteen)(x.at(at_h(h)));
    let raws = |h: int|
        size((m.four)(weight.at(at_hl(h, l))) * (m.eight)(scale.at(at_hl(16 * (h / 16), l)))) * (
        m.full)(list_scales(g, hidden_values(x), 0)[h / 960]);
    assert forall|h: int|
        #![trigger own(h)]
        #![trigger owns(h)]
        0 <= h < HIDDEN implies own(h) == raw(h) && owns(h) == raws(h) by {
        assert(w[h] == weight.at(at_hl(h, l)));
        assert(s[h / 16] == scale.at(at_hl(16 * (h / 16), l)));
        assert(xs[h] == x.at(at_h(h)));
    }
    lemma_sum_equal(HIDDEN as int, own, raw);
    lemma_sum_equal(HIDDEN as int, owns, raws);
}

/// A gated feature of the block is near `u * v * (1 + erf(v / sqrt 2)) / 2`, for the numbers `u`
/// and `v` that both up projections of that feature give after rescaling.
pub proof fn law_gated_feature_is_near_the_unit(
    m: Meaning,
    g: Arith,
    erf: spec_fn(real) -> real,
    root: real,
    eps: real,
    xs: Seq<u32>,
    up_weight: Tensor,
    gate_weight: Tensor,
    up_scale: Tensor,
    gate_scale: Tensor,
    up_global_scale: u32,
    gate_global_scale: u32,
    l: int,
)
    requires
        m.rounds_well(g),
        m.names(),
        m.adds_near(g, Op::Sum),
        m.divides_near(g),
        m.errs_near(g, erf, root, eps),
        0real <= eps <= 1real,
        0 <= l < FEED,
        calm_gate(
            m.calm,
            g,
            rescaled(
                g,
                up_feature(g, up_weights(up_weight, l), up_scales(up_scale, l), xs),
                up_global_scale,
            ),
            rescaled(
                g,
                up_feature(g, up_weights(gate_weight, l), up_scales(gate_scale, l), xs),
                gate_global_scale,
            ),
        ),
    ensures
        ({
            let u = (m.sixteen)(
                rescaled(
                    g,
                    up_feature(g, up_weights(up_weight, l), up_scales(up_scale, l), xs),
                    up_global_scale,
                ),
            );
            let v = (m.sixteen)(
                rescaled(
                    g,
                    up_feature(g, up_weights(gate_weight, l), up_scales(gate_scale, l), xs),
                    gate_global_scale,
                ),
            );
            let exact = u * v * (1real + erf(v * root)) / 2real;
            let out = gated_features(
                g,
                xs,
                up_weight,
                gate_weight,
                up_scale,
                gate_scale,
                up_global_scale,
                gate_global_scale,
            )[l];
            size((m.sixteen)(out) - exact) <= size(exact) / 512real + (eps + 5real / 1000000real)
                * size(u * v)
        }),
{
    law_gate_is_near_the_unit(
        m,
        g,
        erf,
        root,
        eps,
        up_feature(g, up_weights(up_weight, l), up_scales(up_scale, l), xs),
        up_feature(g, up_weights(gate_weight, l), up_scales(gate_scale, l), xs),
        up_global_scale,
        gate_global_scale,
    );
}

/// The errors of an output of the block, put together.
proof fn lemma_block_output_sizes(z: real, e: real, d: real, k: real, oe: real)
    requires
        0real <= z,
        0real <= e,
        0real <= k,
        1000000real * d <= 268000real * z + 1954real * e,
        10000000real * oe <= k * (10000000real * d + 19533real * (e + d)),
    ensures
        1000000real * oe <= k * (269000real * z + 3912real * e),
{
    let (x, y) = (10000000real * d + 19533real * (e + d), 269000real * z + 3912real * e);
    assert(x <= 10real * y);
    assert(k * x <= 10real * (k * y)) by (nonlinear_arith)
        requires
            x <= 10real * y,
            0real <= k,
    ;
}

/// An output of the feed-forward block is near the exact product of its row of down weights with
/// the gated features `ys`, times the global scale of the down projection: the error is that of two
/// roundings, and what the split leaves.
pub proof fn law_block_output_is_near_the_product(
    m: Meaning,
    g: Arith,
    ys: Seq<u32>,
    weight: Tensor,
    scale: Tensor,
    global_scale: u32,
    h: int,
)
    requires
        m.rounds_well(g),
        ys.len() == FEED,
        calm_split(m.calm, g, ys),
        calm_down(m.calm, g, down_weights(weight, h), down_scales(scale, h), ys),
        calm_product(
            m.calm,
            g,
            down_feature(g, down_weights(weight, h), down_scales(scale, h), ys),
            global_scale,
        ),
    ensures
        ({
            let e = sum(
                FEED as int,
                |l: int|
                    (m.four)(weight.at(at_hl(h, l))) * (m.eight)(
                        scale.at(at_hl(h, 16 * (l / 16))),
                    ) * (m.sixteen)(ys[l]),
            );
            let z = sum(
                FEED as int,
                |l: int|
                    size(
                        (m.four)(weight.at(at_hl(h, l))) * (m.eight)(
                            scale.at(at_hl(h, 16 * (l / 16))),
                        ),
                    ) * (m.full)(list_scales(g, ys, 0)[l / 960]),
            );
            let t = (m.full)(global_scale);
            let out = block_feature(
                g,
                down_weights(weight, h),
                down_scales(scale, h),
                ys,
                global_scale,
            );
            1000000real * size((m.sixteen)(out) - e * t) <= size(t) * (269000real * z + 3912real
                * size(e))
        }),
{
    let (w, s) = (down_weights(weight, h), down_scales(scale, h));
    let p = list_scales(g, ys, 0);
    lemma_down_error(m, g, w, s, ys);
    let own = |l: int| m.weight(w, s, l) * (m.sixteen)(ys[l]);
    let owns = |l: int| size(m.weight(w, s, l)) * (m.full)(p[l / 960]);
    let raw = |l: int|
        (m.four)(weight.at(at_hl(h, l))) * (m.eight)(scale.at(at_hl(h, 16 * (l / 16)))) * (
        m.sixteen)(ys[l]);
    let raws = |l: int|
        size((m.four)(weight.at(at_hl(h, l))) * (m.eight)(scale.at(at_hl(h, 16 * (l / 16))))) * (
        m.full)(list_scales(g, ys, 0)[l / 960]);
    assert forall|l: int|
        #![trigger own(l)]
        #![trigger owns(l)]
        0 <= l < FEED implies own(l) == raw(l) && owns(l) == raws(l) by {
        assert(w[l] == weight.at(at_hl(h, l)));
        assert(s[l / 16] == scale.at(at_hl(h, 16 * (l / 16))));
    }
    lemma_sum_equal(FEED as int, own, raw);
    lemma_sum_equal(FEED as int, owns, raws);
    let (e, z) = (sum(FEED as int, raw), sum(FEED as int, raws));
    let v = down_feature(g, w, s, ys);
    let d = size((m.sixteen)(v) - e);
    lemma_rescaled_near(m, g, v, global_scale, e, d);
    lemma_block_output_sizes(
        z,
        size(e),
        d,
        size((m.full)(global_scale)),
        size(
            (m.sixteen)(block_feature(g, w, s, ys, global_scale)) - e * (m.full)(global_scale),
        ),
    );
}

} // verus!
