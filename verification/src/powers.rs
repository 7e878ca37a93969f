//! What powers of two do to the kernels, where the arithmetic unit passes them through.
//!
//! A power of two changes the exponent of a number alone. The laws take as a hypothesis that the
//! unit's answers follow suit; where an answer could overflow or underflow, they ask that it does
//! not.
use crate::activation::rescaled;
use crate::blocks::{block, blocks_total, decoded_f4, Matrix};
use crate::calm::{
    calm_blocks, calm_list, calm_output, calm_quarter, calm_two, calm_up, quarter_totals,
    row_totals, up_totals, Calm,
};
use crate::engine::{fold, one, two, Arith, Op};
use crate::layout::{at_h, at_hl};
use crate::mlp::{block_feature, gated_features, up_feature, up_scales, up_value, up_weights};
use crate::output::{part_total, quarter_input, quarter_total, quarter_weights, sharded_value};
use crate::places::{FEED, HIDDEN};
use crate::quantize::{
    group_scale, largest, list_parts, list_scale, list_scales, low_scale, magnitude, normal,
    part_of, part_scale, F32_256, F32_TINY, MAGNITUDE_BITS,
};
use crate::signs::is_zero;
use crate::tensor::{Format, Tensor};
use crate::zeros::{
    all_zero, keeps_zero, law_parts_of_zero_are_zero, law_zeros_have_the_smallest_scale,
};
use vstd::arithmetic::div_mod::lemma_fundamental_div_mod_converse;
use vstd::prelude::*;

verus! {

/// What it is to be twice another value, exactly, in three formats: the second pattern stands for
/// twice what the first one does.
pub struct Doubling {
    pub four: spec_fn(u32, u32) -> bool,
    pub eight: spec_fn(u32, u32) -> bool,
    pub full: spec_fn(u32, u32) -> bool,
}

/// The lists are in a relation, value by value.
pub open spec fn related(r: spec_fn(u32, u32) -> bool, a: Seq<u32>, b: Seq<u32>) -> bool {
    &&& a.len() == b.len()
    &&& forall|k: int| 0 <= k < a.len() ==> r(#[trigger] a[k], b[k])
}

/// The unit looks doubled weights up as doubled weights, contracts them to doubled sums, widens
/// doubled scales to doubled scales, and lets a doubled factor cancel against a halved one.
pub open spec fn doubles(g: Arith, d: Doubling) -> bool {
    &&& forall|a: u32, b: u32| #[trigger]
        (d.four)(a, b) ==> (d.eight)(one(g, Op::LookupF4AsF8, a), one(g, Op::LookupF4AsF8, b))
    &&& forall|a: Seq<u32>, b: Seq<u32>, x: Seq<u32>|
        #![trigger related(d.eight, a, b), g(Op::ContractF8, a, x)]
        related(d.eight, a, b) ==> (d.full)(g(Op::ContractF8, a, x), g(Op::ContractF8, b, x))
    &&& forall|a: u32, b: u32| #[trigger]
        (d.eight)(a, b) ==> (d.full)(one(g, Op::WidenF8, a), one(g, Op::WidenF8, b))
    &&& forall|a: u32, b: u32, s: u32, t: u32|
        #![trigger (d.full)(a, b), (d.full)(s, t)]
        (d.full)(a, b) && (d.full)(s, t) ==> two(g, Op::Multiply, b, s) == two(
            g,
            Op::Multiply,
            a,
            t,
        )
}

/// In a row, the weights of block `b` are doubled and its scale is halved; nothing else changes.
pub open spec fn traded(
    d: Doubling,
    weights: Seq<u32>,
    scales: Seq<u32>,
    new_weights: Seq<u32>,
    new_scales: Seq<u32>,
    b: int,
) -> bool {
    &&& new_weights.len() == weights.len()
    &&& new_scales.len() == scales.len()
    &&& forall|k: int|
        0 <= k < weights.len() ==> if 16 * b <= k < 16 * b + 16 {
            (d.four)(weights[k], #[trigger] new_weights[k])
        } else {
            new_weights[k] == weights[k]
        }
    &&& forall|i: int|
        0 <= i < scales.len() ==> if i == b {
            (d.eight)(#[trigger] new_scales[i], scales[i])
        } else {
            new_scales[i] == scales[i]
        }
}

/// Doubling the weights of a block and halving its scale leaves a row as it is: the scale of a
/// block is that of its sixteen weights and of no others.
pub proof fn law_block_scale_is_of_its_block(
    g: Arith,
    d: Doubling,
    weights: Seq<u32>,
    scales: Seq<u32>,
    new_weights: Seq<u32>,
    new_scales: Seq<u32>,
    x: Seq<u32>,
    x_scales: Seq<u32>,
    b: int,
)
    requires
        doubles(g, d),
        16 * scales.len() == weights.len(),
        traded(d, weights, scales, new_weights, new_scales, b),
    ensures
        blocks_total(g, decoded_f4(g, weights), scales, x, x_scales) == blocks_total(
            g,
            decoded_f4(g, new_weights),
            new_scales,
            x,
            x_scales,
        ),
{
    let w = decoded_f4(g, weights);
    let v = decoded_f4(g, new_weights);
    let p = Seq::new(scales.len(), |i: int| block(g, w, scales, x, x_scales, i));
    let q = Seq::new(scales.len(), |i: int| block(g, v, new_scales, x, x_scales, i));
    assert forall|i: int| 0 <= i < scales.len() implies #[trigger] p[i] == q[i] by {
        let wb = Seq::new(16, |k: int| w[16 * i + k]);
        let vb = Seq::new(16, |k: int| v[16 * i + k]);
        let xb = Seq::new(16, |k: int| x[16 * i + k]);
        if i == b {
            assert forall|k: int| 0 <= k < 16 implies (d.eight)(#[trigger] wb[k], vb[k]) by {
                let j = 16 * i + k;
                assert((d.four)(weights[j], new_weights[j]));
            }
            assert(related(d.eight, wb, vb));
            assert((d.full)(g(Op::ContractF8, wb, xb), g(Op::ContractF8, vb, xb)));
            assert((d.eight)(new_scales[i], scales[i]));
            assert((d.full)(
                one(g, Op::WidenF8, new_scales[i]),
                one(g, Op::WidenF8, scales[i]),
            ));
        } else {
            assert forall|k: int| 0 <= k < 16 implies #[trigger] wb[k] == vb[k] by {
                let j = 16 * i + k;
                assert(new_weights[j] == weights[j]);
            }
            assert(wb =~= vb);
            assert(new_scales[i] == scales[i]);
        }
    }
    assert(p =~= q);
}

/// Doubling the weights of one block of one row and halving its scale leaves an up projection as
/// it is.
pub proof fn law_up_block_scale_is_of_its_block(
    g: Arith,
    d: Doubling,
    x: Tensor,
    x_scales: Tensor,
    weight: Tensor,
    scale: Tensor,
    new_weight: Tensor,
    new_scale: Tensor,
    row: int,
    b: int,
    l: int,
)
    requires
        doubles(g, d),
        0 <= row < FEED,
        0 <= b < 240,
        0 <= l < FEED,
        forall|h: int, r: int|
            0 <= h < HIDDEN && 0 <= r < FEED ==> if r == row && 16 * b <= h < 16 * b + 16 {
                (d.four)(weight.at(at_hl(h, r)), #[trigger] new_weight.at(at_hl(h, r)))
            } else {
                new_weight.at(at_hl(h, r)) == weight.at(at_hl(h, r))
            },
        forall|i: int, r: int|
            #![trigger new_scale.at(at_hl(16 * i, r))]
            0 <= i < 240 && 0 <= r < FEED ==> if r == row && i == b {
                (d.eight)(new_scale.at(at_hl(16 * i, r)), scale.at(at_hl(16 * i, r)))
            } else {
                new_scale.at(at_hl(16 * i, r)) == scale.at(at_hl(16 * i, r))
            },
    ensures
        up_value(g, x, x_scales, new_weight, new_scale, l) == up_value(
            g,
            x,
            x_scales,
            weight,
            scale,
            l,
        ),
{
    let m = Matrix::Up;
    let w = m.weight_row(weight, l, 0);
    let s = m.scale_row(scale, l, 0);
    let nw = m.weight_row(new_weight, l, 0);
    let ns = m.scale_row(new_scale, l, 0);
    let c = if l == row {
        b
    } else {
        -1
    };
    assert forall|k: int| 0 <= k < HIDDEN implies if 16 * c <= k < 16 * c + 16 {
        (d.four)(w[k], #[trigger] nw[k])
    } else {
        nw[k] == w[k]
    } by {
        assert(nw[k] == new_weight.at(at_hl(k, l)));
        assert(w[k] == weight.at(at_hl(k, l)));
    }
    assert forall|i: int| 0 <= i < 240 implies if i == c {
        (d.eight)(#[trigger] ns[i], s[i])
    } else {
        ns[i] == s[i]
    } by {
        assert(ns[i] == new_scale.at(at_hl(16 * i, l)));
        assert(s[i] == scale.at(at_hl(16 * i, l)));
    }
    let p = Seq::new(2, |part: int| m.row_total(g, x, x_scales, weight, scale, l, 0, part));
    let q = Seq::new(2, |part: int| m.row_total(g, x, x_scales, new_weight, new_scale, l, 0, part));
    assert forall|part: int| 0 <= part < 2 implies #[trigger] p[part] == q[part] by {
        law_block_scale_is_of_its_block(
            g,
            d,
            w,
            s,
            nw,
            ns,
            m.part_row(x, l, 0, part),
            m.part_scale_row(x_scales, l, 0, part),
            c,
        );
    }
    assert(p =~= q);
}

/// What it is to be a power of two times another value, exactly, and which requests are harmless.
pub struct Scaling {
    /// Of two bfloat16 values: the second is the power of two times the first.
    pub narrow: spec_fn(u32, u32) -> bool,
    /// Of two 32-bit floats: the second is the power of two times the first.
    pub wide: spec_fn(u32, u32) -> bool,
    /// Of two 32-bit floats: the first is the power of two times the second.
    pub counter: spec_fn(u32, u32) -> bool,
    /// A request is on numbers, and its answer neither overflows nor underflows.
    pub calm: Calm,
}

/// A magnitude that is large enough for a scale to be drawn from it, and finite: at least 2 to the
/// power of -40.
pub open spec fn ample(m: u32) -> bool {
    0x2b80_0000 <= m < 0x7f80_0000
}

impl Scaling {
    /// Widening and taking the magnitude pass the power on.
    #[verifier::opaque]
    pub open spec fn widens(self, g: Arith) -> bool {
        &&& forall|x: u32, y: u32| #[trigger]
            (self.narrow)(x, y) ==> (self.wide)(
                one(g, Op::WidenBf16, x),
                one(g, Op::WidenBf16, y),
            )
        &&& forall|a: u32, b: u32| #[trigger]
            (self.wide)(a, b) ==> (self.wide)(a & MAGNITUDE_BITS, b & MAGNITUDE_BITS)
    }

    /// The largest of a list passes the power on.
    #[verifier::opaque]
    pub open spec fn orders(self, g: Arith) -> bool {
        forall|a: Seq<u32>, b: Seq<u32>| #[trigger]
            related(self.wide, a, b) && a.len() > 0 ==> (self.wide)(
                fold(g, Op::LargestInSlice, a),
                fold(g, Op::LargestInSlice, b),
            )
    }

    /// A scale drawn from ample magnitudes is not clipped, and passes the power on.
    #[verifier::opaque]
    pub open spec fn draws(self, g: Arith) -> bool {
        forall|m: u32, n: u32| #[trigger]
            (self.wide)(m, n) && ample(m) && ample(n) ==> {
                let q = two(g, Op::Divide, m, F32_256);
                let r = two(g, Op::Divide, n, F32_256);
                &&& two(g, Op::ClipMax, q, F32_TINY) == q
                &&& two(g, Op::ClipMax, r, F32_TINY) == r
                &&& (self.wide)(q, r)
                &&& (self.wide)(low_scale(g, q), low_scale(g, r))
            }
    }

    /// The power cancels in a quotient.
    #[verifier::opaque]
    pub open spec fn divides(self, g: Arith) -> bool {
        forall|a: u32, b: u32, s: u32, t: u32|
            #![trigger (self.wide)(a, b), (self.wide)(s, t)]
            (self.wide)(a, b) && (self.wide)(s, t) ==> two(g, Op::Divide, a, s) == two(
                g,
                Op::Divide,
                b,
                t,
            )
    }

    /// A harmless product passes the power of either factor on.
    #[verifier::opaque]
    pub open spec fn multiplies(self, g: Arith) -> bool {
        &&& forall|a: u32, b: u32, c: u32|
            #![trigger (self.wide)(a, b), two(g, Op::Multiply, c, a)]
            (self.wide)(a, b) && calm_two(self.calm, Op::Multiply, c, a) && calm_two(
                self.calm,
                Op::Multiply,
                c,
                b,
            ) ==> (self.wide)(two(g, Op::Multiply, c, a), two(g, Op::Multiply, c, b))
        &&& forall|a: u32, b: u32, c: u32|
            #![trigger (self.wide)(a, b), two(g, Op::Multiply, a, c)]
            (self.wide)(a, b) && calm_two(self.calm, Op::Multiply, a, c) && calm_two(
                self.calm,
                Op::Multiply,
                b,
                c,
            ) ==> (self.wide)(two(g, Op::Multiply, a, c), two(g, Op::Multiply, b, c))
    }

    /// The power cancels against its counterpart in a product.
    #[verifier::opaque]
    pub open spec fn cancels(self, g: Arith) -> bool {
        forall|a: u32, b: u32, s: u32, t: u32|
            #![trigger (self.wide)(a, b), (self.counter)(s, t)]
            (self.wide)(a, b) && (self.counter)(s, t) ==> two(g, Op::Multiply, a, s) == two(
                g,
                Op::Multiply,
                b,
                t,
            )
    }

    /// A harmless total passes the power on.
    #[verifier::opaque]
    pub open spec fn adds(self, g: Arith, op: Op) -> bool {
        forall|a: Seq<u32>, b: Seq<u32>| #[trigger]
            related(self.wide, a, b) && calm_list(self.calm, op, a) && calm_list(self.calm, op, b)
                ==> (self.wide)(fold(g, op, a), fold(g, op, b))
    }

    /// Harmless rounding passes the power on.
    #[verifier::opaque]
    pub open spec fn rounds(self, g: Arith) -> bool {
        forall|a: u32, b: u32| #[trigger]
            (self.wide)(a, b) && calm_list(self.calm, Op::NarrowBf16, seq![a])
                && calm_list(
                self.calm,
                Op::NarrowBf16,
                seq![b],
            ) ==> (self.narrow)(one(g, Op::NarrowBf16, a), one(g, Op::NarrowBf16, b))
    }

    /// A power of two times zero is zero.
    #[verifier::opaque]
    pub open spec fn fixes_zero(self) -> bool {
        forall|a: u32| #[trigger] is_zero(Format::F32, a) ==> (self.wide)(a, a)
    }

    /// The unit passes the power of two through.
    pub open spec fn passes(self, g: Arith) -> bool {
        &&& self.widens(g)
        &&& self.orders(g)
        &&& self.draws(g)
        &&& self.divides(g)
        &&& self.multiplies(g)
        &&& self.cancels(g)
        &&& self.adds(g, Op::TotalInSlice)
        &&& self.adds(g, Op::TotalAcrossSlices)
        &&& self.rounds(g)
        &&& self.fixes_zero()
        &&& keeps_zero(g, self.calm)
    }

    /// A group and the power of two times the group, whose largest magnitudes are ample; or a group
    /// of zeros, twice.
    pub open spec fn group(self, g: Arith, xs: Seq<u32>, ys: Seq<u32>) -> bool {
        ||| related(self.narrow, xs, ys) && ample(largest(g, xs)) && ample(largest(g, ys))
        ||| xs == ys && all_zero(Format::Bf16, xs)
    }
}

proof fn lemma_add(s: Scaling, g: Arith, op: Op, a: Seq<u32>, b: Seq<u32>)
    requires
        s.adds(g, op),
        related(s.wide, a, b),
        calm_list(s.calm, op, a),
        calm_list(s.calm, op, b),
    ensures
        (s.wide)(fold(g, op, a), fold(g, op, b)),
{
    reveal(Scaling::adds);
}

proof fn lemma_round(s: Scaling, g: Arith, a: u32, b: u32)
    requires
        s.rounds(g),
        (s.wide)(a, b),
        calm_list(s.calm, Op::NarrowBf16, seq![a]),
        calm_list(s.calm, Op::NarrowBf16, seq![b]),
    ensures
        (s.narrow)(one(g, Op::NarrowBf16, a), one(g, Op::NarrowBf16, b)),
{
    reveal(Scaling::rounds);
}

/// The scale of an ample group passes the power on.
proof fn lemma_ample_scale(s: Scaling, g: Arith, xs: Seq<u32>, ys: Seq<u32>, part: int)
    requires
        s.passes(g),
        xs.len() > 0,
        related(s.narrow, xs, ys),
        ample(largest(g, xs)),
        ample(largest(g, ys)),
    ensures
        (s.wide)(group_scale(g, xs), group_scale(g, ys)),
        (s.wide)(
            part_scale(g, group_scale(g, xs), part),
            part_scale(g, group_scale(g, ys), part),
        ),
{
    let a = Seq::new(xs.len(), |k: int| magnitude(g, xs[k]));
    let b = Seq::new(ys.len(), |k: int| magnitude(g, ys[k]));
    assert forall|k: int| 0 <= k < a.len() implies (s.wide)(#[trigger] a[k], b[k]) by {
        reveal(Scaling::widens);
        assert((s.narrow)(xs[k], ys[k]));
        assert((s.wide)(one(g, Op::WidenBf16, xs[k]), one(g, Op::WidenBf16, ys[k])));
    }
    assert(related(s.wide, a, b));
    assert((s.wide)(largest(g, xs), largest(g, ys))) by {
        reveal(Scaling::orders);
    }
    reveal(Scaling::draws);
}

/// The parts of a value do not see the power, where the scale has it too.
proof fn lemma_ample_part(s: Scaling, g: Arith, x: u32, y: u32, p: u32, q: u32, part: int)
    requires
        s.passes(g),
        (s.narrow)(x, y),
        (s.wide)(p, q),
    ensures
        part_of(g, x, p, part) == part_of(g, y, q, part),
{
    assert((s.wide)(one(g, Op::WidenBf16, x), one(g, Op::WidenBf16, y))) by {
        reveal(Scaling::widens);
    }
    assert(normal(g, x, p) == normal(g, y, q)) by {
        reveal(Scaling::divides);
    }
}

/// A power of two in all values leaves their parts as they are and passes to the scales alone,
/// where every group holds an ample magnitude.
pub proof fn law_powers_pass_to_scales(
    s: Scaling,
    g: Arith,
    xs: Seq<u32>,
    ys: Seq<u32>,
    part: int,
)
    requires
        s.passes(g),
        xs.len() % 960 == 0,
        related(s.narrow, xs, ys),
        forall|i: int|
            #![trigger xs.subrange(960 * i, 960 * i + 960)]
            0 <= i < xs.len() / 960 ==> ample(largest(g, xs.subrange(960 * i, 960 * i + 960)))
                && ample(largest(g, ys.subrange(960 * i, 960 * i + 960))),
    ensures
        list_parts(g, xs, part) == list_parts(g, ys, part),
        related(s.wide, list_scales(g, xs, part), list_scales(g, ys, part)),
{
    assert forall|i: int|
        #![trigger list_scale(g, xs, i)]
        #![trigger list_scales(g, xs, part)[i]]
        0 <= i < xs.len() / 960 implies (s.wide)(
        list_scales(g, xs, part)[i],
        list_scales(g, ys, part)[i],
    ) && (s.wide)(list_scale(g, xs, i), list_scale(g, ys, i)) by {
        let a = xs.subrange(960 * i, 960 * i + 960);
        let b = ys.subrange(960 * i, 960 * i + 960);
        assert forall|k: int| 0 <= k < 960 implies (s.narrow)(#[trigger] a[k], b[k]) by {
            assert((s.narrow)(xs[960 * i + k], ys[960 * i + k]));
        }
        lemma_ample_scale(s, g, a, b, part);
    }
    assert forall|k: int| 0 <= k < xs.len() implies #[trigger] list_parts(g, xs, part)[k]
        == list_parts(g, ys, part)[k] by {
        let i = k / 960;
        assert((s.wide)(list_scale(g, xs, i), list_scale(g, ys, i)));
        assert((s.narrow)(xs[k], ys[k]));
        lemma_ample_part(
            s,
            g,
            xs[k],
            ys[k],
            list_scale(g, xs, i),
            list_scale(g, ys, i),
            part,
        );
    }
    assert(list_parts(g, xs, part) =~= list_parts(g, ys, part));
}

/// The parts of a group do not see the power. Their scale passes it on, or else the parts are zero
/// and the scale is the same.
proof fn lemma_group_parts(s: Scaling, g: Arith, xs: Seq<u32>, ys: Seq<u32>, part: int)
    requires
        s.passes(g),
        xs.len() > 0,
        s.group(g, xs, ys),
    ensures
        xs.len() == ys.len(),
        forall|k: int|
            0 <= k < xs.len() ==> part_of(g, #[trigger] xs[k], group_scale(g, xs), part)
                == part_of(g, ys[k], group_scale(g, ys), part),
        ({
            let p = part_scale(g, group_scale(g, xs), part);
            let q = part_scale(g, group_scale(g, ys), part);
            ||| (s.wide)(p, q)
            ||| p == q && forall|k: int|
                0 <= k < xs.len() ==> is_zero(
                    Format::F8,
                    part_of(g, #[trigger] xs[k], group_scale(g, xs), part),
                )
        }),
{
    if related(s.narrow, xs, ys) && ample(largest(g, xs)) && ample(largest(g, ys)) {
        lemma_ample_scale(s, g, xs, ys, part);
        assert forall|k: int| 0 <= k < xs.len() implies part_of(
            g,
            #[trigger] xs[k],
            group_scale(g, xs),
            part,
        ) == part_of(g, ys[k], group_scale(g, ys), part) by {
            assert((s.narrow)(xs[k], ys[k]));
            lemma_ample_part(s, g, xs[k], ys[k], group_scale(g, xs), group_scale(g, ys), part);
        }
    } else {
        law_zeros_have_the_smallest_scale(g, s.calm, xs);
        assert forall|k: int| 0 <= k < xs.len() implies is_zero(
            Format::F8,
            part_of(g, #[trigger] xs[k], group_scale(g, xs), part),
        ) by {
            assert(is_zero(Format::Bf16, xs[k]));
            law_parts_of_zero_are_zero(g, s.calm, xs[k], part);
        }
    }
}

/// A row passes on the power that the scales of its values have.
proof fn lemma_blocks(
    s: Scaling,
    g: Arith,
    weights: Seq<u32>,
    scales: Seq<u32>,
    x: Seq<u32>,
    p: Seq<u32>,
    q: Seq<u32>,
)
    requires
        s.passes(g),
        calm_blocks(s.calm, g, weights, scales, x, p),
        calm_blocks(s.calm, g, weights, scales, x, q),
        x.len() == 16 * scales.len(),
        scales.len() == 60 * p.len(),
        p.len() == q.len(),
        forall|i: int|
            0 <= i < p.len() ==> (s.wide)(#[trigger] p[i], q[i]) || p[i] == q[i] && forall|k: int|
                960 * i <= k < 960 * i + 960 ==> is_zero(Format::F8, #[trigger] x[k]),
    ensures
        (s.wide)(
            blocks_total(g, weights, scales, x, p),
            blocks_total(g, weights, scales, x, q),
        ),
{
    let a = Seq::new(scales.len(), |b: int| block(g, weights, scales, x, p, b));
    let c = Seq::new(scales.len(), |b: int| block(g, weights, scales, x, q, b));
    assert forall|b: int| 0 <= b < scales.len() implies (s.wide)(#[trigger] a[b], c[b]) by {
        let w = Seq::new(16, |k: int| weights[16 * b + k]);
        let v = Seq::new(16, |k: int| x[16 * b + k]);
        let sum = g(Op::ContractF8, w, v);
        let t = one(g, Op::WidenF8, scales[b]);
        let m = two(g, Op::Multiply, sum, t);
        let i = b / 60;
        assert(a[b] == block(g, weights, scales, x, p, b));
        assert(c[b] == block(g, weights, scales, x, q, b));
        if (s.wide)(p[i], q[i]) {
            reveal(Scaling::multiplies);
            assert((s.wide)(two(g, Op::Multiply, m, p[i]), two(g, Op::Multiply, m, q[i])));
        } else {
            reveal(Scaling::fixes_zero);
            reveal(keeps_zero);
            assert forall|k: int| 0 <= k < 16 implies is_zero(Format::F8, #[trigger] v[k]) by {
                assert(is_zero(Format::F8, x[16 * b + k]));
            }
            assert(all_zero(Format::F8, v));
            assert(is_zero(Format::F32, sum));
            assert(is_zero(Format::F32, m));
            assert(is_zero(Format::F32, two(g, Op::Multiply, m, p[i])));
        }
    }
    assert(related(s.wide, a, c));
    lemma_add(s, g, Op::TotalInSlice, a, c);
}

/// The groups of two lists of values differ by the power alone.
pub open spec fn scaled_groups(s: Scaling, g: Arith, xs: Seq<u32>, ys: Seq<u32>) -> bool {
    &&& xs.len() == ys.len()
    &&& xs.len() % 960 == 0
    &&& forall|i: int|
        #![trigger xs.subrange(960 * i, 960 * i + 960)]
        0 <= i < xs.len() / 960 ==> s.group(
            g,
            xs.subrange(960 * i, 960 * i + 960),
            ys.subrange(960 * i, 960 * i + 960),
        )
}

/// The parts of two such lists are the same, and the scales of a group differ by the power or
/// belong to parts of zero.
proof fn lemma_list_parts(s: Scaling, g: Arith, xs: Seq<u32>, ys: Seq<u32>, part: int)
    requires
        s.passes(g),
        scaled_groups(s, g, xs, ys),
    ensures
        list_parts(g, xs, part) == list_parts(g, ys, part),
        forall|i: int|
            0 <= i < xs.len() / 960 ==> {
                let p = #[trigger] list_scales(g, xs, part)[i];
                let q = list_scales(g, ys, part)[i];
                ||| (s.wide)(p, q)
                ||| p == q && forall|k: int|
                    960 * i <= k < 960 * i + 960 ==> is_zero(
                        Format::F8,
                        #[trigger] list_parts(g, xs, part)[k],
                    )
            },
{
    assert forall|k: int| 0 <= k < xs.len() implies #[trigger] list_parts(g, xs, part)[k]
        == list_parts(g, ys, part)[k] by {
        let i = k / 960;
        let a = xs.subrange(960 * i, 960 * i + 960);
        let b = ys.subrange(960 * i, 960 * i + 960);
        lemma_group_parts(s, g, a, b, part);
        assert(a[k - 960 * i] == xs[k]);
        assert(b[k - 960 * i] == ys[k]);
    }
    assert(list_parts(g, xs, part) =~= list_parts(g, ys, part));
    assert forall|i: int| 0 <= i < xs.len() / 960 implies ({
        let p = #[trigger] list_scales(g, xs, part)[i];
        let q = list_scales(g, ys, part)[i];
        ||| (s.wide)(p, q)
        ||| p == q && forall|k: int|
            960 * i <= k < 960 * i + 960 ==> is_zero(
                Format::F8,
                #[trigger] list_parts(g, xs, part)[k],
            )
    }) by {
        let a = xs.subrange(960 * i, 960 * i + 960);
        let b = ys.subrange(960 * i, 960 * i + 960);
        lemma_group_parts(s, g, a, b, part);
        let p = list_scales(g, xs, part)[i];
        let q = list_scales(g, ys, part)[i];
        if !(s.wide)(p, q) {
            assert forall|k: int| 960 * i <= k < 960 * i + 960 implies is_zero(
                Format::F8,
                #[trigger] list_parts(g, xs, part)[k],
            ) by {
                lemma_fundamental_div_mod_converse(k, 960, i, k - 960 * i);
                assert(k / 960 == i);
                assert(a[k - 960 * i] == xs[k]);
            }
        }
    }
}

/// An up projection passes the power of the hidden features on.
pub proof fn law_up_passes_powers(
    s: Scaling,
    g: Arith,
    weights: Seq<u32>,
    scales: Seq<u32>,
    xs: Seq<u32>,
    ys: Seq<u32>,
)
    requires
        s.passes(g),
        scaled_groups(s, g, xs, ys),
        calm_up(s.calm, g, weights, scales, xs),
        calm_up(s.calm, g, weights, scales, ys),
        16 * scales.len() == xs.len(),
    ensures
        (s.narrow)(up_feature(g, weights, scales, xs), up_feature(g, weights, scales, ys)),
{
    let a = up_totals(g, weights, scales, xs);
    let b = up_totals(g, weights, scales, ys);
    assert forall|part: int| 0 <= part < 2 implies (s.wide)(#[trigger] a[part], b[part]) by {
        lemma_list_parts(s, g, xs, ys, part);
        let x = list_parts(g, xs, part);
        assert(list_parts(g, ys, part) == x);
        lemma_blocks(
            s,
            g,
            decoded_f4(g, weights),
            scales,
            x,
            list_scales(g, xs, part),
            list_scales(g, ys, part),
        );
    }
    lemma_add(s, g, Op::TotalInSlice, a, b);
    lemma_round(s, g, fold(g, Op::TotalInSlice, a), fold(g, Op::TotalInSlice, b));
}

/// A power of two in the hidden features cancels against its counterpart in the global scales of
/// the up and gate projections: the result of the feed-forward block stays as it is.
pub proof fn law_powers_cancel_in_the_block(
    s: Scaling,
    g: Arith,
    xs: Seq<u32>,
    ys: Seq<u32>,
    up_weight: Tensor,
    gate_weight: Tensor,
    up_scale: Tensor,
    gate_scale: Tensor,
    up_global_scale: u32,
    gate_global_scale: u32,
    new_up_global_scale: u32,
    new_gate_global_scale: u32,
    down_row: Seq<u32>,
    down_row_scales: Seq<u32>,
    down_global_scale: u32,
)
    requires
        s.passes(g),
        xs.len() == HIDDEN,
        scaled_groups(s, g, xs, ys),
        forall|l: int|
            #![trigger up_weights(up_weight, l)]
            0 <= l < FEED ==> {
                let (u, v) = (up_weights(up_weight, l), up_weights(gate_weight, l));
                let (p, q) = (up_scales(up_scale, l), up_scales(gate_scale, l));
                &&& calm_up(s.calm, g, u, p, xs)
                &&& calm_up(s.calm, g, u, p, ys)
                &&& calm_up(s.calm, g, v, q, xs)
                &&& calm_up(s.calm, g, v, q, ys)
            },
        (s.counter)(up_global_scale, new_up_global_scale),
        (s.counter)(gate_global_scale, new_gate_global_scale),
    ensures
        block_feature(
            g,
            down_row,
            down_row_scales,
            gated_features(
                g,
                ys,
                up_weight,
                gate_weight,
                up_scale,
                gate_scale,
                new_up_global_scale,
                new_gate_global_scale,
            ),
            down_global_scale,
        ) == block_feature(
            g,
            down_row,
            down_row_scales,
            gated_features(
                g,
                xs,
                up_weight,
                gate_weight,
                up_scale,
                gate_scale,
                up_global_scale,
                gate_global_scale,
            ),
            down_global_scale,
        ),
{
    let a = gated_features(
        g,
        xs,
        up_weight,
        gate_weight,
        up_scale,
        gate_scale,
        up_global_scale,
        gate_global_scale,
    );
    let b = gated_features(
        g,
        ys,
        up_weight,
        gate_weight,
        up_scale,
        gate_scale,
        new_up_global_scale,
        new_gate_global_scale,
    );
    assert forall|l: int| 0 <= l < FEED implies #[trigger] a[l] == b[l] by {
        let (u, v) = (up_weights(up_weight, l), up_weights(gate_weight, l));
        let (p, q) = (up_scales(up_scale, l), up_scales(gate_scale, l));
        law_up_passes_powers(s, g, u, p, xs, ys);
        law_up_passes_powers(s, g, v, q, xs, ys);
        lemma_rescaled(
            s,
            g,
            up_feature(g, u, p, xs),
            up_feature(g, u, p, ys),
            up_global_scale,
            new_up_global_scale,
        );
        lemma_rescaled(
            s,
            g,
            up_feature(g, v, q, xs),
            up_feature(g, v, q, ys),
            gate_global_scale,
            new_gate_global_scale,
        );
    }
    assert(b =~= a);
}

/// The power cancels when a value is rescaled by its counterpart.
proof fn lemma_rescaled(s: Scaling, g: Arith, x: u32, y: u32, p: u32, q: u32)
    requires
        s.passes(g),
        (s.narrow)(x, y),
        (s.counter)(p, q),
    ensures
        rescaled(g, x, p) == rescaled(g, y, q),
{
    assert((s.wide)(one(g, Op::WidenBf16, x), one(g, Op::WidenBf16, y))) by {
        reveal(Scaling::widens);
    }
    reveal(Scaling::cancels);
}

/// A quarter passes the power on.
proof fn lemma_quarter(s: Scaling, g: Arith, weights: Seq<u32>, xs: Seq<u32>, ys: Seq<u32>)
    requires
        s.passes(g),
        xs.len() > 0,
        s.group(g, xs, ys),
        calm_quarter(s.calm, g, weights, xs),
        calm_quarter(s.calm, g, weights, ys),
    ensures
        (s.wide)(quarter_total(g, weights, xs), quarter_total(g, weights, ys)),
{
    let a = quarter_totals(g, weights, xs);
    let b = quarter_totals(g, weights, ys);
    assert forall|part: int| 0 <= part < 2 implies (s.wide)(#[trigger] a[part], b[part]) by {
        assert(a[part] == part_total(g, weights, xs, part));
        assert(b[part] == part_total(g, weights, ys, part));
        lemma_group_parts(s, g, xs, ys, part);
        let (p, q) = (group_scale(g, xs), group_scale(g, ys));
        let x = Seq::new(xs.len(), |k: int| part_of(g, xs[k], p, part));
        let y = Seq::new(ys.len(), |k: int| part_of(g, ys[k], q, part));
        assert forall|k: int| 0 <= k < x.len() implies #[trigger] x[k] == y[k] by {
            assert(xs[k] == xs[k]);
        }
        assert(x =~= y);
        let c = g(Op::ContractF8, weights, x);
        let (m, n) = (part_scale(g, p, part), part_scale(g, q, part));
        if (s.wide)(m, n) {
            reveal(Scaling::multiplies);
            assert((s.wide)(two(g, Op::Multiply, c, m), two(g, Op::Multiply, c, n)));
        } else {
            reveal(Scaling::fixes_zero);
            reveal(keeps_zero);
            assert forall|k: int| 0 <= k < x.len() implies is_zero(Format::F8, #[trigger] x[k]) by {
                assert(is_zero(Format::F8, part_of(g, xs[k], p, part)));
            }
            assert(all_zero(Format::F8, x));
            assert(is_zero(Format::F32, c));
            assert(is_zero(Format::F32, two(g, Op::Multiply, c, m)));
        }
    }
    lemma_add(s, g, Op::TotalInSlice, a, b);
}

/// The output projection by quarters passes the power of the query features on: its scales are
/// drawn from the query features themselves.
pub proof fn law_sharded_output_passes_powers(
    s: Scaling,
    g: Arith,
    x: Tensor,
    y: Tensor,
    weight: Tensor,
    weight_scale: Tensor,
    h: int,
)
    requires
        s.passes(g),
        forall|quarter: int|
            #![trigger quarter_input(x, h, quarter)]
            0 <= quarter < 4 ==> s.group(
                g,
                quarter_input(x, h, quarter),
                quarter_input(y, h, quarter),
            ),
        calm_output(s.calm, g, x, weight, weight_scale, h),
        calm_output(s.calm, g, y, weight, weight_scale, h),
    ensures
        (s.narrow)(
            sharded_value(g, x, weight, weight_scale, h),
            sharded_value(g, y, weight, weight_scale, h),
        ),
{
    let a = row_totals(g, x, weight, h);
    let b = row_totals(g, y, weight, h);
    assert forall|quarter: int| 0 <= quarter < 4 implies (s.wide)(
        #[trigger] a[quarter],
        b[quarter],
    ) by {
        lemma_quarter(
            s,
            g,
            quarter_weights(weight, h, quarter),
            quarter_input(x, h, quarter),
            quarter_input(y, h, quarter),
        );
    }
    lemma_add(s, g, Op::TotalAcrossSlices, a, b);
    let p = fold(g, Op::TotalAcrossSlices, a);
    let q = fold(g, Op::TotalAcrossSlices, b);
    lemma_round(s, g, p, q);
    let m = one(g, Op::WidenBf16, one(g, Op::NarrowBf16, p));
    let n = one(g, Op::WidenBf16, one(g, Op::NarrowBf16, q));
    assert((s.wide)(m, n)) by {
        reveal(Scaling::widens);
    }
    let c = one(g, Op::WidenBf16, weight_scale.at(at_h(h)));
    assert((s.wide)(two(g, Op::Multiply, m, c), two(g, Op::Multiply, n, c))) by {
        reveal(Scaling::multiplies);
    }
    lemma_round(s, g, two(g, Op::Multiply, m, c), two(g, Op::Multiply, n, c));
}

} // verus!
