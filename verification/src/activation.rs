//! The gated activation of the feed-forward block.
use crate::engine::{computes, one, total, two, Arith, Op};
use crate::layout::{at_l, lemma_same_run, lemma_three_digits, origin, Layout};
use crate::places::{gated_results, room, up_results, up_rows_paired, FEED};
use crate::tensor::{Format, Tensor};
use vstd::prelude::*;

verus! {

/// The inverse of the square root of two, 0.70710678118 as a 32-bit float.
pub const F32_INVSQRT2: u32 = 0x3f35_04f3;

/// One as a 32-bit float.
pub const F32_ONE: u32 = 0x3f80_0000;

/// Two as a 32-bit float.
pub const F32_TWO: u32 = 0x4000_0000;

/// A bfloat16 times a 32-bit float, rounded.
pub open spec fn rescaled(g: Arith, x: u32, s: u32) -> u32 {
    one(g, Op::NarrowBf16, two(g, Op::Multiply, one(g, Op::WidenBf16, x), s))
}

/// Twice the Gaussian error linear unit of a bfloat16: `x * (erf(x / sqrt 2) + 1)`.
pub open spec fn double_gelu(g: Arith, x: u32) -> u32 {
    let wide = one(g, Op::WidenBf16, x);
    let e = one(g, Op::Erf, two(g, Op::Multiply, wide, F32_INVSQRT2));
    two(g, Op::Multiply, two(g, Op::Sum, e, F32_ONE), wide)
}

/// The gated value of a feed-forward feature: `up * gelu(gate)`, both brought to their global
/// scale first.
pub open spec fn gated(g: Arith, up: u32, gate: u32, up_scale: u32, gate_scale: u32) -> u32 {
    let product = two(
        g,
        Op::Multiply,
        one(g, Op::WidenBf16, rescaled(g, up, up_scale)),
        double_gelu(g, rescaled(g, gate, gate_scale)),
    );
    one(g, Op::NarrowBf16, two(g, Op::Divide, product, F32_TWO))
}

proof fn lemma_geglu_wf()
    ensures
        gated_results().wf(),
        up_rows_paired(room(8, Layout::End)).wf(),
{
    reveal_with_fuel(Layout::volume, 8);
    reveal_with_fuel(Layout::reach, 8);
    reveal_with_fuel(Layout::terms_wf, 8);
}

proof fn lemma_geglu_covers(l: int)
    requires
        0 <= l < FEED,
    ensures
        gated_results().covers(at_l(l)),
        up_rows_paired(room(8, Layout::End)).covers(at_l(l - l % 120)),
        up_rows_paired(room(8, Layout::End)).position(at_l(l)) == up_rows_paired(
            room(8, Layout::End),
        ).position(at_l(l - l % 120)),
{
    let s = l - l % 120;
    lemma_three_digits(l, 120, 64, 7680, 2);
    lemma_same_run(l, 120, 128, 0);
    lemma_three_digits(s, 120, 64, 7680, 2);
    assert(gated_results().covers(at_l(l))) by {
        reveal_with_fuel(Layout::kept, 8);
    }
    assert(up_rows_paired(room(8, Layout::End)).covers(at_l(s))) by {
        reveal_with_fuel(Layout::kept, 8);
    }
    assert(s / 120 == l / 120);
    assert(s / 7680 == l / 7680);
    reveal_with_fuel(Layout::position, 8);
}

/// Brings the results of an up projection together by 120 and applies the global scale.
fn apply_global_scale<F: Fn(Op, Vec<u32>, Vec<u32>) -> u32>(
    alu: &F,
    x: &Tensor,
    scale: &Tensor,
) -> (out: Tensor)
    requires
        total(*alu),
        x.is(Format::Bf16, up_results()),
        scale.is(Format::F32, Layout::End),
    ensures
        out.is(Format::Bf16, gated_results()),
        out.blank_padding(),
        forall|g: Arith, l: int|
            #![trigger computes(*alu, g), at_l(l)]
            computes(*alu, g) && 0 <= l < FEED ==> out.at(at_l(l)) == rescaled(
                g,
                x.at(at_l(l)),
                scale.at(origin()),
            ),
{
    proof {
        lemma_geglu_wf();
    }
    let paired = x.shuffle(gated_results());
    let scales = scale.relayout(up_rows_paired(room(8, Layout::End)));
    let wide = paired.map(alu, Op::WidenBf16, Format::F32, gated_results());
    let product = wide.zip(alu, Op::Multiply, &scales, Format::F32, gated_results());
    let out = product.map(alu, Op::NarrowBf16, Format::Bf16, gated_results());
    proof {
        assert forall|g: Arith, l: int|
            #![trigger computes(*alu, g), at_l(l)]
            computes(*alu, g) && 0 <= l < FEED implies out.at(at_l(l)) == rescaled(
            g,
            x.at(at_l(l)),
            scale.at(origin()),
        ) by {
            let p = at_l(l);
            lemma_geglu_covers(l);
            assert(scales.at(p) == scales.at(at_l(l - l % 120)));
            assert(scales.at(p) == scale.at(origin()));
            assert(paired.at(p) == x.at(p));
            assert(wide.at(p) == one(g, Op::WidenBf16, x.at(p)));
            assert(product.at(p) == two(g, Op::Multiply, wide.at(p), scales.at(p)));
        }
    }
    out
}

/// Gates the one projection with the Gaussian error linear unit of the other.
pub fn geglu<F: Fn(Op, Vec<u32>, Vec<u32>) -> u32>(
    alu: &F,
    up: &Tensor,
    gate: &Tensor,
    up_global_scale: &Tensor,
    gate_global_scale: &Tensor,
) -> (out: Tensor)
    requires
        total(*alu),
        up.is(Format::Bf16, up_results()),
        gate.is(Format::Bf16, up_results()),
        up_global_scale.is(Format::F32, Layout::End),
        gate_global_scale.is(Format::F32, Layout::End),
    ensures
        out.is(Format::Bf16, gated_results()),
        out.blank_padding(),
        forall|g: Arith, l: int|
            #![trigger computes(*alu, g), at_l(l)]
            computes(*alu, g) && 0 <= l < FEED ==> out.at(at_l(l)) == gated(
                g,
                up.at(at_l(l)),
                gate.at(at_l(l)),
                up_global_scale.at(origin()),
                gate_global_scale.at(origin()),
            ),
{
    proof {
        lemma_geglu_wf();
    }
    let up_scaled = apply_global_scale(alu, up, up_global_scale);
    let gate_scaled = apply_global_scale(alu, gate, gate_global_scale);
    let wide = gate_scaled.map(alu, Op::WidenBf16, Format::F32, gated_results());
    let narrowed = wide.map_with(alu, Op::Multiply, F32_INVSQRT2, Format::F32, gated_results());
    let erf = narrowed.map(alu, Op::Erf, Format::F32, gated_results());
    let raised = erf.map_with(alu, Op::Sum, F32_ONE, Format::F32, gated_results());
    let gelu = raised.zip(alu, Op::Multiply, &wide, Format::F32, gated_results());
    let up_wide = up_scaled.map(alu, Op::WidenBf16, Format::F32, gated_results());
    let product = up_wide.zip(alu, Op::Multiply, &gelu, Format::F32, gated_results());
    let halved = product.map_with(alu, Op::Divide, F32_TWO, Format::F32, gated_results());
    let out = halved.map(alu, Op::NarrowBf16, Format::Bf16, gated_results());
    proof {
        assert forall|g: Arith, l: int|
            #![trigger computes(*alu, g), at_l(l)]
            computes(*alu, g) && 0 <= l < FEED implies out.at(at_l(l)) == gated(
            g,
            up.at(at_l(l)),
            gate.at(at_l(l)),
            up_global_scale.at(origin()),
            gate_global_scale.at(origin()),
        ) by {
            let p = at_l(l);
            lemma_geglu_covers(l);
            assert(wide.at(p) == one(g, Op::WidenBf16, gate_scaled.at(p)));
            assert(narrowed.at(p) == two(g, Op::Multiply, wide.at(p), F32_INVSQRT2));
            assert(erf.at(p) == one(g, Op::Erf, narrowed.at(p)));
            assert(raised.at(p) == two(g, Op::Sum, erf.at(p), F32_ONE));
            assert(gelu.at(p) == two(g, Op::Multiply, raised.at(p), wide.at(p)));
            assert(up_wide.at(p) == one(g, Op::WidenBf16, up_scaled.at(p)));
            assert(product.at(p) == two(g, Op::Multiply, up_wide.at(p), gelu.at(p)));
            assert(halved.at(p) == two(g, Op::Divide, product.at(p), F32_TWO));
        }
    }
    out
}

/// Both global scales are applied, and the results rounded, before anything else: the gated value
/// is that of the rescaled values with scales of one, where a unit leaves a rounded value as it is
/// when it multiplies it by one and rounds it again.
pub proof fn law_global_scales_come_first(
    g: Arith,
    up: u32,
    gate: u32,
    up_scale: u32,
    gate_scale: u32,
)
    requires
        forall|x: u32, s: u32| #[trigger]
            rescaled(g, rescaled(g, x, s), F32_ONE) == rescaled(g, x, s),
    ensures
        gated(g, up, gate, up_scale, gate_scale) == gated(
            g,
            rescaled(g, up, up_scale),
            rescaled(g, gate, gate_scale),
            F32_ONE,
            F32_ONE,
        ),
{
}

} // verus!
