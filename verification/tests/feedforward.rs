use gemma4_kernels::activation::{geglu, F32_INVSQRT2, F32_ONE, F32_TWO};
use gemma4_kernels::blocks::Matrix;
use gemma4_kernels::engine::Op;
use gemma4_kernels::layout::{Axis, Coords, Layout};
use gemma4_kernels::mlp::{project_down, project_up_matrix};
use gemma4_kernels::operands::{
    feed_parts, feed_run, feed_scales, hidden_parts, hidden_run, hidden_scales, load_down_input,
    load_up_input, prepare_down_input, prepare_up_input,
};
use gemma4_kernels::places::{
    down_columns, gated_results, hidden, single, up_k_rows, up_results, FEED, HIDDEN,
};
use gemma4_kernels::quantize::{F32_16, F32_256, F32_SIXTEENTH, F32_TINY, MAGNITUDE_BITS};
use gemma4_kernels::tensor::{Format, Tensor};

fn widen_bf16(bits: u32) -> f32 {
    f32::from_bits(bits << 16)
}

fn narrow_bf16(value: f32) -> u32 {
    let bits = value.to_bits();
    bits.wrapping_add(0x7fff + ((bits >> 16) & 1)) >> 16
}

fn widen_f8(bits: u32) -> f32 {
    let sign = if bits & 0x80 != 0 { -1.0 } else { 1.0 };
    let exponent = ((bits >> 3) & 0xf) as i32;
    let mantissa = (bits & 7) as f32;
    let size = if exponent == 0 {
        mantissa / 8.0 * (2.0f32).powi(-6)
    } else {
        (1.0 + mantissa / 8.0) * (2.0f32).powi(exponent - 7)
    };
    sign * size
}

/// The nearest 8-bit float; of two equally near, the one with the even code.
fn narrow_f8(value: f32) -> u32 {
    let sign = if value < 0.0 { 0x80 } else { 0 };
    let size = value.abs();
    let mut best = 0;
    for code in 1..0x7f {
        let (old, new) = ((widen_f8(best) - size).abs(), (widen_f8(code) - size).abs());
        if new < old || (new == old && code % 2 == 0) {
            best = code;
        }
    }
    sign | best
}

fn f4_as_f8(bits: u32) -> u32 {
    let size = [0x00, 0x30, 0x38, 0x3c, 0x40, 0x44, 0x48, 0x4c][(bits & 7) as usize];
    if bits & 8 != 0 {
        size | 0x80
    } else {
        size
    }
}

fn erf(x: f32) -> f32 {
    let x = x as f64;
    if x.abs() > 4.0 {
        return x.signum() as f32;
    }
    let (mut sum, mut power) = (0.0, x);
    for n in 0..80 {
        sum += power / (2 * n + 1) as f64;
        power *= -x * x / (n + 1) as f64;
    }
    (sum * 2.0 / std::f64::consts::PI.sqrt()) as f32
}

fn answer(op: Op, a: Vec<u32>, b: Vec<u32>) -> u32 {
    let f = |v: &Vec<u32>| f32::from_bits(v[0]);
    let total = |v: &Vec<u32>| v.iter().fold(0.0f32, |sum, x| sum + f32::from_bits(*x));
    match op {
        Op::WidenBf16 => widen_bf16(a[0]).to_bits(),
        Op::WidenF8 => widen_f8(a[0]).to_bits(),
        Op::LookupF4AsF8 => f4_as_f8(a[0]),
        Op::LookupF8AsBf16 => narrow_bf16(widen_f8(a[0])),
        Op::NarrowBf16 => narrow_bf16(f(&a)),
        Op::NarrowF8 => narrow_f8(f(&a)),
        Op::Multiply => (f(&a) * f(&b)).to_bits(),
        Op::Sum => (f(&a) + f(&b)).to_bits(),
        Op::Subtract => (f(&a) - f(&b)).to_bits(),
        Op::Divide => (f(&a) / f(&b)).to_bits(),
        Op::ClipMax => f(&a).max(f(&b)).to_bits(),
        Op::ClipSum => (f(&a) + f(&b)).to_bits(),
        Op::Erf => erf(f(&a)).to_bits(),
        Op::LargestInSlice => a.iter().fold(0.0f32, |m, x| m.max(f32::from_bits(*x))).to_bits(),
        Op::TotalInSlice => total(&a).to_bits(),
        Op::TotalAcrossSlices => total(&a).to_bits(),
        Op::ContractBf16 => {
            let mut sum = 0.0f32;
            for k in 0..a.len() {
                sum += widen_bf16(a[k]) * widen_bf16(b[k]);
            }
            sum.to_bits()
        }
        Op::ContractF8 => {
            let mut sum = 0.0f32;
            for k in 0..a.len() {
                if a[k] != 0 && b[k] != 0 {
                    sum += widen_f8(a[k]) * widen_f8(b[k]);
                }
            }
            sum.to_bits()
        }
    }
}

fn set(t: &mut Tensor, c: &Coords, v: u32) {
    let i = t.layout.locate(c);
    t.data[i] = v;
}

fn at_h(h: usize) -> Coords {
    Coords::on(Axis::H, h)
}

fn at_l(l: usize) -> Coords {
    Coords::on(Axis::L, l)
}

fn with_part(mut c: Coords, part: usize) -> Coords {
    c.part = part;
    c
}

fn scalar(value: f32) -> Tensor {
    Tensor { format: Format::F32, layout: Layout::End, data: vec![value.to_bits()] }
}

#[test]
fn constants_are_the_floats_they_name() {
    assert_eq!(F32_256, 256.0f32.to_bits());
    assert_eq!(F32_TINY, 1.0e-15f32.to_bits());
    assert_eq!(F32_SIXTEENTH, 0.0625f32.to_bits());
    assert_eq!(F32_16, 16.0f32.to_bits());
    assert_eq!(F32_INVSQRT2, 0.70710678118f32.to_bits());
    assert_eq!(F32_ONE, 1.0f32.to_bits());
    assert_eq!(F32_TWO, 2.0f32.to_bits());
    for v in [1.5f32, -1.5, 0.0, -0.0, 1.0e30, -1.0e-30] {
        assert_eq!(f32::from_bits(v.to_bits() & MAGNITUDE_BITS), v.abs());
    }
}

#[test]
fn hidden_features_split_by_groups_of_960() {
    let mut x = Tensor::zeros(Format::Bf16, single(hidden()));
    // The largest magnitude of the second group is 256, so its scale is one.
    set(&mut x, &at_h(960), narrow_bf16(-256.0));
    set(&mut x, &at_h(961), narrow_bf16(3.0625));
    set(&mut x, &at_h(1919), narrow_bf16(-3.0625));
    // That of the third is 512, so its scale is two.
    set(&mut x, &at_h(1920), narrow_bf16(512.0));
    set(&mut x, &at_h(1921), narrow_bf16(3.0625));
    let (parts, scales) = prepare_up_input(&answer, &x);
    assert!(parts.fits(Format::F8, &hidden_parts()));
    assert!(scales.fits(Format::F32, &hidden_scales()));
    let part = |h: usize, part: usize| widen_f8(parts.read(&with_part(at_h(h), part)));
    let scale = |h: usize, part: usize| f32::from_bits(scales.read(&with_part(at_h(h), part)));
    assert_eq!(scale(0, 0), 1.0e-15);
    assert_eq!(scale(0, 1), 1.0e-15 * 0.0625);
    assert_eq!((scale(960, 0), scale(960, 1)), (1.0, 0.0625));
    assert_eq!((scale(1920, 0), scale(1920, 1)), (2.0, 0.125));
    assert_eq!((part(960, 0), part(960, 1)), (-256.0, 0.0));
    assert_eq!((part(961, 0), part(961, 1)), (3.0, 1.0));
    assert_eq!((part(1919, 0), part(1919, 1)), (-3.0, -1.0));
    assert_eq!((part(1920, 0), part(1920, 1)), (256.0, 0.0));
    // 1.53125 is 1.5 and a sixteenth of a half.
    assert_eq!((part(1921, 0), part(1921, 1)), (1.5, 0.5));
    assert_eq!((part(0, 0), part(0, 1)), (0.0, 0.0));
}

#[test]
fn feed_forward_features_split_by_groups_of_960() {
    let mut x = Tensor::zeros(Format::Bf16, gated_results());
    set(&mut x, &at_l(FEED - 960), narrow_bf16(256.0));
    set(&mut x, &at_l(FEED - 1), narrow_bf16(3.0625));
    set(&mut x, &at_l(7680), narrow_bf16(-512.0));
    let (parts, scales) = prepare_down_input(&answer, &x);
    assert!(parts.fits(Format::F8, &feed_parts()));
    assert!(scales.fits(Format::F32, &feed_scales()));
    let part = |l: usize, part: usize| widen_f8(parts.read(&with_part(at_l(l), part)));
    let scale = |l: usize, part: usize| f32::from_bits(scales.read(&with_part(at_l(l), part)));
    assert_eq!((scale(FEED - 960, 0), scale(FEED - 960, 1)), (1.0, 0.0625));
    assert_eq!((part(FEED - 1, 0), part(FEED - 1, 1)), (3.0, 1.0));
    assert_eq!((scale(7680, 0), part(7680, 0)), (2.0, -256.0));
    assert_eq!(scale(960, 0), 1.0e-15);
}

#[test]
fn groups_do_not_influence_each_other() {
    let mut x = Tensor::zeros(Format::Bf16, single(hidden()));
    for h in 0..HIDDEN {
        set(&mut x, &at_h(h), narrow_bf16((h % 13) as f32 - 6.0));
    }
    let (before, scales_before) = prepare_up_input(&answer, &x);
    set(&mut x, &at_h(1000), narrow_bf16(9.0e9));
    let (after, scales_after) = prepare_up_input(&answer, &x);
    for part in 0..2 {
        for h in (0..960).chain(1920..3840) {
            let c = with_part(at_h(h), part);
            assert_eq!(before.read(&c), after.read(&c));
        }
        for h in [0, 1920, 2880] {
            let c = with_part(at_h(h), part);
            assert_eq!(scales_before.read(&c), scales_after.read(&c));
        }
        let c = with_part(at_h(960), part);
        assert_ne!(scales_before.read(&c), scales_after.read(&c));
    }
}

#[test]
fn every_row_meets_all_hidden_parts() {
    let mut parts = Tensor::zeros(Format::F8, hidden_parts());
    for i in 0..parts.data.len() {
        parts.data[i] = i as u32;
    }
    let out = load_up_input(&parts);
    assert!(out.fits(Format::F8, &up_k_rows(hidden_run(HIDDEN))));
    for l in [0, 29, 30, 7679, 7680, 12345, FEED - 1] {
        for (h, part) in [(0, 0), (479, 1), (480, 0), (2000, 1), (3839, 1)] {
            let mut c = with_part(at_h(h), part);
            let expected = parts.read(&c);
            c.l = l;
            assert_eq!(out.read(&c), expected);
        }
    }
}

#[test]
fn every_row_meets_its_half_of_the_feed_forward_parts() {
    let mut parts = Tensor::zeros(Format::F8, feed_parts());
    for i in 0..parts.data.len() {
        parts.data[i] = i as u32;
    }
    let out = load_down_input(&parts);
    assert!(out.fits(Format::F8, &down_columns(feed_run(7680))));
    for h in [0, 14, 15, 1919, 1920, 3000, HIDDEN - 1] {
        for (l, part) in [(0, 0), (479, 1), (7679, 0), (7680, 1), (15359, 1)] {
            let mut c = with_part(at_l(l), part);
            let expected = parts.read(&c);
            c.h = h;
            assert_eq!(out.read(&c), expected);
        }
    }
}

#[test]
fn geglu_multiplies_with_the_unit_of_the_other() {
    let mut up = Tensor::zeros(Format::Bf16, up_results());
    let mut gate = Tensor::zeros(Format::Bf16, up_results());
    let cases =
        [(0, 2.0, 8.0), (61, 2.0, -8.0), (7700, -3.0, 16.0), (15359, 5.0, 0.0), (9, 1.0, 1.0)];
    for (l, u, v) in cases {
        set(&mut up, &at_l(l), narrow_bf16(u));
        set(&mut gate, &at_l(l), narrow_bf16(v));
    }
    let out = geglu(&answer, &up, &gate, &scalar(0.5), &scalar(2.0));
    assert!(out.fits(Format::Bf16, &gated_results()));
    let value = |l: usize| widen_bf16(out.read(&at_l(l)));
    assert_eq!(value(0), 16.0);
    assert_eq!(value(61), 0.0);
    assert_eq!(value(7700), -48.0);
    assert_eq!(value(15359), 0.0);
    // Half of 2 * (erf(2 / sqrt 2) + 1) / 2 is 0.97725.
    assert_eq!(value(9), widen_bf16(narrow_bf16(0.97725)));
    assert_eq!(value(10), 0.0);
}

#[test]
fn up_projection_sums_scaled_blocks() {
    // One value of 3.0625 in the second group, whose scale is one, and one of 256.
    let mut x = Tensor::zeros(Format::Bf16, single(hidden()));
    set(&mut x, &at_h(960), narrow_bf16(256.0));
    set(&mut x, &at_h(1000), narrow_bf16(3.0625));
    let (parts, scales) = prepare_up_input(&answer, &x);
    let x_rows = load_up_input(&parts);
    let x_scales = scales.relayout(Matrix::Up.part_scales());
    let mut weight = Tensor::zeros(Format::F4, Matrix::Up.weights());
    let mut scale = Tensor::zeros(Format::F8, Matrix::Up.scales());
    let at = |l: usize, h: usize| {
        let mut c = at_h(h);
        c.l = l;
        c
    };
    // Row 7 weighs 1000 by four, in a block with scale 2.
    set(&mut weight, &at(7, 1000), 6);
    set(&mut scale, &at(7, 992), narrow_f8(2.0));
    // Row 15359 weighs 960 by minus a half, in a block with scale 0.25, and 1000 by one, in a block
    // with scale 1.
    set(&mut weight, &at(15359, 960), 9);
    set(&mut scale, &at(15359, 960), narrow_f8(0.25));
    set(&mut weight, &at(15359, 1000), 2);
    set(&mut scale, &at(15359, 992), narrow_f8(1.0));
    // Row 8000 weighs it in a block without scale.
    set(&mut weight, &at(8000, 1000), 6);
    let out = project_up_matrix(&answer, &x_rows, &x_scales, &weight, &scale);
    assert!(out.fits(Format::Bf16, &up_results()));
    let value = |l: usize| widen_bf16(out.read(&at_l(l)));
    assert_eq!(value(7), 24.5);
    // -28.9375, rounded.
    assert_eq!(value(15359), -29.0);
    assert_eq!(value(8000), 0.0);
    assert_eq!(value(0), 0.0);
}

#[test]
fn down_projection_sums_both_halves() {
    let mut y = Tensor::zeros(Format::Bf16, gated_results());
    set(&mut y, &at_l(100), narrow_bf16(256.0));
    set(&mut y, &at_l(101), narrow_bf16(3.0625));
    set(&mut y, &at_l(15000), narrow_bf16(512.0));
    let (parts, scales) = prepare_down_input(&answer, &y);
    let mut weight = Tensor::zeros(Format::F4, Matrix::Down.weights());
    let mut scale = Tensor::zeros(Format::F8, Matrix::Down.scales());
    let at = |h: usize, l: usize| {
        let mut c = at_h(h);
        c.l = l;
        c
    };
    // Row 45 has the weights of row 44 with their signs flipped.
    for (l, code) in [(101, 10), (15000, 9)] {
        set(&mut weight, &at(45, l), code);
    }
    set(&mut scale, &at(45, 96), narrow_f8(1.0));
    set(&mut scale, &at(45, 14992), narrow_f8(0.125));
    // Row 44 weighs 101 by one and 15000 by a half; the scales of the blocks are 1 and 0.125.
    set(&mut weight, &at(44, 101), 2);
    set(&mut scale, &at(44, 96), narrow_f8(1.0));
    set(&mut weight, &at(44, 15000), 1);
    set(&mut scale, &at(44, 14992), narrow_f8(0.125));
    // Row 3839 weighs 100 by minus six.
    set(&mut weight, &at(3839, 100), 15);
    set(&mut scale, &at(3839, 96), narrow_f8(1.0));
    let out = project_down(&answer, &parts, &scales, &weight, &scale);
    assert!(out.fits(Format::Bf16, &single(hidden())));
    let value = |h: usize| widen_bf16(out.read(&at_h(h)));
    assert_eq!(value(44), 35.0);
    assert_eq!(value(3839), -1536.0);
    assert_eq!(value(45), -35.0);
    assert_eq!(value(46), 0.0);
}

/// A reproducible number between -1 and 1.
fn noise(seed: usize) -> f32 {
    let mut x = (seed as u64).wrapping_add(0x9e37_79b9_7f4a_7c15);
    x = (x ^ (x >> 30)).wrapping_mul(0xbf58_476d_1ce4_e5b9);
    x = (x ^ (x >> 27)).wrapping_mul(0x94d0_49bb_1331_11eb);
    x ^= x >> 31;
    (x >> 40) as f32 / 8_388_608.0 - 1.0
}

fn noisy_hidden() -> Tensor {
    let mut x = Tensor::zeros(Format::Bf16, single(hidden()));
    for h in 0..HIDDEN {
        set(&mut x, &at_h(h), narrow_bf16(3.0 * noise(h)));
    }
    x
}

#[test]
fn signs_pass_to_the_parts_alone() {
    let x = noisy_hidden();
    let mut y = noisy_hidden();
    for h in 0..HIDDEN {
        if h % 3 == 1 {
            let v = y.read(&at_h(h));
            set(&mut y, &at_h(h), v ^ 0x8000);
        }
    }
    let (parts, scales) = prepare_up_input(&answer, &x);
    let (flipped, same) = prepare_up_input(&answer, &y);
    assert_eq!(scales.data, same.data);
    for h in 0..HIDDEN {
        for part in 0..2 {
            let c = with_part(at_h(h), part);
            let (a, b) = (widen_f8(parts.read(&c)), widen_f8(flipped.read(&c)));
            assert_eq!(b, if h % 3 == 1 { -a } else { a });
        }
    }
}

#[test]
fn powers_of_two_pass_to_the_scales_alone() {
    let x = noisy_hidden();
    let mut y = noisy_hidden();
    for h in 0..HIDDEN {
        let v = widen_bf16(y.read(&at_h(h)));
        set(&mut y, &at_h(h), narrow_bf16(8.0 * v));
    }
    let (parts, scales) = prepare_up_input(&answer, &x);
    let (same, scaled) = prepare_up_input(&answer, &y);
    assert_eq!(parts.data, same.data);
    for i in 0..scales.data.len() {
        assert_eq!(f32::from_bits(scaled.data[i]), 8.0 * f32::from_bits(scales.data[i]));
    }
}

#[test]
fn global_scales_come_before_the_unit() {
    let mut up = Tensor::zeros(Format::Bf16, up_results());
    let mut gate = Tensor::zeros(Format::Bf16, up_results());
    let mut up2 = Tensor::zeros(Format::Bf16, up_results());
    let mut gate2 = Tensor::zeros(Format::Bf16, up_results());
    for l in 0..FEED {
        let (u, v) = (narrow_bf16(5.0 * noise(l)), narrow_bf16(4.0 * noise(l + 99_999)));
        set(&mut up, &at_l(l), u);
        set(&mut gate, &at_l(l), v);
        set(&mut up2, &at_l(l), narrow_bf16(widen_bf16(u) * 0.3));
        set(&mut gate2, &at_l(l), narrow_bf16(widen_bf16(v) * 0.7));
    }
    let once = geglu(&answer, &up, &gate, &scalar(0.3), &scalar(0.7));
    let twice = geglu(&answer, &up2, &gate2, &scalar(1.0), &scalar(1.0));
    assert_eq!(once.data, twice.data);
}

#[test]
fn up_projection_is_near_the_exact_product() {
    let x = noisy_hidden();
    let (parts, scales) = prepare_up_input(&answer, &x);
    let x_rows = load_up_input(&parts);
    let x_scales = scales.relayout(Matrix::Up.part_scales());
    let mut weight = Tensor::zeros(Format::F4, Matrix::Up.weights());
    let mut scale = Tensor::zeros(Format::F8, Matrix::Up.scales());
    let at = |l: usize, h: usize| {
        let mut c = at_h(h);
        c.l = l;
        c
    };
    // Row 100 has weights of up to two. Row 101 has those of block 7 doubled and its scale halved.
    // Row 102 has all signs flipped.
    for h in 0..HIDDEN {
        let sign = if noise(h + 5) < 0.0 { 8 } else { 0 };
        let code = ((noise(h + 7_777) + 1.0) * 2.0) as u32 & 3 | sign;
        let doubled = [0, 2, 4, 5][(code & 3) as usize] | code & 8;
        set(&mut weight, &at(100, h), code);
        set(&mut weight, &at(101, h), if h / 16 == 7 { doubled } else { code });
        set(&mut weight, &at(102, h), code ^ 8);
    }
    for b in 0..240 {
        let s = narrow_f8(0.25 + (b % 5) as f32 * 0.25);
        let halved = narrow_f8(widen_f8(s) / 2.0);
        set(&mut scale, &at(100, 16 * b), s);
        set(&mut scale, &at(101, 16 * b), if b == 7 { halved } else { s });
        set(&mut scale, &at(102, 16 * b), s);
    }
    let out = project_up_matrix(&answer, &x_rows, &x_scales, &weight, &scale);
    let value = |l: usize| widen_bf16(out.read(&at_l(l)));
    let (mut product, mut spread) = (0.0f64, 0.0f64);
    for h in 0..HIDDEN {
        let w = widen_f8(f4_as_f8(weight.read(&at(100, h)))) as f64
            * widen_f8(scale.read(&at(100, h / 16 * 16))) as f64;
        product += w * widen_bf16(x.read(&at_h(h))) as f64;
        spread += w.abs() * f32::from_bits(scales.read(&at_h(h / 960 * 960))) as f64;
    }
    let error = (value(100) as f64 - product).abs();
    assert!(error <= 0.35 * spread + 0.004 * product.abs());
    assert!(product.abs() > 1.0);
    assert_eq!(value(101), value(100));
    assert_eq!(value(102), -value(100));
}

#[test]
fn values_are_near_their_parts() {
    let mut x = noisy_hidden();
    // The largest magnitude of the second group, and values next to it.
    for k in 0..100 {
        set(&mut x, &at_h(960 + k), narrow_bf16(-4.0 + k as f32 / 64.0));
    }
    let (parts, scales) = prepare_up_input(&answer, &x);
    for h in 0..HIDDEN {
        let v = widen_bf16(x.read(&at_h(h))) as f64;
        let first = at_h(h / 960 * 960);
        let scale = |part| f32::from_bits(scales.read(&with_part(first, part))) as f64;
        let part = |part| widen_f8(parts.read(&with_part(at_h(h), part))) as f64;
        let near = scale(0) * part(0) + scale(1) * part(1);
        assert!((v - near).abs() <= 0.251 * scale(0));
        assert!(part(0).abs() <= 256.0);
        assert!(part(1).abs() <= 128.0);
    }
}

#[test]
fn zeros_stay_zeros() {
    let x = Tensor::zeros(Format::Bf16, single(hidden()));
    let (parts, scales) = prepare_up_input(&answer, &x);
    assert!(parts.data.iter().all(|v| *v == 0));
    for group in 0..4 {
        let scale = |part| f32::from_bits(scales.read(&with_part(at_h(960 * group), part)));
        assert_eq!((scale(0), scale(1)), (1.0e-15, 1.0e-15 * 0.0625));
    }
    let up = Tensor::zeros(Format::Bf16, up_results());
    let gated = geglu(&answer, &up, &up, &scalar(0.5), &scalar(2.0));
    for l in 0..FEED {
        assert_eq!(widen_bf16(gated.read(&at_l(l))), 0.0);
    }
    let (parts, scales) = prepare_down_input(&answer, &gated);
    let mut weight = Tensor::zeros(Format::F4, Matrix::Down.weights());
    let mut scale = Tensor::zeros(Format::F8, Matrix::Down.scales());
    for i in 0..15 {
        weight.data[7680 * i + 100] = 15;
        scale.data[480 * i + 6] = narrow_f8(1.0);
    }
    let out = project_down(&answer, &parts, &scales, &weight, &scale);
    for h in 0..HIDDEN {
        assert_eq!(widen_bf16(out.read(&at_h(h))), 0.0);
    }
}
