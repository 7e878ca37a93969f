use gemma4_kernels::engine::Op;
use gemma4_kernels::layout::{Axis, Coords, Layout};
use gemma4_kernels::output::{
    add_partials, apply_output_channel_scale, merged_results, output_matrix, output_partial,
    project_output, project_output_k_sharded_distributed,
};
use gemma4_kernels::places::{
    digit, dual_replicated, hidden, k_rows, key, output_replicated, query, replicated, single,
    HIDDEN, KEY, QUERY,
};
use gemma4_kernels::projection::{
    key_matrix, prepare_qkv_dual_input, prepare_qkv_input, project_key_value,
    project_qkv_dual_key_value, project_qkv_dual_query, project_query, query_matrix,
};
use gemma4_kernels::tensor::{Format, Tensor};

fn widen_bf16(bits: u32) -> f32 {
    f32::from_bits(bits << 16)
}

fn narrow_bf16(value: f32) -> u32 {
    let bits = value.to_bits();
    bits.wrapping_add(0x7fff + ((bits >> 16) & 1)) >> 16
}

fn widen_f8(bits: u32) -> f32 {
    let sign = if bits & 0x80 != 0 { -1.0 } else { 1.0 };
    let exponent = ((bits >> 3) & 0xf) as i32;
    let mantissa = (bits & 7) as f32;
    let size = if exponent == 0 {
        mantissa / 8.0 * (2.0f32).powi(-6)
    } else {
        (1.0 + mantissa / 8.0) * (2.0f32).powi(exponent - 7)
    };
    sign * size
}

/// The nearest 8-bit float; of two equally near, the one with the even code.
fn narrow_f8(value: f32) -> u32 {
    let sign = if value < 0.0 { 0x80 } else { 0 };
    let size = value.abs();
    let mut best = 0;
    for code in 1..0x7f {
        let (old, new) = ((widen_f8(best) - size).abs(), (widen_f8(code) - size).abs());
        if new < old || (new == old && code % 2 == 0) {
            best = code;
        }
    }
    sign | best
}

fn f4_as_f8(bits: u32) -> u32 {
    let size = [0x00, 0x30, 0x38, 0x3c, 0x40, 0x44, 0x48, 0x4c][(bits & 7) as usize];
    if bits & 8 != 0 {
        size | 0x80
    } else {
        size
    }
}

fn erf(x: f32) -> f32 {
    let x = x as f64;
    if x.abs() > 4.0 {
        return x.signum() as f32;
    }
    let (mut sum, mut power) = (0.0, x);
    for n in 0..80 {
        sum += power / (2 * n + 1) as f64;
        power *= -x * x / (n + 1) as f64;
    }
    (sum * 2.0 / std::f64::consts::PI.sqrt()) as f32
}

fn answer(op: Op, a: Vec<u32>, b: Vec<u32>) -> u32 {
    let f = |v: &Vec<u32>| f32::from_bits(v[0]);
    let total = |v: &Vec<u32>| v.iter().fold(0.0f32, |sum, x| sum + f32::from_bits(*x));
    match op {
        Op::WidenBf16 => widen_bf16(a[0]).to_bits(),
        Op::WidenF8 => widen_f8(a[0]).to_bits(),
        Op::LookupF4AsF8 => f4_as_f8(a[0]),
        Op::LookupF8AsBf16 => narrow_bf16(widen_f8(a[0])),
        Op::NarrowBf16 => narrow_bf16(f(&a)),
        Op::NarrowF8 => narrow_f8(f(&a)),
        Op::Multiply => (f(&a) * f(&b)).to_bits(),
        Op::Sum => (f(&a) + f(&b)).to_bits(),
        Op::Subtract => (f(&a) - f(&b)).to_bits(),
        Op::Divide => (f(&a) / f(&b)).to_bits(),
        Op::ClipMax => f(&a).max(f(&b)).to_bits(),
        Op::ClipSum => (f(&a) + f(&b)).to_bits(),
        Op::Erf => erf(f(&a)).to_bits(),
        Op::LargestInSlice => a.iter().fold(0.0f32, |m, x| m.max(f32::from_bits(*x))).to_bits(),
        Op::TotalInSlice => total(&a).to_bits(),
        Op::TotalAcrossSlices => total(&a).to_bits(),
        Op::ContractBf16 => {
            let mut sum = 0.0f32;
            for k in 0..a.len() {
                sum += widen_bf16(a[k]) * widen_bf16(b[k]);
            }
            sum.to_bits()
        }
        Op::ContractF8 => {
            let mut sum = 0.0f32;
            for k in 0..a.len() {
                if a[k] != 0 && b[k] != 0 {
                    sum += widen_f8(a[k]) * widen_f8(b[k]);
                }
            }
            sum.to_bits()
        }
    }
}

fn set(t: &mut Tensor, c: &Coords, v: u32) {
    let i = t.layout.locate(c);
    t.data[i] = v;
}

fn at(axis: Axis, v: usize) -> Coords {
    Coords::on(axis, v)
}

/// Hidden features of one and minus one.
fn hidden_input() -> Tensor {
    let mut x = Tensor::zeros(Format::Bf16, single(hidden()));
    for h in 0..HIDDEN {
        set(&mut x, &at(Axis::H, h), narrow_bf16(if h % 3 == 0 { 1.0 } else { -1.0 }));
    }
    x
}

/// A weight of one for every fifth hidden feature of a channel, from `r % 5` on.
fn channel_weights(layout: Layout) -> Tensor {
    let mut weight = Tensor::zeros(Format::F8, layout);
    for i in 0..weight.data.len() {
        let (r, h) = (i / HIDDEN, i % HIDDEN);
        weight.data[i] = if h % 5 == r % 5 { 0x38 } else { 0 };
    }
    weight
}

fn channel_scales(layout: Layout) -> Tensor {
    let mut scale = Tensor::zeros(Format::Bf16, layout);
    for r in 0..scale.data.len() {
        scale.data[r] = narrow_bf16(if r % 2 == 0 { 0.5 } else { 2.0 });
    }
    scale
}

#[test]
fn every_slice_gets_the_hidden_features() {
    let mut x = Tensor::zeros(Format::Bf16, single(hidden()));
    for h in 0..HIDDEN {
        x.data[h] = h as u32;
    }
    let copies = prepare_qkv_input(&x);
    assert!(copies.fits(Format::Bf16, &replicated(hidden())));
    for i in 0..256 * HIDDEN {
        assert_eq!(copies.data[i], (i % HIDDEN) as u32);
    }
    for i in 256 * HIDDEN..512 * HIDDEN {
        assert_eq!(copies.data[i], 0);
    }
}

#[test]
fn every_slice_of_both_clusters_gets_the_hidden_features() {
    let mut x = Tensor::zeros(Format::Bf16, single(hidden()));
    for h in 0..HIDDEN {
        x.data[h] = h as u32;
    }
    let copies = prepare_qkv_dual_input(&x);
    assert!(copies.fits(Format::Bf16, &dual_replicated(hidden())));
    for i in 0..512 * HIDDEN {
        assert_eq!(copies.data[i], (i % HIDDEN) as u32);
    }
}

#[test]
fn query_projection_scales_row_sums() {
    let copies = prepare_qkv_input(&hidden_input());
    let weight = channel_weights(query_matrix());
    let scale = channel_scales(query());
    let out = project_query(&answer, &copies, &weight, &scale);
    assert!(out.fits(Format::Bf16, &single(query())));
    // Of 768 features, a third is one and the others are minus one.
    assert_eq!(widen_bf16(out.read(&at(Axis::Q, 0))), -128.0);
    assert_eq!(widen_bf16(out.read(&at(Axis::Q, 1))), -512.0);
    assert_eq!(widen_bf16(out.read(&at(Axis::Q, QUERY - 1))), -512.0);
}

#[test]
fn query_projection_reads_the_copy_of_its_slice() {
    let mut copies = Tensor::zeros(Format::Bf16, replicated(hidden()));
    let mut c = at(Axis::H, 10);
    c.ring = 200;
    set(&mut copies, &c, narrow_bf16(3.0));
    let mut weight = Tensor::zeros(Format::F8, query_matrix());
    for q in 0..QUERY {
        let mut c = at(Axis::H, 10);
        c.q = q;
        set(&mut weight, &c, 0x38);
    }
    let scale = channel_scales(query());
    let out = project_query(&answer, &copies, &weight, &scale);
    for q in 0..QUERY {
        let expected = if q / 16 != 200 { 0.0 } else if q % 2 == 0 { 1.5 } else { 6.0 };
        assert_eq!(widen_bf16(out.read(&at(Axis::Q, q))), expected);
    }
}

#[test]
fn both_clusters_give_the_same_query_features() {
    let x = hidden_input();
    let weight = channel_weights(query_matrix());
    let scale = channel_scales(query());
    let one = project_query(&answer, &prepare_qkv_input(&x), &weight, &scale);
    let two = project_qkv_dual_query(&answer, &prepare_qkv_dual_input(&x), &weight, &scale);
    assert!(two.fits(Format::Bf16, &single(query())));
    assert_eq!(one.data, two.data);
}

#[test]
fn both_clusters_give_the_same_keys_and_values() {
    let x = hidden_input();
    let k_weight = channel_weights(key_matrix());
    let mut v_weight = channel_weights(key_matrix());
    v_weight.data[0] = 0xb8;
    let k_scale = channel_scales(key());
    let v_scale = channel_scales(key());
    let copies = prepare_qkv_input(&x);
    let (k, v) = project_key_value(&answer, &copies, &k_weight, &v_weight, &k_scale, &v_scale);
    assert!(k.fits(Format::Bf16, &single(key())));
    assert_eq!(widen_bf16(k.read(&at(Axis::P, 0))), -128.0);
    assert_eq!(widen_bf16(v.read(&at(Axis::P, 0))), -129.0);
    assert_eq!(widen_bf16(k.read(&at(Axis::P, KEY - 1))), -512.0);
    let mut copies = prepare_qkv_dual_input(&x);
    // What the slices between those of the channels hold never counts.
    for s in 0..512 {
        if s % 2 == 1 {
            for h in 0..HIDDEN {
                copies.data[s * HIDDEN + h] = 0x7fff;
            }
        }
    }
    let dual =
        project_qkv_dual_key_value(&answer, &copies, &k_weight, &v_weight, &k_scale, &v_scale);
    assert_eq!(k.data, dual.0.data);
    assert_eq!(v.data, dual.1.data);
}

#[test]
fn partial_sums_are_added_and_rounded() {
    let mut left = Tensor::zeros(Format::Bf16, merged_results());
    let mut right = Tensor::zeros(Format::Bf16, merged_results());
    set(&mut left, &at(Axis::H, 3000), narrow_bf16(256.0));
    set(&mut right, &at(Axis::H, 3000), narrow_bf16(1.0));
    set(&mut left, &at(Axis::H, 7), narrow_bf16(-2.0));
    set(&mut right, &at(Axis::H, 7), narrow_bf16(0.5));
    let sum = add_partials(&answer, &left, &right);
    assert_eq!(widen_bf16(sum.read(&at(Axis::H, 3000))), 256.0);
    assert_eq!(widen_bf16(sum.read(&at(Axis::H, 7))), -1.5);
    assert_eq!(add_partials(&answer, &right, &left).data, sum.data);
    let zeros = Tensor::zeros(Format::Bf16, merged_results());
    assert_eq!(add_partials(&answer, &left, &zeros).data, left.data);
    let mut scale = Tensor::zeros(Format::Bf16, hidden());
    scale.data[7] = narrow_bf16(4.0);
    let out = apply_output_channel_scale(&answer, &sum, &scale);
    assert_eq!(widen_bf16(out.read(&at(Axis::H, 7))), -6.0);
    assert_eq!(widen_bf16(out.read(&at(Axis::H, 3000))), 0.0);
}

/// Weights of one from query feature `h % 4096` on, every tenth.
fn output_weights() -> Tensor {
    let mut weight = Tensor::zeros(Format::F8, output_matrix());
    for h in 0..HIDDEN {
        for j in 0..QUERY / 10 {
            weight.data[h * QUERY + (h + 10 * j) % QUERY] = 0x38;
        }
    }
    weight
}

#[test]
fn output_projection_adds_two_halves() {
    let mut x = Tensor::zeros(Format::Bf16, output_replicated(query()));
    for i in 0..x.data.len() {
        x.data[i] = narrow_bf16(if i % QUERY < 2048 { 1.0 } else { 2.0 });
    }
    let weight = output_weights();
    let mut scale = Tensor::zeros(Format::Bf16, hidden());
    for h in 0..HIDDEN {
        scale.data[h] = narrow_bf16(0.5);
    }
    let half = output_partial(&answer, &x, &weight, 2048);
    assert!(half.fits(Format::Bf16, &merged_results()));
    // Row 0 weighs 0, 10, .. 4080: 205 of the first half and 204 of the second.
    assert_eq!(widen_bf16(half.read(&at(Axis::H, 0))), 408.0);
    let out = project_output(&answer, &x, &weight, &scale);
    assert!(out.fits(Format::Bf16, &single(hidden())));
    // 205 + 408 is rounded to 612, as a bfloat16 has eight bits.
    assert_eq!(widen_bf16(out.read(&at(Axis::H, 0))), 306.0);
}

#[test]
fn output_projection_reads_the_copy_of_its_slice() {
    let mut x = Tensor::zeros(Format::Bf16, output_replicated(query()));
    let mut c = at(Axis::H, 1920);
    c.ring = 4 * 5;
    c.q = 3000;
    set(&mut x, &c, narrow_bf16(2.0));
    let mut weight = Tensor::zeros(Format::F8, output_matrix());
    for h in 0..HIDDEN {
        weight.data[h * QUERY + 3000] = 0x38;
    }
    let mut scale = Tensor::zeros(Format::Bf16, hidden());
    for h in 0..HIDDEN {
        scale.data[h] = narrow_bf16(0.5);
    }
    let out = project_output(&answer, &x, &weight, &scale);
    for h in 0..HIDDEN {
        let expected = if (1920 + 150..1920 + 180).contains(&h) { 1.0 } else { 0.0 };
        assert_eq!(widen_bf16(out.read(&at(Axis::H, h))), expected);
    }
}

#[test]
fn sharded_output_projection_adds_four_quarters() {
    let mut x = Tensor::zeros(Format::Bf16, k_rows(digit(Axis::Q, 1, 1024, Layout::End)));
    for i in 0..x.data.len() {
        // Each quarter holds one value of 256, so its scale is one, and else 3.0625.
        x.data[i] = narrow_bf16(if i % 1024 == 5 { 256.0 } else { 3.0625 });
    }
    let weight = output_weights();
    let mut scale = Tensor::zeros(Format::Bf16, hidden());
    for h in 0..HIDDEN {
        scale.data[h] = narrow_bf16(2.0);
    }
    let out = project_output_k_sharded_distributed(&answer, &x, &weight, &scale);
    assert!(out.fits(Format::Bf16, &merged_results()));
    // Row 0 weighs 0, 10, .. 4080; none of these is a value of 256: 409 * 3.0625 is 1252.5625,
    // which is rounded to 1256.
    assert_eq!(widen_bf16(out.read(&at(Axis::H, 0))), 2512.0);
    // Row 5 weighs 5, 15, .. 4085; only 5 is a value of 256: 256 + 408 * 3.0625 is 1505.5, which
    // is rounded to 1504.
    assert_eq!(widen_bf16(out.read(&at(Axis::H, 5))), 3008.0);
}

#[test]
fn sharded_output_projection_passes_powers_of_two() {
    let layout = || k_rows(digit(Axis::Q, 1, 1024, Layout::End));
    let mut x = Tensor::zeros(Format::Bf16, layout());
    let mut y = Tensor::zeros(Format::Bf16, layout());
    for i in 0..x.data.len() {
        // The third quarter is all zero.
        let k = if (i / 1024) % 4 == 2 { 0.0 } else { ((i % 1024) % 37) as f32 - 18.0 };
        x.data[i] = narrow_bf16(k / 8.0);
        y.data[i] = narrow_bf16(k * 4.0);
    }
    let weight = output_weights();
    let mut scale = Tensor::zeros(Format::Bf16, hidden());
    for h in 0..HIDDEN {
        scale.data[h] = narrow_bf16(0.75);
    }
    let one = project_output_k_sharded_distributed(&answer, &x, &weight, &scale);
    let two = project_output_k_sharded_distributed(&answer, &y, &weight, &scale);
    for h in 0..HIDDEN {
        let (a, b) = (one.read(&at(Axis::H, h)), two.read(&at(Axis::H, h)));
        assert_eq!(widen_bf16(b), 32.0 * widen_bf16(a));
    }
    // Row 17 against the exact product.
    let (mut product, mut spread) = (0.0f64, 0.0f64);
    for q in 0..QUERY {
        if weight.data[17 * QUERY + q] != 0 {
            let mut c = at(Axis::H, 17);
            c.q = q;
            product += widen_bf16(x.read(&c)) as f64;
            spread += if q / 1024 == 2 { 1.0e-15 } else { 18.0 / 8.0 / 256.0 };
        }
    }
    let value = widen_bf16(one.read(&at(Axis::H, 17))) as f64;
    assert!((value - 0.75 * product).abs() <= 0.75 * (0.35 * spread + 0.004 * product.abs()));
    assert!(product.abs() > 1.0);
}

#[test]
fn sharded_output_projection_of_zeros_is_zero() {
    let x = Tensor::zeros(Format::Bf16, k_rows(digit(Axis::Q, 1, 1024, Layout::End)));
    let weight = output_weights();
    let mut scale = Tensor::zeros(Format::Bf16, hidden());
    for h in 0..HIDDEN {
        scale.data[h] = narrow_bf16(-3.0);
    }
    let out = project_output_k_sharded_distributed(&answer, &x, &weight, &scale);
    for h in 0..HIDDEN {
        assert_eq!(widen_bf16(out.read(&at(Axis::H, h))), 0.0);
    }
}
