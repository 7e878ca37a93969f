use gemma4_kernels::diagnostics::{warmup_copy, words};
use gemma4_kernels::engine::Op;
use gemma4_kernels::layout::{Axis, Coords, Layout};
use gemma4_kernels::places::{digit, hidden, room, single};
use gemma4_kernels::quantize::part_window;
use gemma4_kernels::tensor::{Format, Tensor, Window};

/// Answers that show what was asked for: one digit per operand.
fn echo(op: Op, a: Vec<u32>, b: Vec<u32>) -> u32 {
    let mut answer = match op {
        Op::Multiply => 7,
        Op::TotalInSlice => 8,
        Op::ContractF8 => 9,
        _ => 1,
    };
    for v in a.iter().chain(b.iter()) {
        answer = answer * 10 + v;
    }
    answer
}

fn pair_of_threes() -> Tensor {
    let layout = digit(Axis::H, 1, 2, digit(Axis::L, 1, 3, Layout::End));
    Tensor { format: Format::F8, layout, data: vec![1, 2, 3, 4, 5, 6] }
}

#[test]
fn warmup_copy_hands_every_word_back() {
    let input = Tensor { format: Format::Bf16, layout: words(), data: vec![0x3f80; 16] };
    let mut output = Tensor::zeros(Format::Bf16, words());
    warmup_copy(&input, &mut output);
    assert_eq!(output.data, vec![0x3f80; 16]);
    assert!(output.fits(Format::Bf16, &words()));
}

#[test]
fn warmup_copy_overwrites_what_was_there() {
    let input = Tensor { format: Format::Bf16, layout: words(), data: (100..116).collect() };
    let mut output = Tensor { format: Format::Bf16, layout: words(), data: vec![9; 16] };
    warmup_copy(&input, &mut output);
    assert_eq!(output.data, (100..116).collect::<Vec<u32>>());
}

#[test]
fn fits_tells_format_layout_and_size() {
    let t = pair_of_threes();
    let layout = digit(Axis::H, 1, 2, digit(Axis::L, 1, 3, Layout::End));
    assert!(t.fits(Format::F8, &layout));
    assert!(!t.fits(Format::F4, &layout));
    assert!(!t.fits(Format::F8, &hidden()));
    let short = Tensor { format: Format::F8, layout: words(), data: vec![0; 15] };
    assert!(!short.fits(Format::F8, &words()));
    let broken = digit(Axis::H, 1, 0, Layout::End);
    let empty = Tensor { format: Format::F8, layout: broken.duplicate(), data: vec![] };
    assert!(!empty.fits(Format::F8, &broken));
}

#[test]
fn relayout_transposes_copies_and_pads() {
    let t = pair_of_threes();
    let turned = t.relayout(digit(Axis::L, 1, 3, digit(Axis::H, 1, 2, Layout::End)));
    assert_eq!(turned.data, vec![1, 4, 2, 5, 3, 6]);
    let copied = t.relayout(digit(Axis::Ring, 1, 2, digit(Axis::L, 1, 3, Layout::End)));
    assert_eq!(copied.data, vec![1, 2, 3, 1, 2, 3]);
    let padded = t.relayout(digit(Axis::H, 1, 2, room(2, digit(Axis::L, 1, 3, Layout::End))));
    assert_eq!(padded.data, vec![1, 2, 3, 0, 0, 0, 4, 5, 6, 0, 0, 0]);
    let alias = t.alias(digit(Axis::Q, 1, 6, Layout::End));
    assert_eq!(alias.data, vec![1, 2, 3, 4, 5, 6]);
    assert_eq!(alias.read(&Coords::on(Axis::Q, 4)), 5);
}

#[test]
fn tiles_are_cut_and_written_back() {
    let t = pair_of_threes();
    let mut shift = Coords::on(Axis::H, 1);
    shift.l = 1;
    let tile = t.tile(&shift, digit(Axis::L, 1, 2, Layout::End));
    assert_eq!(tile.data, vec![5, 6]);
    let halves = digit(Axis::Part, 1, 2, digit(Axis::L, 1, 2, Layout::End));
    let mut target = Tensor::zeros(Format::F8, halves);
    target.commit(&tile, part_window(1));
    assert_eq!(target.data, vec![0, 0, 5, 6]);
    target.commit(&t, Window { axis: Axis::L, span: 2, start: 1, len: 1 });
    assert_eq!(target.data, vec![0, 1, 5, 1]);
}

#[test]
fn requests_follow_the_points() {
    let t = pair_of_threes();
    let layout = || digit(Axis::H, 1, 2, digit(Axis::L, 1, 3, Layout::End));
    assert_eq!(t.map(&echo, Op::WidenF8, Format::F32, layout()).data, vec![11, 12, 13, 14, 15, 16]);
    let with = t.map_with(&echo, Op::Multiply, 9, Format::F32, layout());
    assert_eq!(with.data, vec![719, 729, 739, 749, 759, 769]);
    let rows = digit(Axis::H, 1, 2, Layout::End);
    let columns = digit(Axis::L, 1, 3, Layout::End);
    let scales = Tensor { format: Format::F32, layout: rows.duplicate(), data: vec![8, 9] };
    let zipped = t.zip(&echo, Op::Multiply, &scales, Format::F32, layout());
    assert_eq!(zipped.data, vec![718, 728, 738, 749, 759, 769]);
    let by_row = t.reduce(&echo, Op::TotalInSlice, &columns, Format::F32, rows.duplicate());
    assert_eq!(by_row.data, vec![8123, 8456]);
    let by_column = t.reduce(&echo, Op::TotalInSlice, &rows, Format::F32, columns.duplicate());
    assert_eq!(by_column.data, vec![814, 825, 836]);
    let contracted = t.contract(&echo, Op::ContractF8, &t, &columns, Format::F32, rows);
    assert_eq!(contracted.data, vec![9123123, 9456456]);
    assert_eq!(t.mask(5, layout()).data, vec![1, 0, 1, 4, 5, 4]);
}

#[test]
fn padding_gets_no_request() {
    let t = Tensor { format: Format::Bf16, layout: single(Layout::End), data: vec![3; 512] };
    let asked = std::cell::Cell::new(0);
    let count = |_op: Op, a: Vec<u32>, _b: Vec<u32>| -> u32 {
        asked.set(asked.get() + 1);
        a[0] + 1
    };
    let out = t.map(&count, Op::WidenBf16, Format::F32, single(Layout::End));
    assert_eq!(asked.get(), 1);
    assert_eq!(out.data[0], 4);
    assert!(out.data[1..].iter().all(|v| *v == 0));
}
