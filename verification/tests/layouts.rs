use gemma4_kernels::diagnostics::words;
use gemma4_kernels::layout::{Axis, Coords, Layout, Term};
use gemma4_kernels::operands::{feed_parts, feed_run, hidden_parts, hidden_run};
use gemma4_kernels::places::{
    digit, down_columns, down_partials, down_rings, down_shards, dual_query_single,
    dual_replicated, dual_rings, dual_shards, hidden, hidden_rings, hidden_shards, k_rows, query,
    replicated, room, single, up_k_rows, up_rings, up_shards, FEED, HIDDEN, QUERY,
};
use gemma4_kernels::output::{merged_results, thirty_results};

fn slice_of(layout: &Layout, cell: usize) -> usize {
    cell / (layout.cells() / 512) % 256
}

/// For every cell of `to`, the slice that its value comes from lies in the same ring.
fn stays_in_ring(from: &Layout, to: &Layout, ring: usize) -> bool {
    let cells = to.cells();
    let mut i = 0;
    while i < cells {
        if let Some(c) = to.decode(i) {
            if slice_of(from, from.locate(&c)) / ring != slice_of(to, i) / ring {
                return false;
            }
        }
        i += 7;
    }
    true
}

#[test]
fn digits_are_placed_outermost_first() {
    let m = digit(Axis::H, 3, 4, room(2, digit(Axis::H, 1, 3, Layout::End)));
    assert_eq!(m.cells(), 24);
    assert_eq!(m.sizes(), Some((24, 17)));
    assert_eq!(m.locate(&Coords::on(Axis::H, 0)), 0);
    assert_eq!(m.locate(&Coords::on(Axis::H, 7)), 13);
    assert_eq!(m.locate(&Coords::on(Axis::H, 19)), 13);
    assert_eq!(m.decode(13), Some(Coords::on(Axis::H, 7)));
    assert_eq!(m.decode(15), None);
}

#[test]
fn malformed_layouts_have_no_size() {
    assert_eq!(Layout::End.sizes(), Some((1, 0)));
    assert_eq!(digit(Axis::H, 0, 4, Layout::End).sizes(), None);
    assert_eq!(digit(Axis::H, 1, 0, Layout::End).sizes(), None);
    let narrow = Term { axis: Axis::H, div: 1, len: 5, padded: 4 };
    assert_eq!(Layout::Then(narrow, Box::new(Layout::End)).sizes(), None);
    assert_eq!(digit(Axis::H, usize::MAX, 2, Layout::End).sizes(), None);
    assert_eq!(room(0x10_0000, room(0x10_0000, Layout::End)).sizes(), None);
    assert_eq!(room(0x10_0000, Layout::End).sizes(), Some((0x10_0000, 0x10_0000)));
    assert_eq!(room(0x10_0001, Layout::End).sizes(), None);
}

#[test]
fn layouts_are_compared_factor_by_factor() {
    assert!(single(hidden()).same(&single(hidden())));
    assert!(single(hidden()).duplicate().same(&single(hidden())));
    assert!(!single(hidden()).same(&hidden()));
    assert!(!replicated(hidden()).same(&single(hidden())));
}

#[test]
fn runs_are_told_from_jumps() {
    let m = digit(Axis::H, 8, 4, digit(Axis::L, 1, 2, digit(Axis::H, 1, 8, Layout::End)));
    assert!(m.runs(&Coords::on(Axis::H, 8), Axis::H, 1, 8));
    assert!(m.runs(&Coords::on(Axis::H, 10), Axis::H, 1, 6));
    assert!(!m.runs(&Coords::on(Axis::H, 10), Axis::H, 1, 7));
    assert!(!m.runs(&Coords::on(Axis::H, 8), Axis::H, 2, 2));
    assert!(!m.runs(&Coords::zero(), Axis::L, 1, 2));
}

#[test]
fn switches_stay_inside_their_rings() {
    let run = digit(Axis::H, 1, 480, Layout::End);
    let hidden_from = hidden_shards(run.duplicate());
    assert!(stays_in_ring(&hidden_from, &hidden_rings(hidden()), 32));
    assert!(!stays_in_ring(&hidden_from, &hidden_rings(hidden()), 16));
    assert!(stays_in_ring(&dual_shards(run), &dual_rings(hidden()), 32));
    assert!(stays_in_ring(&up_shards(hidden_run(480)), &up_rings(hidden_run(3840)), 32));
    assert!(stays_in_ring(&down_shards(feed_run(480)), &down_rings(feed_run(7680)), 64));
    assert!(!stays_in_ring(&down_shards(feed_run(480)), &down_rings(feed_run(7680)), 32));
}

#[test]
fn groups_are_runs_of_1920_bytes() {
    let m = hidden_parts();
    let mut c = Coords::on(Axis::H, 2 * 960 + 17);
    assert_eq!(m.locate(&c), 2 * 1920 + 17);
    c.part = 1;
    assert_eq!(m.locate(&c), 2 * 1920 + 960 + 17);
    let mut c = Coords::on(Axis::L, FEED - 1);
    c.part = 1;
    assert_eq!(feed_parts().locate(&c), 16 * 1920 - 1);
}

#[test]
fn labels_keep_cells() {
    let mut rows = Coords::on(Axis::L, 7680 + 30 * 100 + 7);
    rows.h = 1234;
    rows.part = 1;
    let mut rings = Coords::on(Axis::L, 7680);
    rings.h = 1234;
    rings.part = 1;
    rings.group = 100 / 32;
    rings.ring = 100 % 32;
    assert_eq!(
        up_k_rows(hidden_run(HIDDEN)).locate(&rows),
        up_rings(hidden_run(HIDDEN)).locate(&rings)
    );
    let mut rows = Coords::on(Axis::H, 1920 + 15 * 77 + 3);
    rows.l = 9999;
    let mut rings = Coords::on(Axis::H, 1920);
    rings.l = 9999;
    rings.group = 77 / 32;
    rings.ring = 77 % 32;
    assert_eq!(
        down_columns(feed_run(7680)).locate(&rows),
        down_rings(feed_run(7680)).locate(&rings)
    );
    let mut slice = Coords::on(Axis::H, 5);
    slice.ring = 200;
    let mut ring = Coords::on(Axis::H, 5);
    ring.group = 200 / 32;
    ring.ring = 200 % 32;
    assert_eq!(replicated(hidden()).locate(&slice), hidden_rings(hidden()).locate(&ring));
    slice.q = 2048;
    ring.q = 2048;
    assert_eq!(dual_replicated(hidden()).locate(&slice), dual_rings(hidden()).locate(&ring));
}

#[test]
fn heads_are_read_in_order() {
    let features = digit(Axis::Q, 1, 256, Layout::End);
    let by_head = digit(Axis::Q, 512, 8, digit(Axis::Q, 256, 2, features));
    for q in [0, 1, 255, 256, 511, 512, 4095] {
        let c = Coords::on(Axis::Q, q);
        assert_eq!(by_head.locate(&c), query().locate(&c));
    }
    assert_eq!(by_head.cells(), QUERY);
}

#[test]
fn every_fourth_slice_holds_thirty_rows() {
    let m = thirty_results();
    assert_eq!(m.cells(), 512 * 30);
    assert_eq!(m.locate(&Coords::on(Axis::H, 1920 + 61)), (256 + 8) * 30 + 1);
    let mut live = 0;
    for i in 0..m.cells() {
        assert_eq!(m.decode(i).is_some(), slice_of(&m, i) % 4 == 0);
        live += m.decode(i).is_some() as usize;
    }
    assert_eq!(live, HIDDEN);
    assert_eq!(live / 30, 128);
}

#[test]
fn four_runs_of_thirty_merge_into_120() {
    let m = merged_results();
    assert_eq!(m.locate(&Coords::on(Axis::H, 120)), 16 * 120);
    assert_eq!(m.locate(&Coords::on(Axis::H, 120 + 95)), 16 * 120 + 95);
}

#[test]
fn shares_of_a_row_lie_in_neighbouring_slices() {
    let quarter = k_rows(digit(Axis::Q, 1, 1024, Layout::End));
    let mut c = Coords::on(Axis::H, 95);
    c.q = 3000;
    assert_eq!(slice_of(&quarter, quarter.locate(&c)), 4 * 3 + 2);
    let halves = down_columns(feed_run(7680));
    let totals = down_partials(digit(Axis::H, 1, 15, digit(Axis::Part, 1, 2, Layout::End)));
    let mut c = Coords::on(Axis::H, 46);
    assert_eq!(slice_of(&totals, totals.locate(&c)), 6);
    assert_eq!(slice_of(&halves, halves.locate(&c)), 6);
    c.l = 7680;
    assert_eq!(slice_of(&halves, halves.locate(&c)), 7);
}

#[test]
fn only_the_second_cluster_of_the_copies_is_padding() {
    let m = replicated(hidden());
    assert!(m.decode(256 * HIDDEN - 1).is_some());
    assert!(m.decode(256 * HIDDEN).is_none());
    let m = dual_replicated(hidden());
    assert!(m.decode(256 * HIDDEN).is_some());
    assert!(m.decode(512 * HIDDEN - 1).is_some());
}

#[test]
fn halves_of_the_query_features_are_runs() {
    let m = dual_query_single(digit(Axis::Q, 1, 2048, Layout::End));
    assert_eq!(m.locate(&Coords::on(Axis::Q, 2047)), 2047);
    assert_eq!(m.locate(&Coords::on(Axis::Q, 2048)), 256 * 2048);
    assert_eq!(m.locate(&Coords::on(Axis::Q, 4095)), 256 * 2048 + 2047);
    assert_eq!(2 * hidden().cells(), 7680);
    assert_eq!(2 * words().cells(), 32);
}

#[test]
fn no_two_points_share_a_cell() {
    let m = hidden_parts();
    let mut taken = vec![false; m.cells()];
    for h in 0..HIDDEN {
        for part in 0..2 {
            let mut c = Coords::on(Axis::H, h);
            c.part = part;
            let i = m.locate(&c);
            assert!(!taken[i]);
            taken[i] = true;
            assert_eq!(m.decode(i), Some(c));
        }
    }
    assert!(taken.iter().all(|t| *t));
}
