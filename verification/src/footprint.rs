//! Which slices, runs of cells and bytes the placements take up.
use crate::diagnostics::words;
use crate::layout::{
    at_h, at_hl, at_hp, at_hq, at_l, at_p, at_q, lemma_dense_live, lemma_place_one,
    lemma_place_three, lemma_place_two, lemma_three_digits, lemma_two_digits, origin, Axis, Layout,
    Point,
};
use crate::mlp::{down_matrix, down_matrix_scales, up_matrix, up_matrix_scales};
use crate::operands::{feed_parts, feed_run, hidden_parts, hidden_run};
use crate::output::{merged_results, output_matrix, thirty_results};
use crate::places::{
    digit, down_columns, down_partials, down_results, dual_query_single, dual_replicated,
    gated_results, hidden, k_rows, key, output_replicated, pad, query, replicated, single, term,
    up_k_rows, up_results, CLUSTERS, FEED, HIDDEN, KEY, QUERY, SLICES,
};
use crate::projection::{key_matrix, query_matrix};
use crate::quantize::with_part;
use crate::tensor::{lemma_slice, slice_of, Format};
use vstd::arithmetic::div_mod::{lemma_fundamental_div_mod_converse, lemma_mod_breakdown};
use vstd::prelude::*;

verus! {

/// Number of bytes of `cells` values.
pub open spec fn bytes(format: Format, cells: int) -> int {
    match format {
        Format::F4 => cells / 2,
        Format::F8 => cells,
        Format::Bf16 => 2 * cells,
        Format::F32 => 4 * cells,
    }
}

proof fn lemma_times(x: int, v: int, k: int)
    requires
        v == k,
    ensures
        x * v == x * k,
{
}

/// The high and the low parts of a group of hidden features are one run of 1920 bytes in the large
/// memory.
pub proof fn law_hidden_group_is_one_run(h: int, part: int)
    requires
        0 <= h < HIDDEN,
        0 <= part < 2,
    ensures
        hidden_parts().position(with_part(at_h(h), part)) == 1920 * (h / 960) + 960 * part + h
            % 960,
        bytes(Format::F8, 1920) == 1920,
{
    let p = with_part(at_h(h), part);
    let rest = digit(Axis::H, 1, 960, Layout::End);
    lemma_two_digits(h, 960, 4);
    lemma_two_digits(part, 1, 2);
    lemma_place_one(term(Axis::H, 1, 960), p);
    lemma_place_two(term(Axis::H, 960, 4), term(Axis::Part, 1, 2), rest, p);
    lemma_times((h / 960) * 2 + part, rest.volume(), 960);
}

/// The high and the low parts of a group of feed-forward features are one run of 1920 bytes in the
/// large memory.
pub proof fn law_feed_group_is_one_run(l: int, part: int)
    requires
        0 <= l < FEED,
        0 <= part < 2,
    ensures
        feed_parts().position(with_part(at_l(l), part)) == 1920 * (l / 960) + 960 * part + l % 960,
        bytes(Format::F8, 1920) == 1920,
{
    let p = with_part(at_l(l), part);
    let rest = digit(Axis::L, 1, 960, Layout::End);
    lemma_two_digits(l, 960, 16);
    lemma_two_digits(part, 1, 2);
    lemma_place_one(term(Axis::L, 1, 960), p);
    lemma_place_two(term(Axis::L, 960, 16), term(Axis::Part, 1, 2), rest, p);
    lemma_times((l / 960) * 2 + part, rest.volume(), 960);
}

/// No cell of the parts that the rows of the feed-forward block meet is padding.
pub proof fn law_parts_have_no_padding(i: int)
    ensures
        0 <= i < up_k_rows(hidden_run(HIDDEN)).volume() ==> up_k_rows(hidden_run(HIDDEN)).live(i),
        0 <= i < down_columns(feed_run(7680)).volume() ==> down_columns(feed_run(7680)).live(i),
{
    reveal_with_fuel(Layout::terms_wf, 8);
    reveal_with_fuel(Layout::dense, 8);
    if 0 <= i < up_k_rows(hidden_run(HIDDEN)).volume() {
        lemma_dense_live(up_k_rows(hidden_run(HIDDEN)), i);
    }
    if 0 <= i < down_columns(feed_run(7680)).volume() {
        lemma_dense_live(down_columns(feed_run(7680)), i);
    }
}

/// No copy of the hidden features that both clusters hold is padding.
pub proof fn law_copies_have_no_padding(i: int)
    requires
        0 <= i < dual_replicated(hidden()).volume(),
    ensures
        dual_replicated(hidden()).live(i),
{
    reveal_with_fuel(Layout::terms_wf, 8);
    reveal_with_fuel(Layout::dense, 8);
    lemma_dense_live(dual_replicated(hidden()), i);
}

/// The output rows lie thirty to a slice, in order, in every fourth slice of both clusters.
pub proof fn law_thirty_rows_to_a_slice(h: int)
    requires
        0 <= h < HIDDEN,
    ensures
        thirty_results().position(at_h(h)) == ((h / 1920) * 256 + 4 * ((h / 30) % 64)) * 30 + h
            % 30,
        slice_of(thirty_results(), thirty_results().position(at_h(h))) == 4 * ((h / 30) % 64),
{
    let p = at_h(h);
    let rest = digit(Axis::H, 1, 30, Layout::End);
    let s = (h / 1920) * 256 + 4 * ((h / 30) % 64);
    lemma_three_digits(h, 30, 64, 1920, 2);
    lemma_place_one(term(Axis::H, 1, 30), p);
    lemma_place_three(term(Axis::H, 1920, 2), term(Axis::H, 30, 64), pad(4), rest, p);
    lemma_times(s, rest.volume(), 30);
    lemma_fundamental_div_mod_converse(s * 30 + h % 30, 30, s, h % 30);
    lemma_fundamental_div_mod_converse(s, 256, h / 1920, 4 * ((h / 30) % 64));
}

/// Of the 512 slices, every fourth holds output rows and the others hold none: 64 in each of the
/// two clusters.
pub proof fn law_every_fourth_slice_is_live(i: int)
    requires
        0 <= i < thirty_results().volume(),
    ensures
        thirty_results().volume() == 512 * 30,
        thirty_results().live(i) <==> slice_of(thirty_results(), i) % 4 == 0,
{
    reveal_with_fuel(Layout::live, 5);
    reveal_with_fuel(Layout::volume, 5);
    let c = i / 7680;
    let j = i % 7680;
    let s = j / 30;
    lemma_fundamental_div_mod_converse(i, 30, 256 * c + s, j % 30);
    lemma_fundamental_div_mod_converse(256 * c + s, 256, c, s);
    lemma_fundamental_div_mod_converse(j, 120, s / 4, 30 * (s % 4) + j % 30);
    lemma_fundamental_div_mod_converse(30 * (s % 4) + j % 30, 30, s % 4, j % 30);
}

/// Four neighbouring runs of thirty output rows follow each other in one run of 120.
pub proof fn law_four_runs_merge(h: int)
    requires
        0 <= h < HIDDEN,
    ensures
        merged_results().position(at_h(h)) == ((h / 1920) * 256 + 16 * ((h / 120) % 16)) * 120 + 30
            * ((h / 30) % 4) + h % 30,
{
    let p = at_h(h);
    let rest = digit(Axis::H, 1, 120, Layout::End);
    lemma_three_digits(h, 120, 16, 1920, 2);
    lemma_place_one(term(Axis::H, 1, 120), p);
    lemma_place_three(term(Axis::H, 1920, 2), term(Axis::H, 120, 16), pad(16), rest, p);
    lemma_times((h / 1920) * 256 + 16 * ((h / 120) % 16), rest.volume(), 120);
    lemma_mod_breakdown(h, 30, 4);
}

/// The four quarters of the query features that an output row meets lie in neighbouring slices, and
/// their total goes to the first of these.
pub proof fn law_quarters_are_neighbours(h: int, q: int)
    requires
        0 <= h < HIDDEN,
        0 <= q < QUERY,
    ensures
        ({
            let quarter = k_rows(digit(Axis::Q, 1, 1024, Layout::End));
            slice_of(quarter, quarter.position(at_hq(h, q))) == slice_of(
                thirty_results(),
                thirty_results().position(at_h(h)),
            ) + q / 1024
        }),
{
    let rest = digit(Axis::Q, 1, 1024, Layout::End);
    let m = k_rows(rest);
    let p = at_hq(h, q);
    law_thirty_rows_to_a_slice(h);
    lemma_two_digits(h, 1920, 2);
    lemma_two_digits(q, 1024, 4);
    lemma_place_three(
        term(Axis::H, 1920, 2),
        term(Axis::H, 30, 64),
        term(Axis::Q, 1024, 4),
        rest,
        p,
    );
    reveal_with_fuel(Layout::terms_wf, 8);
    lemma_slice(m, rest, p, h / 1920, 4 * ((h / 30) % 64) + q / 1024);
}

/// The two halves of the feed-forward features that a row of the down projection meets lie in
/// neighbouring slices, and their total goes to the first of these.
pub proof fn law_halves_are_neighbours(h: int, l: int, part: int)
    requires
        0 <= h < HIDDEN,
        0 <= l < FEED,
    ensures
        ({
            let halves = down_columns(feed_run(7680));
            let totals = down_partials(
                digit(Axis::H, 1, 15, digit(Axis::Part, 1, 2, Layout::End)),
            );
            slice_of(halves, halves.position(with_part(at_hl(h, l), part))) == slice_of(
                totals,
                totals.position(with_part(at_h(h), part)),
            ) + l / 7680
        }),
{
    let rest = digit(Axis::H, 1, 15, digit(Axis::Part, 1, 2, Layout::End));
    let p = with_part(at_hl(h, l), part);
    let q = with_part(at_h(h), part);
    let s = 2 * ((h / 15) % 128);
    lemma_two_digits(h, 1920, 2);
    lemma_two_digits(l, 7680, 2);
    lemma_place_three(
        term(Axis::H, 1920, 2),
        term(Axis::H, 15, 128),
        term(Axis::L, 7680, 2),
        feed_run(7680),
        p,
    );
    lemma_place_three(term(Axis::H, 1920, 2), term(Axis::H, 15, 128), pad(2), rest, q);
    reveal_with_fuel(Layout::terms_wf, 8);
    lemma_slice(down_columns(feed_run(7680)), feed_run(7680), p, h / 1920, s + l / 7680);
    lemma_slice(down_partials(rest), rest, q, h / 1920, s);
}

/// The output of a layer's hidden features takes up 7680 bytes.
pub proof fn law_hidden_output_bytes()
    ensures
        bytes(Format::Bf16, hidden().volume()) == 7680,
{
    lemma_place_one(term(Axis::H, 1, HIDDEN), origin());
}

/// Each cluster's half of the query features is one run of 4096 bytes, both in its slice and in
/// the large memory.
pub proof fn law_query_half_is_one_run(q: int)
    requires
        0 <= q < QUERY,
    ensures
        ({
            let halves = dual_query_single(digit(Axis::Q, 1, 2048, Layout::End));
            &&& halves.position(at_q(q)) == ((q / 2048) * 256) * 2048 + q % 2048
            &&& query().position(at_q(q)) == (q / 2048) * 2048 + q % 2048
        }),
        bytes(Format::Bf16, 2048) == 4096,
{
    let p = at_q(q);
    let rest = digit(Axis::Q, 1, 2048, Layout::End);
    lemma_two_digits(q, 2048, 2);
    lemma_two_digits(q, 1, QUERY as int);
    lemma_place_one(term(Axis::Q, 1, 2048), p);
    lemma_place_one(term(Axis::Q, 1, QUERY), p);
    lemma_place_two(term(Axis::Q, 2048, 2), pad(SLICES), rest, p);
    lemma_times(q / 2048, pad(SLICES).padded as int, 256);
    lemma_times((q / 2048) * 256, rest.volume(), 2048);
}

/// `n` pairs of 32-bit results fill `n` store packets of 8 bytes. So thirty rows, and fifteen rows
/// of two parts, go out in whole packets. Of bfloat16 results only multiples of four do, and
/// thirty is none.
pub proof fn law_store_packets(n: int)
    requires
        0 <= n,
    ensures
        bytes(Format::F32, 2 * n) == 8 * n,
        bytes(Format::Bf16, n) % 8 == 0 <==> n % 4 == 0,
        bytes(Format::Bf16, 30) == 60,
{
}

/// The plain copy moves 32 bytes.
pub proof fn law_copy_bytes()
    ensures
        bytes(Format::Bf16, words().volume()) == 32,
{
    lemma_place_one(term(Axis::Word, 1, 16), origin());
}

/// Hidden features lie in order from the first cell on, in the large memory and in one slice.
pub proof fn law_hidden_row_is_in_order(h: int)
    requires
        0 <= h < HIDDEN,
    ensures
        hidden().position(at_h(h)) == h,
        single(hidden()).position(at_h(h)) == h,
{
    let p = at_h(h);
    lemma_two_digits(h, 1, HIDDEN as int);
    lemma_place_one(term(Axis::H, 1, HIDDEN), p);
    lemma_place_two(pad(CLUSTERS), pad(SLICES), hidden(), p);
    lemma_times(0, hidden().volume(), HIDDEN as int);
    assert(pad(CLUSTERS).digit(p) * pad(SLICES).padded + pad(SLICES).digit(p) == 0);
}

/// Query features lie in order from the first cell on, in the large memory and in one slice.
pub proof fn law_query_row_is_in_order(q: int)
    requires
        0 <= q < QUERY,
    ensures
        query().position(at_q(q)) == q,
        single(query()).position(at_q(q)) == q,
{
    let p = at_q(q);
    lemma_two_digits(q, 1, QUERY as int);
    lemma_place_one(term(Axis::Q, 1, QUERY), p);
    lemma_place_two(pad(CLUSTERS), pad(SLICES), query(), p);
    lemma_times(0, query().volume(), QUERY as int);
    assert(pad(CLUSTERS).digit(p) * pad(SLICES).padded + pad(SLICES).digit(p) == 0);
}

/// Key or value features lie in order from the first cell on, in the large memory and in one slice.
pub proof fn law_key_row_is_in_order(p: int)
    requires
        0 <= p < KEY,
    ensures
        key().position(at_p(p)) == p,
        single(key()).position(at_p(p)) == p,
{
    let point = at_p(p);
    lemma_two_digits(p, 1, KEY as int);
    lemma_place_one(term(Axis::P, 1, KEY), point);
    lemma_place_two(pad(CLUSTERS), pad(SLICES), key(), point);
    lemma_times(0, key().volume(), KEY as int);
    assert(pad(CLUSTERS).digit(point) * pad(SLICES).padded + pad(SLICES).digit(point) == 0);
}

/// The weights of an up projection lie row by row in the large memory.
pub proof fn law_up_weights_lie_row_by_row(l: int, h: int)
    requires
        0 <= l < FEED,
        0 <= h < HIDDEN,
    ensures
        up_matrix().position(at_hl(h, l)) == l * 3840 + h,
{
    let c = at_hl(h, l);
    let rest = digit(Axis::H, 1, HIDDEN, Layout::End);
    lemma_two_digits(l, 1, FEED as int);
    lemma_two_digits(h, 1, HIDDEN as int);
    lemma_place_one(term(Axis::H, 1, HIDDEN), c);
    lemma_times(l, rest.volume(), HIDDEN as int);
    reveal_with_fuel(Layout::position, 2);
    assert(term(Axis::L, 1, FEED).digit(c) == l);
}

/// The block scales of an up projection lie row by row in the large memory, one for sixteen
/// weights.
pub proof fn law_up_scales_lie_row_by_row(l: int, h: int)
    requires
        0 <= l < FEED,
        0 <= h < HIDDEN,
    ensures
        up_matrix_scales().position(at_hl(h, l)) == l * 240 + h / 16,
{
    let c = at_hl(h, l);
    let rest = digit(Axis::H, 16, 240, Layout::End);
    lemma_two_digits(l, 1, FEED as int);
    lemma_two_digits(h, 16, 240 as int);
    lemma_place_one(term(Axis::H, 16, 240), c);
    lemma_times(l, rest.volume(), 240 as int);
    reveal_with_fuel(Layout::position, 2);
    assert(term(Axis::L, 1, FEED).digit(c) == l);
}

/// The weights of the down projection lie row by row in the large memory.
pub proof fn law_down_weights_lie_row_by_row(h: int, l: int)
    requires
        0 <= h < HIDDEN,
        0 <= l < FEED,
    ensures
        down_matrix().position(at_hl(h, l)) == h * 15360 + l,
{
    let c = at_hl(h, l);
    let rest = digit(Axis::L, 1, FEED, Layout::End);
    lemma_two_digits(h, 1, HIDDEN as int);
    lemma_two_digits(l, 1, FEED as int);
    lemma_place_one(term(Axis::L, 1, FEED), c);
    lemma_times(h, rest.volume(), FEED as int);
    reveal_with_fuel(Layout::position, 2);
    assert(term(Axis::H, 1, HIDDEN).digit(c) == h);
}

/// The block scales of the down projection lie row by row in the large memory, one for sixteen
/// weights.
pub proof fn law_down_scales_lie_row_by_row(h: int, l: int)
    requires
        0 <= h < HIDDEN,
        0 <= l < FEED,
    ensures
        down_matrix_scales().position(at_hl(h, l)) == h * 960 + l / 16,
{
    let c = at_hl(h, l);
    let rest = digit(Axis::L, 16, 960, Layout::End);
    lemma_two_digits(h, 1, HIDDEN as int);
    lemma_two_digits(l, 16, 960 as int);
    lemma_place_one(term(Axis::L, 16, 960), c);
    lemma_times(h, rest.volume(), 960 as int);
    reveal_with_fuel(Layout::position, 2);
    assert(term(Axis::H, 1, HIDDEN).digit(c) == h);
}

/// The weights of the query projection lie row by row in the large memory.
pub proof fn law_query_weights_lie_row_by_row(q: int, h: int)
    requires
        0 <= q < QUERY,
        0 <= h < HIDDEN,
    ensures
        query_matrix().position(at_hq(h, q)) == q * 3840 + h,
{
    let c = at_hq(h, q);
    let rest = digit(Axis::H, 1, HIDDEN, Layout::End);
    lemma_two_digits(q, 1, QUERY as int);
    lemma_two_digits(h, 1, HIDDEN as int);
    lemma_place_one(term(Axis::H, 1, HIDDEN), c);
    lemma_times(q, rest.volume(), HIDDEN as int);
    reveal_with_fuel(Layout::position, 2);
    assert(term(Axis::Q, 1, QUERY).digit(c) == q);
}

/// The weights of the key and value projections lie row by row in the large memory.
pub proof fn law_key_weights_lie_row_by_row(p: int, h: int)
    requires
        0 <= p < KEY,
        0 <= h < HIDDEN,
    ensures
        key_matrix().position(at_hp(h, p)) == p * 3840 + h,
{
    let c = at_hp(h, p);
    let rest = digit(Axis::H, 1, HIDDEN, Layout::End);
    lemma_two_digits(p, 1, KEY as int);
    lemma_two_digits(h, 1, HIDDEN as int);
    lemma_place_one(term(Axis::H, 1, HIDDEN), c);
    lemma_times(p, rest.volume(), HIDDEN as int);
    reveal_with_fuel(Layout::position, 2);
    assert(term(Axis::P, 1, KEY).digit(c) == p);
}

/// The weights of the output projection lie row by row in the large memory.
pub proof fn law_output_weights_lie_row_by_row(h: int, q: int)
    requires
        0 <= h < HIDDEN,
        0 <= q < QUERY,
    ensures
        output_matrix().position(at_hq(h, q)) == h * 4096 + q,
{
    let c = at_hq(h, q);
    let rest = digit(Axis::Q, 1, QUERY, Layout::End);
    lemma_two_digits(h, 1, HIDDEN as int);
    lemma_two_digits(q, 1, QUERY as int);
    lemma_place_one(term(Axis::Q, 1, QUERY), c);
    lemma_times(h, rest.volume(), QUERY as int);
    reveal_with_fuel(Layout::position, 2);
    assert(term(Axis::H, 1, HIDDEN).digit(c) == h);
}

/// The results of an up projection lie sixty to a slice, in order, in every second slice.
pub proof fn law_up_results_lie_sixty_to_a_slice(l: int)
    requires
        0 <= l < FEED,
    ensures
        up_results().position(at_l(l)) == ((l / 7680) * 256 + 2 * ((l / 60) % 128)) * 60 + l % 60,
{
    let p = at_l(l);
    let rest = digit(Axis::L, 1, 60, Layout::End);
    lemma_three_digits(l, 60, 128, 7680, 2);
    lemma_place_one(term(Axis::L, 1, 60), p);
    lemma_place_three(term(Axis::L, 7680, 2), term(Axis::L, 60, 128), pad(2), rest, p);
    lemma_times((l / 7680) * 256 + 2 * ((l / 60) % 128), rest.volume(), 60);
    let slice = (l / 7680) * 256 + 2 * ((l / 60) % 128);
    let first = term(Axis::L, 7680, 2).digit(p) * 256;
    let second = term(Axis::L, 60, 128).digit(p) * 2;
    assert(first + second + pad(2).digit(p) == slice);
}

/// The gated features lie 120 to a slice, in order, in every fourth slice.
pub proof fn law_gated_results_lie_120_to_a_slice(l: int)
    requires
        0 <= l < FEED,
    ensures
        gated_results().position(at_l(l)) == ((l / 7680) * 256 + 4 * ((l / 120) % 64)) * 120 + l
            % 120,
{
    let p = at_l(l);
    let rest = digit(Axis::L, 1, 120, Layout::End);
    lemma_three_digits(l, 120, 64, 7680, 2);
    lemma_place_one(term(Axis::L, 1, 120), p);
    lemma_place_three(term(Axis::L, 7680, 2), term(Axis::L, 120, 64), pad(4), rest, p);
    lemma_times((l / 7680) * 256 + 4 * ((l / 120) % 64), rest.volume(), 120);
    let slice = (l / 7680) * 256 + 4 * ((l / 120) % 64);
    let first = term(Axis::L, 7680, 2).digit(p) * 256;
    let second = term(Axis::L, 120, 64).digit(p) * 4;
    assert(first + second + pad(4).digit(p) == slice);
}

/// The results of the down projection lie sixty to a slice, in order, in every eighth slice.
pub proof fn law_down_results_lie_sixty_to_a_slice(h: int)
    requires
        0 <= h < HIDDEN,
    ensures
        down_results().position(at_h(h)) == ((h / 1920) * 256 + 8 * ((h / 60) % 32)) * 60 + h % 60,
{
    let p = at_h(h);
    let rest = digit(Axis::H, 1, 60, Layout::End);
    lemma_three_digits(h, 60, 32, 1920, 2);
    lemma_place_one(term(Axis::H, 1, 60), p);
    lemma_place_three(term(Axis::H, 1920, 2), term(Axis::H, 60, 32), pad(8), rest, p);
    lemma_times((h / 1920) * 256 + 8 * ((h / 60) % 32), rest.volume(), 60);
    let slice = (h / 1920) * 256 + 8 * ((h / 60) % 32);
    let first = term(Axis::H, 1920, 2).digit(p) * 256;
    let second = term(Axis::H, 60, 32).digit(p) * 8;
    assert(first + second + pad(8).digit(p) == slice);
}

/// The copies of the hidden features lie slice by slice.
pub proof fn law_copies_lie_slice_by_slice(s: int, h: int)
    requires
        0 <= s < 256,
        0 <= h < HIDDEN,
    ensures
        replicated(hidden()).position((Point { h, ring: s, ..origin() })) == s * 3840 + h,
{
    let p = Point { h, ring: s, ..origin() };
    lemma_two_digits(h, 1, HIDDEN as int);
    lemma_two_digits(s, 1, 256);
    lemma_place_one(term(Axis::H, 1, HIDDEN), p);
    lemma_place_two(pad(CLUSTERS), term(Axis::Ring, 1, 256), hidden(), p);
    lemma_times(s, hidden().volume(), 3840);
    assert(pad(CLUSTERS).digit(p) * 256 + term(Axis::Ring, 1, 256).digit(p) == s);
}

/// The copies of the hidden features in both clusters lie slice by slice.
pub proof fn law_dual_copies_lie_slice_by_slice(cluster: int, s: int, h: int)
    requires
        0 <= cluster < 2,
        0 <= s < 256,
        0 <= h < HIDDEN,
    ensures
        dual_replicated(hidden()).position(
            (Point { h, q: 2048 * cluster, ring: s, ..origin() }),
        ) == (cluster * 256 + s) * 3840 + h,
{
    let p = Point { h, q: 2048 * cluster, ring: s, ..origin() };
    lemma_two_digits(h, 1, HIDDEN as int);
    lemma_two_digits(s, 1, 256);
    lemma_fundamental_div_mod_converse(2048 * cluster, 2048, cluster, 0);
    lemma_two_digits(2048 * cluster, 2048, 2);
    lemma_place_one(term(Axis::H, 1, HIDDEN), p);
    lemma_place_two(term(Axis::Q, 2048, 2), term(Axis::Ring, 1, 256), hidden(), p);
    lemma_times(cluster * 256 + s, hidden().volume(), 3840);
    let first = term(Axis::Q, 2048, 2).digit(p) * 256;
    assert(first + term(Axis::Ring, 1, 256).digit(p) == cluster * 256 + s);
}

/// The copies of the query features in both clusters lie slice by slice.
pub proof fn law_output_copies_lie_slice_by_slice(cluster: int, s: int, q: int)
    requires
        0 <= cluster < 2,
        0 <= s < 256,
        0 <= q < QUERY,
    ensures
        output_replicated(query()).position(
            (Point { h: 1920 * cluster, q, ring: s, ..origin() }),
        ) == (cluster * 256 + s) * 4096 + q,
{
    let p = Point { h: 1920 * cluster, q, ring: s, ..origin() };
    lemma_two_digits(q, 1, QUERY as int);
    lemma_two_digits(s, 1, 256);
    lemma_fundamental_div_mod_converse(1920 * cluster, 1920, cluster, 0);
    lemma_two_digits(1920 * cluster, 1920, 2);
    lemma_place_one(term(Axis::Q, 1, QUERY), p);
    lemma_place_two(term(Axis::H, 1920, 2), term(Axis::Ring, 1, 256), query(), p);
    lemma_times(cluster * 256 + s, query().volume(), 4096);
    let first = term(Axis::H, 1920, 2).digit(p) * 256;
    assert(first + term(Axis::Ring, 1, 256).digit(p) == cluster * 256 + s);
}

/// The query features that output row `h` meets lie by quarters, in four neighbouring slices.
pub proof fn law_quarters_lie_slice_by_slice(h: int, q: int)
    requires
        0 <= h < HIDDEN,
        0 <= q < QUERY,
    ensures
        k_rows(digit(Axis::Q, 1, 1024, Layout::End)).position(at_hq(h, q)) == ((h / 1920) * 256 + 4
            * ((h / 30) % 64) + q / 1024) * 1024 + q % 1024,
{
    let p = at_hq(h, q);
    let rest = digit(Axis::Q, 1, 1024, Layout::End);
    let s = (h / 1920) * 256 + 4 * ((h / 30) % 64) + q / 1024;
    lemma_two_digits(h, 1920, 2);
    lemma_two_digits(q, 1024, 4);
    lemma_place_one(term(Axis::Q, 1, 1024), p);
    lemma_place_three(
        term(Axis::H, 1920, 2),
        term(Axis::H, 30, 64),
        term(Axis::Q, 1024, 4),
        rest,
        p,
    );
    lemma_times(s, rest.volume(), 1024);
    assert(term(Axis::H, 1920, 2).digit(p) * 256 + term(Axis::H, 30, 64).digit(p) * 4 + term(
        Axis::Q,
        1024,
        4,
    ).digit(p) == s);
}

} // verus!
