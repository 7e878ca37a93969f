//! Where the kernels put their tensors.
//!
//! A tensor in the large memory (HBM) has one run of cells. A tensor in the data memory of the
//! processor has a cell run in each of 256 slices of each of two clusters; its layout begins
//! with the factors that choose the cluster and the slice.
use crate::layout::{at_h, lemma_two_digits, only, origin, Axis, Layout, Term};
use vstd::prelude::*;

verus! {

/// Number of hidden features.
pub const HIDDEN: usize = 3840;

/// Number of feed-forward features.
pub const FEED: usize = 15360;

/// Number of query features, all heads together.
pub const QUERY: usize = 4096;

/// Number of key features, and of value features, all heads together.
pub const KEY: usize = 2048;

/// Number of clusters.
pub const CLUSTERS: usize = 2;

/// Number of slices in a cluster.
pub const SLICES: usize = 256;

/// The factor for the digit `(coordinate / div) % len` of an axis.
#[verifier::allow_in_spec]
pub fn term(axis: Axis, div: usize, len: usize) -> Term
    returns
        (Term { axis, div, len, padded: len }),
{
    Term { axis, div, len, padded: len }
}

/// The factor with room for `n` entries of which only the first is used.
#[verifier::allow_in_spec]
pub fn pad(n: usize) -> Term
    returns
        (Term { axis: Axis::Unit, div: 1, len: 1, padded: n }),
{
    Term { axis: Axis::Unit, div: 1, len: 1, padded: n }
}

/// The digit `(coordinate / div) % len` of an axis, and what each of its values holds.
#[verifier::allow_in_spec]
pub fn digit(axis: Axis, div: usize, len: usize, rest: Layout) -> Layout
    returns
        Layout::Then(term(axis, div, len), Box::new(rest)),
{
    Layout::Then(term(axis, div, len), Box::new(rest))
}

/// Room for `n` entries of which only the first is used, and what that entry holds.
#[verifier::allow_in_spec]
pub fn room(n: usize, rest: Layout) -> Layout
    returns
        Layout::Then(pad(n), Box::new(rest)),
{
    Layout::Then(pad(n), Box::new(rest))
}

/// The points of a single digit lie `div` apart.
pub proof fn lemma_steps(axis: Axis, div: usize, len: usize, k: int)
    requires
        0 <= k < len,
    ensures
        digit(axis, div, len, Layout::End).coordinate(k) == only(axis, k * div),
        digit(axis, div, len, Layout::End).volume() == len,
        digit(axis, div, len, Layout::End).dense(),
{
    reveal_with_fuel(Layout::coordinate, 2);
    reveal_with_fuel(Layout::volume, 2);
    reveal_with_fuel(Layout::dense, 2);
    let one_cell = Layout::End.volume();
    assert(len * one_cell == len) by (nonlinear_arith)
        requires
            one_cell == 1,
    ;
    assert(k / 1 == k);
    assert(only(axis, k * div).plus(origin()) == only(axis, k * div));
}

/// One copy, in the first slice of the first cluster.
#[verifier::allow_in_spec]
pub fn single(rest: Layout) -> Layout
    returns
        room(CLUSTERS, room(SLICES, rest)),
{
    room(CLUSTERS, room(SLICES, rest))
}

/// A copy in every slice of the first cluster.
#[verifier::allow_in_spec]
pub fn replicated(rest: Layout) -> Layout
    returns
        room(CLUSTERS, digit(Axis::Ring, 1, 256, rest)),
{
    room(CLUSTERS, digit(Axis::Ring, 1, 256, rest))
}

/// Groups of 960 hidden features, 64 slices apart.
#[verifier::allow_in_spec]
pub fn hidden_groups(rest: Layout) -> Layout
    returns
        room(CLUSTERS, digit(Axis::H, 960, 4, room(64, rest))),
{
    room(CLUSTERS, digit(Axis::H, 960, 4, room(64, rest)))
}

/// Eight groups of 32 slices; in each, runs of 480 hidden features four slices apart.
#[verifier::allow_in_spec]
pub fn hidden_shards(rest: Layout) -> Layout
    returns
        room(CLUSTERS, digit(Axis::Group, 1, 8, digit(Axis::H, 480, 8, room(4, rest)))),
{
    room(CLUSTERS, digit(Axis::Group, 1, 8, digit(Axis::H, 480, 8, room(4, rest))))
}

/// Eight groups of 32 slices that each hold the same.
#[verifier::allow_in_spec]
pub fn hidden_rings(rest: Layout) -> Layout
    returns
        room(CLUSTERS, digit(Axis::Group, 1, 8, digit(Axis::Ring, 1, 32, rest))),
{
    room(CLUSTERS, digit(Axis::Group, 1, 8, digit(Axis::Ring, 1, 32, rest)))
}

/// Thirty consecutive feed-forward features in each slice.
#[verifier::allow_in_spec]
pub fn up_k_rows(rest: Layout) -> Layout
    returns
        digit(Axis::L, 7680, 2, digit(Axis::L, 30, 256, rest)),
{
    digit(Axis::L, 7680, 2, digit(Axis::L, 30, 256, rest))
}

/// Sixty consecutive feed-forward features in every second slice.
#[verifier::allow_in_spec]
pub fn up_rows(rest: Layout) -> Layout
    returns
        digit(Axis::L, 7680, 2, digit(Axis::L, 60, 128, room(2, rest))),
{
    digit(Axis::L, 7680, 2, digit(Axis::L, 60, 128, room(2, rest)))
}

/// 120 consecutive feed-forward features in every fourth slice.
#[verifier::allow_in_spec]
pub fn up_rows_paired(rest: Layout) -> Layout
    returns
        digit(Axis::L, 7680, 2, digit(Axis::L, 120, 64, room(4, rest))),
{
    digit(Axis::L, 7680, 2, digit(Axis::L, 120, 64, room(4, rest)))
}

/// Groups of 960 feed-forward features, 32 slices apart.
#[verifier::allow_in_spec]
pub fn up_groups(rest: Layout) -> Layout
    returns
        digit(Axis::L, 7680, 2, digit(Axis::L, 960, 8, room(32, rest))),
{
    digit(Axis::L, 7680, 2, digit(Axis::L, 960, 8, room(32, rest)))
}

/// One copy in the first slice of each cluster of the feed-forward features.
#[verifier::allow_in_spec]
pub fn up_single(rest: Layout) -> Layout
    returns
        digit(Axis::L, 7680, 2, room(SLICES, rest)),
{
    digit(Axis::L, 7680, 2, room(SLICES, rest))
}

/// In both clusters, eight groups of 32 slices; in each, runs of 480 hidden features four
/// slices apart.
#[verifier::allow_in_spec]
pub fn up_shards(rest: Layout) -> Layout
    returns
        digit(Axis::L, 7680, 2, digit(Axis::Group, 1, 8, digit(Axis::H, 480, 8, room(4, rest)))),
{
    digit(Axis::L, 7680, 2, digit(Axis::Group, 1, 8, digit(Axis::H, 480, 8, room(4, rest))))
}

/// In both clusters, eight groups of 32 slices that each hold the same.
#[verifier::allow_in_spec]
pub fn up_rings(rest: Layout) -> Layout
    returns
        digit(Axis::L, 7680, 2, digit(Axis::Group, 1, 8, digit(Axis::Ring, 1, 32, rest))),
{
    digit(Axis::L, 7680, 2, digit(Axis::Group, 1, 8, digit(Axis::Ring, 1, 32, rest)))
}

/// Sixty consecutive hidden features in every eighth slice.
#[verifier::allow_in_spec]
pub fn down_rows(rest: Layout) -> Layout
    returns
        digit(Axis::H, 1920, 2, digit(Axis::H, 60, 32, room(8, rest))),
{
    digit(Axis::H, 1920, 2, digit(Axis::H, 60, 32, room(8, rest)))
}

/// Fifteen consecutive hidden features in each pair of slices; one slice of the pair for each
/// half of the feed-forward features.
#[verifier::allow_in_spec]
pub fn down_columns(rest: Layout) -> Layout
    returns
        digit(Axis::H, 1920, 2, digit(Axis::H, 15, 128, digit(Axis::L, 7680, 2, rest))),
{
    digit(Axis::H, 1920, 2, digit(Axis::H, 15, 128, digit(Axis::L, 7680, 2, rest)))
}

/// Fifteen consecutive hidden features in every second slice.
#[verifier::allow_in_spec]
pub fn down_partials(rest: Layout) -> Layout
    returns
        digit(Axis::H, 1920, 2, digit(Axis::H, 15, 128, room(2, rest))),
{
    digit(Axis::H, 1920, 2, digit(Axis::H, 15, 128, room(2, rest)))
}

/// In both clusters, four groups of 64 slices; in each, runs of 480 feed-forward features two
/// slices apart.
#[verifier::allow_in_spec]
pub fn down_shards(rest: Layout) -> Layout
    returns
        digit(
            Axis::H,
            1920,
            2,
            digit(
                Axis::Group,
                1,
                4,
                digit(Axis::L, 7680, 2, digit(Axis::L, 480, 16, room(2, rest))),
            ),
        ),
{
    digit(
        Axis::H,
        1920,
        2,
        digit(
            Axis::Group,
            1,
            4,
            digit(Axis::L, 7680, 2, digit(Axis::L, 480, 16, room(2, rest))),
        ),
    )
}

/// In both clusters, four groups of 32 slice pairs that each hold the same.
#[verifier::allow_in_spec]
pub fn down_rings(rest: Layout) -> Layout
    returns
        digit(
            Axis::H,
            1920,
            2,
            digit(Axis::Group, 1, 4, digit(Axis::Ring, 1, 32, digit(Axis::L, 7680, 2, rest))),
        ),
{
    digit(
        Axis::H,
        1920,
        2,
        digit(Axis::Group, 1, 4, digit(Axis::Ring, 1, 32, digit(Axis::L, 7680, 2, rest))),
    )
}

/// Sixteen consecutive query features in each slice of the first cluster.
#[verifier::allow_in_spec]
pub fn query_rows(rest: Layout) -> Layout
    returns
        room(CLUSTERS, digit(Axis::Q, 16, 256, rest)),
{
    room(CLUSTERS, digit(Axis::Q, 16, 256, rest))
}

/// Eight consecutive key or value features in each slice of the first cluster.
#[verifier::allow_in_spec]
pub fn kv_rows(rest: Layout) -> Layout
    returns
        room(CLUSTERS, digit(Axis::P, 8, 256, rest)),
{
    room(CLUSTERS, digit(Axis::P, 8, 256, rest))
}

/// A copy in every slice of both clusters of the hidden features.
#[verifier::allow_in_spec]
pub fn output_replicated(rest: Layout) -> Layout
    returns
        digit(Axis::H, 1920, 2, digit(Axis::Ring, 1, 256, rest)),
{
    digit(Axis::H, 1920, 2, digit(Axis::Ring, 1, 256, rest))
}

/// Thirty consecutive hidden features in every fourth slice.
#[verifier::allow_in_spec]
pub fn hidden_rows(rest: Layout) -> Layout
    returns
        digit(Axis::H, 1920, 2, digit(Axis::H, 30, 64, room(4, rest))),
{
    digit(Axis::H, 1920, 2, digit(Axis::H, 30, 64, room(4, rest)))
}

/// 120 consecutive hidden features in every sixteenth slice.
#[verifier::allow_in_spec]
pub fn merge_rows(rest: Layout) -> Layout
    returns
        digit(Axis::H, 1920, 2, digit(Axis::H, 120, 16, room(16, rest))),
{
    digit(Axis::H, 1920, 2, digit(Axis::H, 120, 16, room(16, rest)))
}

/// Thirty consecutive hidden features in each group of four slices; one slice of the group for
/// each quarter of the query features.
#[verifier::allow_in_spec]
pub fn k_rows(rest: Layout) -> Layout
    returns
        digit(Axis::H, 1920, 2, digit(Axis::H, 30, 64, digit(Axis::Q, 1024, 4, rest))),
{
    digit(Axis::H, 1920, 2, digit(Axis::H, 30, 64, digit(Axis::Q, 1024, 4, rest)))
}

/// In both clusters of the query features, eight groups of 32 slices; in each, runs of 480
/// hidden features four slices apart.
#[verifier::allow_in_spec]
pub fn dual_shards(rest: Layout) -> Layout
    returns
        digit(Axis::Q, 2048, 2, digit(Axis::Group, 1, 8, digit(Axis::H, 480, 8, room(4, rest)))),
{
    digit(Axis::Q, 2048, 2, digit(Axis::Group, 1, 8, digit(Axis::H, 480, 8, room(4, rest))))
}

/// In both clusters of the query features, eight groups of 32 slices that each hold the same.
#[verifier::allow_in_spec]
pub fn dual_rings(rest: Layout) -> Layout
    returns
        digit(Axis::Q, 2048, 2, digit(Axis::Group, 1, 8, digit(Axis::Ring, 1, 32, rest))),
{
    digit(Axis::Q, 2048, 2, digit(Axis::Group, 1, 8, digit(Axis::Ring, 1, 32, rest)))
}

/// A copy in every slice of both clusters of the query features.
#[verifier::allow_in_spec]
pub fn dual_replicated(rest: Layout) -> Layout
    returns
        digit(Axis::Q, 2048, 2, digit(Axis::Ring, 1, 256, rest)),
{
    digit(Axis::Q, 2048, 2, digit(Axis::Ring, 1, 256, rest))
}

/// Eight consecutive query features in each slice of both clusters.
#[verifier::allow_in_spec]
pub fn dual_query_rows(rest: Layout) -> Layout
    returns
        digit(Axis::Q, 2048, 2, digit(Axis::Q, 8, 256, rest)),
{
    digit(Axis::Q, 2048, 2, digit(Axis::Q, 8, 256, rest))
}

/// Half of the query features in the first slice of each cluster.
#[verifier::allow_in_spec]
pub fn dual_query_single(rest: Layout) -> Layout
    returns
        digit(Axis::Q, 2048, 2, room(SLICES, rest)),
{
    digit(Axis::Q, 2048, 2, room(SLICES, rest))
}

/// Eight consecutive key or value features in every second slice of both clusters.
#[verifier::allow_in_spec]
pub fn dual_kv_rows(rest: Layout) -> Layout
    returns
        digit(Axis::P, 1024, 2, digit(Axis::P, 8, 128, room(2, rest))),
{
    digit(Axis::P, 1024, 2, digit(Axis::P, 8, 128, room(2, rest)))
}

/// Half of the key or value features in the first slice of each cluster.
#[verifier::allow_in_spec]
pub fn dual_kv_single(rest: Layout) -> Layout
    returns
        digit(Axis::P, 1024, 2, room(SLICES, rest)),
{
    digit(Axis::P, 1024, 2, room(SLICES, rest))
}

/// All hidden features in a row.
#[verifier::allow_in_spec]
pub fn hidden() -> Layout
    returns
        digit(Axis::H, 1, HIDDEN, Layout::End),
{
    digit(Axis::H, 1, HIDDEN, Layout::End)
}

/// A row of hidden features is well-formed, in the large memory and in one slice.
pub proof fn lemma_hidden_row_wf()
    ensures
        hidden().wf(),
        single(hidden()).wf(),
{
    reveal_with_fuel(Layout::volume, 8);
    reveal_with_fuel(Layout::reach, 8);
    reveal_with_fuel(Layout::terms_wf, 8);
}

/// A row of hidden features has a cell for each, in the large memory and in one slice.
pub proof fn lemma_hidden_row_covers(h: int)
    requires
        0 <= h < HIDDEN,
    ensures
        hidden().covers(at_h(h)),
        single(hidden()).covers(at_h(h)),
{
    reveal_with_fuel(Layout::kept, 8);
    lemma_two_digits(h, 1, HIDDEN as int);
}

/// All query features in a row, head by head.
#[verifier::allow_in_spec]
pub fn query() -> Layout
    returns
        digit(Axis::Q, 1, QUERY, Layout::End),
{
    digit(Axis::Q, 1, QUERY, Layout::End)
}

/// All key or value features in a row, head by head.
#[verifier::allow_in_spec]
pub fn key() -> Layout
    returns
        digit(Axis::P, 1, KEY, Layout::End),
{
    digit(Axis::P, 1, KEY, Layout::End)
}

/// The layout of 120 gated values in every fourth slice.
#[verifier::allow_in_spec]
pub fn gated_results() -> Layout
    returns
        up_rows_paired(digit(Axis::L, 1, 120, Layout::End)),
{
    up_rows_paired(digit(Axis::L, 1, 120, Layout::End))
}

/// The layout of sixty results of an up projection in every second slice.
#[verifier::allow_in_spec]
pub fn up_results() -> Layout
    returns
        up_rows(digit(Axis::L, 1, 60, Layout::End)),
{
    up_rows(digit(Axis::L, 1, 60, Layout::End))
}

/// The layout of sixty results of the down projection in every eighth slice.
#[verifier::allow_in_spec]
pub fn down_results() -> Layout
    returns
        down_rows(digit(Axis::H, 1, 60, Layout::End)),
{
    down_rows(digit(Axis::H, 1, 60, Layout::End))
}

} // verus!
