//! The values that the feed-forward block projects, in high and low parts, and how they reach the
//! slices that need them.
use crate::engine::{computes, total, Arith, Op};
use crate::layout::{
    at_h, at_hl, at_l, lemma_place_five, lemma_place_four, lemma_place_three, lemma_place_two,
    lemma_three_digits, lemma_two_digits, only, origin, Axis, Layout, Point,
};
use crate::places::{
    digit, down_columns, down_rings, down_shards, gated_results, hidden, pad, single, term,
    up_k_rows, up_rings, up_shards, up_single, FEED, HIDDEN,
};
use crate::quantize::{list_parts, list_scales, part_scale, split, with_part, Groups};
use crate::tensor::{lemma_slice, moved, ring_local, same_cluster, slice_of, Format, Tensor};
use vstd::arithmetic::div_mod::lemma_fundamental_div_mod_converse;
use vstd::prelude::*;

verus! {

/// The compensated parts of all hidden features, group by group.
#[verifier::allow_in_spec]
pub fn hidden_parts() -> Layout
    returns
        digit(Axis::H, 960, 4, digit(Axis::Part, 1, 2, digit(Axis::H, 1, 960, Layout::End))),
{
    digit(Axis::H, 960, 4, digit(Axis::Part, 1, 2, digit(Axis::H, 1, 960, Layout::End)))
}

/// The scales of the compensated parts of all hidden features.
#[verifier::allow_in_spec]
pub fn hidden_scales() -> Layout
    returns
        digit(Axis::H, 960, 4, digit(Axis::Part, 1, 2, Layout::End)),
{
    digit(Axis::H, 960, 4, digit(Axis::Part, 1, 2, Layout::End))
}

/// The compensated parts of all feed-forward features, group by group.
#[verifier::allow_in_spec]
pub fn feed_parts() -> Layout
    returns
        digit(Axis::L, 960, 16, digit(Axis::Part, 1, 2, digit(Axis::L, 1, 960, Layout::End))),
{
    digit(Axis::L, 960, 16, digit(Axis::Part, 1, 2, digit(Axis::L, 1, 960, Layout::End)))
}

/// The scales of the compensated parts of all feed-forward features.
#[verifier::allow_in_spec]
pub fn feed_scales() -> Layout
    returns
        digit(Axis::L, 960, 16, digit(Axis::Part, 1, 2, Layout::End)),
{
    digit(Axis::L, 960, 16, digit(Axis::Part, 1, 2, Layout::End))
}

/// The hidden features of a tensor, in order.
pub open spec fn hidden_values(x: Tensor) -> Seq<u32> {
    Seq::new(HIDDEN as nat, |h: int| x.at(at_h(h)))
}

/// The feed-forward features of a tensor, in order.
pub open spec fn feed_values(x: Tensor) -> Seq<u32> {
    Seq::new(FEED as nat, |l: int| x.at(at_l(l)))
}

/// `parts` and `scales` are the high and low parts of the hidden features `xs`.
pub open spec fn hidden_split(g: Arith, xs: Seq<u32>, parts: Tensor, scales: Tensor) -> bool {
    &&& forall|h: int, part: int|
        #![trigger with_part(at_h(h), part)]
        0 <= h < HIDDEN && 0 <= part < 2 ==> parts.at(with_part(at_h(h), part)) == list_parts(
            g,
            xs,
            part,
        )[h]
    &&& forall|i: int, part: int|
        0 <= i < 4 && 0 <= part < 2 ==> scales.at(with_part(at_h(960 * i), part))
            == #[trigger] list_scales(g, xs, part)[i]
}

/// `parts` and `scales` are the high and low parts of the feed-forward features `xs`.
pub open spec fn feed_split(g: Arith, xs: Seq<u32>, parts: Tensor, scales: Tensor) -> bool {
    &&& forall|l: int, part: int|
        #![trigger with_part(at_l(l), part)]
        0 <= l < FEED && 0 <= part < 2 ==> parts.at(with_part(at_l(l), part)) == list_parts(
            g,
            xs,
            part,
        )[l]
    &&& forall|i: int, part: int|
        0 <= i < 16 && 0 <= part < 2 ==> scales.at(with_part(at_l(960 * i), part))
            == #[trigger] list_scales(g, xs, part)[i]
}

/// The two kinds of features that are split in groups of 960.
#[derive(Clone, Copy, PartialEq, Eq, Structural, Debug)]
enum Features {
    /// Hidden features.
    Hidden,
    /// Feed-forward features.
    Feed,
}

impl Features {
    /// How the groups lie in the slices.
    #[verifier::allow_in_spec]
    fn groups(self) -> Groups
        returns
            (match self {
                Features::Hidden => Groups::Hidden,
                Features::Feed => Groups::Feed,
            }),
    {
        match self {
            Features::Hidden => Groups::Hidden,
            Features::Feed => Groups::Feed,
        }
    }

    /// Where the features come from.
    spec fn input(self) -> Layout {
        match self {
            Features::Hidden => single(hidden()),
            Features::Feed => gated_results(),
        }
    }

    /// Where the parts are stored.
    #[verifier::allow_in_spec]
    fn parts(self) -> Layout
        returns
            (match self {
                Features::Hidden => hidden_parts(),
                Features::Feed => feed_parts(),
            }),
    {
        match self {
            Features::Hidden => hidden_parts(),
            Features::Feed => feed_parts(),
        }
    }

    /// Where the scales are stored.
    #[verifier::allow_in_spec]
    fn scales(self) -> Layout
        returns
            (match self {
                Features::Hidden => hidden_scales(),
                Features::Feed => feed_scales(),
            }),
    {
        match self {
            Features::Hidden => hidden_scales(),
            Features::Feed => feed_scales(),
        }
    }

    /// Where the scales of a cluster are gathered before they are stored.
    #[verifier::allow_in_spec]
    fn gathered(self) -> Layout
        returns
            (match self {
                Features::Hidden => single(hidden_scales()),
                Features::Feed => up_single(
                    digit(Axis::L, 960, 8, digit(Axis::Part, 1, 2, Layout::End)),
                ),
            }),
    {
        match self {
            Features::Hidden => single(hidden_scales()),
            Features::Feed => up_single(
                digit(Axis::L, 960, 8, digit(Axis::Part, 1, 2, Layout::End)),
            ),
        }
    }

    /// Number of groups.
    spec fn count(self) -> int {
        match self {
            Features::Hidden => 4,
            Features::Feed => 16,
        }
    }

    /// The point of feature `v`.
    spec fn at(self, v: int) -> Point {
        match self {
            Features::Hidden => at_h(v),
            Features::Feed => at_l(v),
        }
    }

    /// The features of a tensor, in order.
    spec fn values(self, x: Tensor) -> Seq<u32> {
        Seq::new((960 * self.count()) as nat, |v: int| x.at(self.at(v)))
    }
}

/// The groups of features, with what each of them holds.
#[verifier::allow_in_spec]
fn grouped_as(of: Features, rest: Layout) -> Layout
    returns
        of.groups().lay(rest),
{
    of.groups().lay(rest)
}

/// The high and the low parts.
#[verifier::allow_in_spec]
fn pair() -> Layout
    returns
        digit(Axis::Part, 1, 2, Layout::End),
{
    digit(Axis::Part, 1, 2, Layout::End)
}

proof fn lemma_prepare_wf(of: Features)
    ensures
        of.input().wf(),
        grouped_as(of, of.groups().run(Layout::End)).wf(),
        grouped_as(of, pair()).wf(),
        of.gathered().wf(),
        of.parts().wf(),
        of.scales().wf(),
        same_cluster(of.input(), grouped_as(of, pair())),
        same_cluster(grouped_as(of, pair()), of.gathered()),
{
    reveal_with_fuel(Layout::volume, 8);
    reveal_with_fuel(Layout::reach, 8);
    reveal_with_fuel(Layout::terms_wf, 8);
    match of {
        Features::Hidden => {},
        Features::Feed => {},
    }
    assert(of.input().wf());
    assert(grouped_as(of, of.groups().run(Layout::End)).wf());
    assert(grouped_as(of, pair()).wf());
    assert(of.gathered().wf());
    assert(of.parts().wf());
    assert(of.scales().wf());
}

proof fn lemma_prepare_covers(of: Features, v: int, part: int)
    requires
        0 <= v < 960 * of.count(),
        0 <= part < 2,
    ensures
        of.groups().has(of.at(v)),
        grouped_as(of, of.groups().run(Layout::End)).covers(of.at(v)),
        of.parts().covers(with_part(of.at(v), part)),
        v % 960 == 0 ==> {
            &&& of.groups().first(of.at(v)) == of.at(v)
            &&& grouped_as(of, pair()).covers(with_part(of.at(v), part))
            &&& of.gathered().covers(with_part(of.at(v), part))
            &&& of.scales().covers(with_part(of.at(v), part))
        },
{
    reveal_with_fuel(Layout::kept, 8);
    lemma_two_digits(part, 1, 2);
    match of {
        Features::Hidden => {
            lemma_two_digits(v, 960, 4);
        },
        Features::Feed => {
            lemma_two_digits(v, 960, 16);
            lemma_three_digits(v, 960, 8, 7680, 2);
        },
    }
}

/// A group of features is a stretch of the list of all of them, also where the groups have been
/// brought together in slices.
proof fn lemma_members(of: Features, x: Tensor, grouped: Tensor, v: int)
    requires
        grouped.layout == grouped_as(of, of.groups().run(Layout::End)),
        grouped.holds(moved(x)),
        0 <= v < 960 * of.count(),
    ensures
        of.groups().members(grouped, of.at(v)) == of.values(x).subrange(
            960 * (v / 960),
            960 * (v / 960) + 960,
        ),
        0 <= v / 960 < of.count(),
{
    let p = of.at(v);
    let i = v / 960;
    lemma_two_digits(v, 960, of.count());
    assert forall|k: int| 0 <= k < 960 implies #[trigger] of.groups().members(grouped, p)[k]
        == of.values(x)[960 * i + k] by {
        assert(of.groups().first(p).plus(only(of.groups().axis(), k)) == of.at(960 * i + k)) by {
            match of {
                Features::Hidden => {},
                Features::Feed => {},
            }
        }
        lemma_prepare_covers(of, 960 * i + k, 0);
    }
    assert(of.groups().members(grouped, p) =~= of.values(x).subrange(960 * i, 960 * i + 960));
}

/// Splits features into high and low parts with a scale for each group of 960, and stores parts and
/// scales in the large memory.
fn prepare<F: Fn(Op, Vec<u32>, Vec<u32>) -> u32>(alu: &F, of: Features, x: &Tensor) -> (out: (
    Tensor,
    Tensor,
))
    requires
        total(*alu),
        x.is(Format::Bf16, of.input()),
    ensures
        out.0.is(Format::F8, of.parts()),
        out.1.is(Format::F32, of.scales()),
        forall|g: Arith, v: int, part: int|
            #![trigger computes(*alu, g), list_parts(g, of.values(*x), part)[v]]
            computes(*alu, g) && 0 <= v < 960 * of.count() && 0 <= part < 2 ==> out.0.at(
                with_part(of.at(v), part),
            ) == list_parts(g, of.values(*x), part)[v],
        forall|g: Arith, i: int, part: int|
            #![trigger computes(*alu, g), list_scales(g, of.values(*x), part)[i]]
            computes(*alu, g) && 0 <= i < of.count() && 0 <= part < 2 ==> out.1.at(
                with_part(of.at(960 * i), part),
            ) == list_scales(g, of.values(*x), part)[i],
{
    proof {
        lemma_prepare_wf(of);
    }
    let grouped = x.shuffle(grouped_as(of, of.groups().run(Layout::End)));
    let (parts, scales) = split(alu, &grouped, of.groups());
    let stored_parts = parts.relayout(of.parts());
    let packed_scales = scales.shuffle(grouped_as(of, pair()));
    let gathered_scales = packed_scales.shuffle(of.gathered());
    let stored_scales = gathered_scales.relayout(of.scales());
    proof {
        let xs = of.values(*x);
        assert forall|g: Arith, v: int, part: int|
            #![trigger computes(*alu, g), list_parts(g, xs, part)[v]]
            computes(*alu, g) && 0 <= v < 960 * of.count() && 0 <= part < 2 implies stored_parts.at(
            with_part(of.at(v), part),
        ) == list_parts(g, xs, part)[v] by {
            let p = of.at(v);
            lemma_members(of, *x, grouped, v);
            lemma_prepare_covers(of, v, part);
            assert(grouped.at(p) == x.at(p));
            assert(stored_parts.at(with_part(p, part)) == parts.at(with_part(p, part)));
        }
        assert forall|g: Arith, i: int, part: int|
            #![trigger computes(*alu, g), list_scales(g, xs, part)[i]]
            computes(*alu, g) && 0 <= i < of.count() && 0 <= part < 2 implies stored_scales.at(
            with_part(of.at(960 * i), part),
        ) == list_scales(g, xs, part)[i] by {
            let f = of.at(960 * i);
            let q = with_part(f, part);
            lemma_members(of, *x, grouped, 960 * i);
            lemma_prepare_covers(of, 960 * i, part);
            assert((960 * i) / 960 == i);
            assert(list_scales(g, xs, part)[i] == part_scale(
                g,
                of.groups().scale(g, grouped, f),
                part,
            ));
            assert(stored_scales.at(q) == gathered_scales.at(q));
            assert(gathered_scales.at(q) == packed_scales.at(q));
            assert(packed_scales.at(q) == scales.at(q));
        }
    }
    (stored_parts, stored_scales)
}

/// Splits the hidden features into high and low parts with a scale for each group of 960, and
/// stores parts and scales in the large memory.
pub fn prepare_up_input<F: Fn(Op, Vec<u32>, Vec<u32>) -> u32>(alu: &F, x: &Tensor) -> (out: (
    Tensor,
    Tensor,
))
    requires
        total(*alu),
        x.is(Format::Bf16, single(hidden())),
    ensures
        out.0.is(Format::F8, hidden_parts()),
        out.1.is(Format::F32, hidden_scales()),
        forall|g: Arith| #[trigger]
            computes(*alu, g) ==> hidden_split(g, hidden_values(*x), out.0, out.1),
{
    let out = prepare(alu, Features::Hidden, x);
    proof {
        assert(Features::Hidden.values(*x) =~= hidden_values(*x));
        assert forall|g: Arith| #[trigger] computes(*alu, g) implies hidden_split(
            g,
            hidden_values(*x),
            out.0,
            out.1,
        ) by {
            assert forall|v: int, part: int|
                #![trigger with_part(at_h(v), part)]
                0 <= v < HIDDEN && 0 <= part < 2 implies out.0.at(with_part(at_h(v), part))
                == list_parts(g, hidden_values(*x), part)[v] by {
                assert(Features::Hidden.at(v) == at_h(v));
            }
            assert forall|i: int, part: int| 0 <= i < 4 && 0 <= part < 2 implies out.1.at(
                with_part(at_h(960 * i), part),
            ) == #[trigger] list_scales(g, hidden_values(*x), part)[i] by {
                assert(Features::Hidden.at(960 * i) == at_h(960 * i));
            }
        }
    }
    out
}

/// Splits the feed-forward features into high and low parts with a scale for each group of 960,
/// and stores parts and scales in the large memory.
pub fn prepare_down_input<F: Fn(Op, Vec<u32>, Vec<u32>) -> u32>(alu: &F, x: &Tensor) -> (out: (
    Tensor,
    Tensor,
))
    requires
        total(*alu),
        x.is(Format::Bf16, gated_results()),
    ensures
        out.0.is(Format::F8, feed_parts()),
        out.1.is(Format::F32, feed_scales()),
        forall|g: Arith| #[trigger]
            computes(*alu, g) ==> feed_split(g, feed_values(*x), out.0, out.1),
{
    let out = prepare(alu, Features::Feed, x);
    proof {
        assert(Features::Feed.values(*x) =~= feed_values(*x));
        assert forall|g: Arith| #[trigger] computes(*alu, g) implies feed_split(
            g,
            feed_values(*x),
            out.0,
            out.1,
        ) by {
            assert forall|v: int, part: int|
                #![trigger with_part(at_l(v), part)]
                0 <= v < FEED && 0 <= part < 2 implies out.0.at(with_part(at_l(v), part))
                == list_parts(g, feed_values(*x), part)[v] by {
                assert(Features::Feed.at(v) == at_l(v));
            }
            assert forall|i: int, part: int| 0 <= i < 16 && 0 <= part < 2 implies out.1.at(
                with_part(at_l(960 * i), part),
            ) == #[trigger] list_scales(g, feed_values(*x), part)[i] by {
                assert(Features::Feed.at(960 * i) == at_l(960 * i));
            }
        }
    }
    out
}

/// The parts of a run of hidden features.
#[verifier::allow_in_spec]
pub fn hidden_run(n: usize) -> Layout
    returns
        digit(Axis::Part, 1, 2, digit(Axis::H, 1, n, Layout::End)),
{
    digit(Axis::Part, 1, 2, digit(Axis::H, 1, n, Layout::End))
}

/// The parts of a run of feed-forward features.
#[verifier::allow_in_spec]
pub fn feed_run(n: usize) -> Layout
    returns
        digit(Axis::Part, 1, 2, digit(Axis::L, 1, n, Layout::End)),
{
    digit(Axis::Part, 1, 2, digit(Axis::L, 1, n, Layout::End))
}

/// The eight groups of 32 slices share their runs of hidden features among themselves only.
pub proof fn law_up_rings_are_independent()
    ensures
        ring_local(up_shards(hidden_run(480)), up_rings(hidden_run(HIDDEN)), 32),
{
    reveal_with_fuel(Layout::terms_wf, 8);
    assert forall|p: Point| #[trigger]
        up_rings(hidden_run(HIDDEN)).covers(p) implies slice_of(
        up_shards(hidden_run(480)),
        up_shards(hidden_run(480)).position(p),
    ) / 32 == slice_of(up_rings(hidden_run(HIDDEN)), up_rings(hidden_run(HIDDEN)).position(p))
        / 32 by {
        let c = (p.l / 7680) % 2;
        let group = (p.group / 1) % 8;
        let ring = (p.ring / 1) % 32;
        let run = (p.h / 480) % 8;
        let from = up_shards(hidden_run(480));
        let to = up_rings(hidden_run(HIDDEN));
        lemma_place_four(
            term(Axis::L, 7680, 2),
            term(Axis::Group, 1, 8),
            term(Axis::H, 480, 8),
            pad(4),
            hidden_run(480),
            p,
        );
        lemma_place_three(
            term(Axis::L, 7680, 2),
            term(Axis::Group, 1, 8),
            term(Axis::Ring, 1, 32),
            hidden_run(HIDDEN),
            p,
        );
        lemma_slice(from, hidden_run(480), p, c, group * 32 + run * 4);
        lemma_slice(to, hidden_run(HIDDEN), p, c, group * 32 + ring);
    }
}

/// Relabelling the eight groups of 32 slices as rows of feed-forward features moves nothing.
proof fn lemma_up_relabel(l: int, h: int, part: int)
    requires
        0 <= l < FEED,
        0 <= h < HIDDEN,
        0 <= part < 2,
    ensures
        ({
            let s = (l / 30) % 256;
            let q = Point {
                l: (l / 7680) * 7680,
                h,
                part,
                group: s / 32,
                ring: s % 32,
                ..origin()
            };
            &&& up_k_rows(hidden_run(HIDDEN)).position(with_part(at_hl(h, l), part))
                == up_rings(hidden_run(HIDDEN)).position(q)
            &&& up_rings(hidden_run(HIDDEN)).covers(q)
            &&& up_shards(hidden_run(480)).covers(
                Point { l: (l / 7680) * 7680, h, part, group: s / 32, ..origin() },
            )
            &&& up_shards(hidden_run(480)).position(
                Point { l: (l / 7680) * 7680, h, part, group: s / 32, ..origin() },
            ) == up_shards(hidden_run(480)).position(q)
        }),
{
    let s = (l / 30) % 256;
    let c = l / 7680;
    let p = with_part(at_hl(h, l), part);
    let r = Point { l: c * 7680, h, part, group: s / 32, ..origin() };
    let q = Point { ring: s % 32, ..r };
    lemma_two_digits(l, 7680, 2);
    lemma_fundamental_div_mod_converse(c * 7680, 7680, c, 0);
    lemma_two_digits(s, 32, 8);
    lemma_two_digits(s / 32, 1, 8);
    lemma_two_digits(s % 32, 1, 32);
    lemma_two_digits(h, 480, 8);
    lemma_two_digits(h, 1, HIDDEN as int);
    lemma_two_digits(part, 1, 2);
    lemma_place_two(term(Axis::L, 7680, 2), term(Axis::L, 30, 256), hidden_run(HIDDEN), p);
    lemma_place_three(
        term(Axis::L, 7680, 2),
        term(Axis::Group, 1, 8),
        term(Axis::Ring, 1, 32),
        hidden_run(HIDDEN),
        q,
    );
    assert(hidden_run(HIDDEN).position(p) == hidden_run(HIDDEN).position(q)) by {
        reveal_with_fuel(Layout::position, 4);
    }
    assert(up_rings(hidden_run(HIDDEN)).covers(q)) by {
        reveal_with_fuel(Layout::kept, 8);
    }
    assert(up_shards(hidden_run(480)).covers(r)) by {
        reveal_with_fuel(Layout::kept, 8);
    }
    assert(up_shards(hidden_run(480)).position(r) == up_shards(hidden_run(480)).position(q)) by {
        reveal_with_fuel(Layout::position, 8);
    }
}

/// Relabelling the eight groups of 32 slices as rows of feed-forward features moves nothing: a part
/// lies in the same cell under both labels.
pub proof fn law_up_labels_keep_cells(l: int, h: int, part: int)
    requires
        0 <= l < FEED,
        0 <= h < HIDDEN,
        0 <= part < 2,
    ensures
        up_k_rows(hidden_run(HIDDEN)).position(with_part(at_hl(h, l), part)) == up_rings(
            hidden_run(HIDDEN),
        ).position(
            (Point {
                l: (l / 7680) * 7680,
                h,
                part,
                group: ((l / 30) % 256) / 32,
                ring: ((l / 30) % 256) % 32,
                ..origin()
            }),
        ),
{
    lemma_up_relabel(l, h, part);
}

proof fn lemma_load_up_wf()
    ensures
        up_shards(hidden_run(480)).wf(),
        up_rings(hidden_run(HIDDEN)).wf(),
        up_k_rows(hidden_run(HIDDEN)).wf(),
        up_rings(hidden_run(HIDDEN)).volume() == up_k_rows(hidden_run(HIDDEN)).volume(),
{
    reveal_with_fuel(Layout::volume, 8);
    reveal_with_fuel(Layout::reach, 8);
    reveal_with_fuel(Layout::terms_wf, 8);
}

/// Brings the parts of all hidden features to every slice of both clusters, for the rows of the
/// up projections.
pub fn load_up_input(parts: &Tensor) -> (out: Tensor)
    requires
        parts.is(Format::F8, hidden_parts()),
    ensures
        out.is(Format::F8, up_k_rows(hidden_run(HIDDEN))),
        forall|l: int, h: int, part: int|
            0 <= l < FEED && 0 <= h < HIDDEN && 0 <= part < 2 ==> #[trigger] out.at(
                with_part(at_hl(h, l), part),
            ) == parts.at(with_part(at_h(h), part)),
{
    proof {
        lemma_load_up_wf();
        law_up_rings_are_independent();
    }
    let shards = parts.relayout(up_shards(hidden_run(480)));
    let shared = shards.switch(up_rings(hidden_run(HIDDEN)), 32);
    let ghost ring_view = shared;
    let out = shared.relabel(up_k_rows(hidden_run(HIDDEN)));
    proof {
        assert forall|l: int, h: int, part: int|
            0 <= l < FEED && 0 <= h < HIDDEN && 0 <= part < 2 implies #[trigger] out.at(
            with_part(at_hl(h, l), part),
        ) == parts.at(with_part(at_h(h), part)) by {
            let s = (l / 30) % 256;
            let r = Point { l: (l / 7680) * 7680, h, part, group: s / 32, ..origin() };
            let q = Point { ring: s % 32, ..r };
            lemma_up_relabel(l, h, part);
            assert(ring_view.at(q) == shards.at(q));
            assert(shards.at(q) == shards.at(r));
            assert(shards.at(r) == parts.at(r));
            assert(hidden_parts().position(r) == hidden_parts().position(
                with_part(at_h(h), part),
            )) by {
                reveal_with_fuel(Layout::position, 8);
            }
        }
    }
    out
}

/// The four groups of 64 slices share their runs of feed-forward features among themselves only.
pub proof fn law_down_rings_are_independent()
    ensures
        ring_local(down_shards(feed_run(480)), down_rings(feed_run(7680)), 64),
{
    reveal_with_fuel(Layout::terms_wf, 8);
    assert forall|p: Point| #[trigger]
        down_rings(feed_run(7680)).covers(p) implies slice_of(
        down_shards(feed_run(480)),
        down_shards(feed_run(480)).position(p),
    ) / 64 == slice_of(down_rings(feed_run(7680)), down_rings(feed_run(7680)).position(p))
        / 64 by {
        let c = (p.h / 1920) % 2;
        let group = (p.group / 1) % 4;
        let ring = (p.ring / 1) % 32;
        let half = (p.l / 7680) % 2;
        let run = (p.l / 480) % 16;
        let from = down_shards(feed_run(480));
        let to = down_rings(feed_run(7680));
        lemma_place_five(
            term(Axis::H, 1920, 2),
            term(Axis::Group, 1, 4),
            term(Axis::L, 7680, 2),
            term(Axis::L, 480, 16),
            pad(2),
            feed_run(480),
            p,
        );
        lemma_place_four(
            term(Axis::H, 1920, 2),
            term(Axis::Group, 1, 4),
            term(Axis::Ring, 1, 32),
            term(Axis::L, 7680, 2),
            feed_run(7680),
            p,
        );
        lemma_slice(from, feed_run(480), p, c, group * 64 + half * 32 + run * 2);
        lemma_slice(to, feed_run(7680), p, c, group * 64 + ring * 2 + half);
    }
}

/// Relabelling the four groups of 32 slice pairs as rows of hidden features moves nothing.
proof fn lemma_down_relabel(h: int, l: int, part: int)
    requires
        0 <= h < HIDDEN,
        0 <= l < FEED,
        0 <= part < 2,
    ensures
        ({
            let s = (h / 15) % 128;
            let r = Point { h: (h / 1920) * 1920, l, part, group: s / 32, ..origin() };
            let q = Point { ring: s % 32, ..r };
            &&& down_columns(feed_run(7680)).position(with_part(at_hl(h, l), part)) == down_rings(
                feed_run(7680),
            ).position(q)
            &&& down_rings(feed_run(7680)).covers(q)
            &&& down_shards(feed_run(480)).covers(r)
            &&& down_shards(feed_run(480)).position(r) == down_shards(feed_run(480)).position(q)
        }),
{
    let s = (h / 15) % 128;
    let c = h / 1920;
    let p = with_part(at_hl(h, l), part);
    let r = Point { h: c * 1920, l, part, group: s / 32, ..origin() };
    let q = Point { ring: s % 32, ..r };
    lemma_two_digits(h, 1920, 2);
    lemma_fundamental_div_mod_converse(c * 1920, 1920, c, 0);
    lemma_two_digits(s, 32, 4);
    lemma_two_digits(s / 32, 1, 4);
    lemma_two_digits(s % 32, 1, 32);
    lemma_two_digits(l, 7680, 2);
    lemma_three_digits(l, 480, 16, 7680, 2);
    lemma_two_digits(part, 1, 2);
    lemma_place_three(
        term(Axis::H, 1920, 2),
        term(Axis::H, 15, 128),
        term(Axis::L, 7680, 2),
        feed_run(7680),
        p,
    );
    lemma_place_four(
        term(Axis::H, 1920, 2),
        term(Axis::Group, 1, 4),
        term(Axis::Ring, 1, 32),
        term(Axis::L, 7680, 2),
        feed_run(7680),
        q,
    );
    assert(term(Axis::H, 1920, 2).digit(p) * 256 + term(Axis::H, 15, 128).digit(p) * 2 + term(
        Axis::L,
        7680,
        2,
    ).digit(p) == term(Axis::H, 1920, 2).digit(q) * 256 + term(Axis::Group, 1, 4).digit(q) * 64
        + term(Axis::Ring, 1, 32).digit(q) * 2 + term(Axis::L, 7680, 2).digit(q));
    assert(feed_run(7680).position(p) == feed_run(7680).position(q)) by {
        reveal_with_fuel(Layout::position, 4);
    }
    assert(down_rings(feed_run(7680)).covers(q)) by {
        reveal_with_fuel(Layout::kept, 8);
    }
    assert(down_shards(feed_run(480)).covers(r)) by {
        reveal_with_fuel(Layout::kept, 9);
    }
    assert(down_shards(feed_run(480)).position(r) == down_shards(feed_run(480)).position(q)) by {
        reveal_with_fuel(Layout::position, 9);
    }
}

/// Relabelling the four groups of 32 slice pairs as rows of hidden features moves nothing: a part
/// lies in the same cell under both labels.
pub proof fn law_down_labels_keep_cells(h: int, l: int, part: int)
    requires
        0 <= h < HIDDEN,
        0 <= l < FEED,
        0 <= part < 2,
    ensures
        down_columns(feed_run(7680)).position(with_part(at_hl(h, l), part)) == down_rings(
            feed_run(7680),
        ).position(
            (Point {
                h: (h / 1920) * 1920,
                l,
                part,
                group: ((h / 15) % 128) / 32,
                ring: ((h / 15) % 128) % 32,
                ..origin()
            }),
        ),
{
    lemma_down_relabel(h, l, part);
}

proof fn lemma_load_down_wf()
    ensures
        down_shards(feed_run(480)).wf(),
        down_rings(feed_run(7680)).wf(),
        down_columns(feed_run(7680)).wf(),
        down_rings(feed_run(7680)).volume() == down_columns(feed_run(7680)).volume(),
{
    reveal_with_fuel(Layout::volume, 9);
    reveal_with_fuel(Layout::reach, 9);
    reveal_with_fuel(Layout::terms_wf, 9);
}

/// Brings to every slice of both clusters the parts of the half of the feed-forward features
/// that the slice contracts, for the rows of the down projection.
pub fn load_down_input(parts: &Tensor) -> (out: Tensor)
    requires
        parts.is(Format::F8, feed_parts()),
    ensures
        out.is(Format::F8, down_columns(feed_run(7680))),
        forall|h: int, l: int, part: int|
            0 <= h < HIDDEN && 0 <= l < FEED && 0 <= part < 2 ==> #[trigger] out.at(
                with_part(at_hl(h, l), part),
            ) == parts.at(with_part(at_l(l), part)),
{
    proof {
        lemma_load_down_wf();
        law_down_rings_are_independent();
    }
    let shards = parts.relayout(down_shards(feed_run(480)));
    let shared = shards.switch(down_rings(feed_run(7680)), 64);
    let ghost ring_view = shared;
    let out = shared.relabel(down_columns(feed_run(7680)));
    proof {
        assert forall|h: int, l: int, part: int|
            0 <= h < HIDDEN && 0 <= l < FEED && 0 <= part < 2 implies #[trigger] out.at(
            with_part(at_hl(h, l), part),
        ) == parts.at(with_part(at_l(l), part)) by {
            let s = (h / 15) % 128;
            let r = Point { h: (h / 1920) * 1920, l, part, group: s / 32, ..origin() };
            let q = Point { ring: s % 32, ..r };
            lemma_down_relabel(h, l, part);
            assert(ring_view.at(q) == shards.at(q));
            assert(shards.at(q) == shards.at(r));
            assert(shards.at(r) == parts.at(r));
            assert(feed_parts().position(r) == feed_parts().position(with_part(at_l(l), part))) by {
                reveal_with_fuel(Layout::position, 8);
            }
        }
    }
    out
}

} // verus!
