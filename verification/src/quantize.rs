//! Values as a scale times the sum of a high and a low 8-bit float.
//!
//! Each group of values gets a scale `s` from its largest magnitude. A value `x` becomes `hi`,
//! the 8-bit float nearest to `x / s`, and `lo`, the one nearest to sixteen times what `hi` leaves
//! of `x / s`; so `x` is about `s * (hi + lo / 16)`.
use crate::engine::{computes, fold, one, total, two, Arith, Op};
use crate::layout::{
    lemma_same_run, lemma_three_digits, lemma_two_digits, only, origin, Axis, Coords, Layout,
    Point,
};
use crate::places::{digit, hidden_groups, k_rows, room, up_groups, FEED, HIDDEN, QUERY};
use crate::tensor::{mapped, row, Format, Tensor, Window};
use vstd::arithmetic::div_mod::lemma_fundamental_div_mod_converse;
use vstd::prelude::*;

verus! {

/// All bits of a 32-bit float but the sign.
pub const MAGNITUDE_BITS: u32 = 0x7fff_ffff;

/// 256 as a 32-bit float.
pub const F32_256: u32 = 0x4380_0000;

/// The smallest scale, 1.0e-15 as a 32-bit float.
pub const F32_TINY: u32 = 0x2690_1d7d;

/// A sixteenth as a 32-bit float.
pub const F32_SIXTEENTH: u32 = 0x3d80_0000;

/// Sixteen as a 32-bit float.
pub const F32_16: u32 = 0x4180_0000;

/// The magnitude of a bfloat16, as a 32-bit float.
pub open spec fn magnitude(g: Arith, x: u32) -> u32 {
    one(g, Op::WidenBf16, x) & MAGNITUDE_BITS
}

/// The largest magnitude of a group of bfloat16 values.
pub open spec fn largest(g: Arith, xs: Seq<u32>) -> u32 {
    fold(g, Op::LargestInSlice, Seq::new(xs.len(), |k: int| magnitude(g, xs[k])))
}

/// The scale of a group of bfloat16 values.
pub open spec fn group_scale(g: Arith, xs: Seq<u32>) -> u32 {
    two(g, Op::ClipMax, two(g, Op::Divide, largest(g, xs), F32_256), F32_TINY)
}

/// The scale of the low parts of a group with scale `s`.
pub open spec fn low_scale(g: Arith, s: u32) -> u32 {
    two(g, Op::Multiply, s, F32_SIXTEENTH)
}

/// The scale of the high (0) or low (1) parts of a group with scale `s`.
pub open spec fn part_scale(g: Arith, s: u32, part: int) -> u32 {
    if part == 0 {
        s
    } else {
        low_scale(g, s)
    }
}

/// A bfloat16 divided by the scale of its group.
pub open spec fn normal(g: Arith, x: u32, s: u32) -> u32 {
    two(g, Op::Divide, one(g, Op::WidenBf16, x), s)
}

/// The high part of a value.
pub open spec fn high_part(g: Arith, x: u32, s: u32) -> u32 {
    one(g, Op::NarrowF8, normal(g, x, s))
}

/// The low part of a value.
pub open spec fn low_part(g: Arith, x: u32, s: u32) -> u32 {
    let left = two(
        g,
        Op::Subtract,
        normal(g, x, s),
        one(g, Op::WidenF8, high_part(g, x, s)),
    );
    one(g, Op::NarrowF8, two(g, Op::Multiply, left, F32_16))
}

/// The high (0) or low (1) part of a value.
pub open spec fn part_of(g: Arith, x: u32, s: u32, part: int) -> u32 {
    if part == 0 {
        high_part(g, x, s)
    } else {
        low_part(g, x, s)
    }
}

/// The scale of group `i` of a list of values in groups of 960.
pub open spec fn list_scale(g: Arith, xs: Seq<u32>, i: int) -> u32 {
    group_scale(g, xs.subrange(960 * i, 960 * i + 960))
}

/// The high (0) or low (1) parts of a list of values in groups of 960.
pub open spec fn list_parts(g: Arith, xs: Seq<u32>, part: int) -> Seq<u32> {
    Seq::new(xs.len(), |k: int| part_of(g, xs[k], list_scale(g, xs, k / 960), part))
}

/// The scales of the high (0) or low (1) parts of a list of values in groups of 960.
pub open spec fn list_scales(g: Arith, xs: Seq<u32>, part: int) -> Seq<u32> {
    Seq::new(xs.len() / 960, |i: int| part_scale(g, list_scale(g, xs, i), part))
}

/// How values are grouped, and where the groups lie.
#[derive(Clone, Copy, PartialEq, Eq, Structural, Debug)]
pub enum Groups {
    /// Groups of 960 hidden features.
    Hidden,
    /// Groups of 960 feed-forward features.
    Feed,
    /// For each run of thirty hidden features, groups of 1024 query features.
    Shards,
}

impl Groups {
    /// A layout whose first factors choose the group.
    #[verifier::allow_in_spec]
    pub fn lay(self, rest: Layout) -> Layout
        returns
            (match self {
                Groups::Hidden => hidden_groups(rest),
                Groups::Feed => up_groups(rest),
                Groups::Shards => k_rows(rest),
            }),
    {
        match self {
            Groups::Hidden => hidden_groups(rest),
            Groups::Feed => up_groups(rest),
            Groups::Shards => k_rows(rest),
        }
    }

    /// The axis along which a group runs.
    #[verifier::allow_in_spec]
    pub fn axis(self) -> Axis
        returns
            (match self {
                Groups::Hidden => Axis::H,
                Groups::Feed => Axis::L,
                Groups::Shards => Axis::Q,
            }),
    {
        match self {
            Groups::Hidden => Axis::H,
            Groups::Feed => Axis::L,
            Groups::Shards => Axis::Q,
        }
    }

    /// The number of values in a group.
    #[verifier::allow_in_spec]
    pub fn span(self) -> usize
        returns
            (match self {
                Groups::Hidden => 960usize,
                Groups::Feed => 960usize,
                Groups::Shards => 1024usize,
            }),
    {
        match self {
            Groups::Hidden => 960,
            Groups::Feed => 960,
            Groups::Shards => 1024,
        }
    }

    /// `p` is the point of a value.
    pub open spec fn has(self, p: Point) -> bool {
        match self {
            Groups::Hidden => p == (Point { h: p.h, ..origin() }) && 0 <= p.h < HIDDEN,
            Groups::Feed => p == (Point { l: p.l, ..origin() }) && 0 <= p.l < FEED,
            Groups::Shards => p == (Point { h: p.h, q: p.q, ..origin() }) && 0 <= p.h < HIDDEN
                && p.h % 30 == 0 && 0 <= p.q < QUERY,
        }
    }

    /// The first point of the group that `p` is in.
    pub open spec fn first(self, p: Point) -> Point {
        p.plus(only(self.axis(), -(p.get(self.axis()) % (self.span() as int))))
    }

    /// The values of the group that `p` is in.
    pub open spec fn members(self, x: Tensor, p: Point) -> Seq<u32> {
        Seq::new(self.span() as nat, |k: int| x.at(self.first(p).plus(only(self.axis(), k))))
    }

    /// The scale of the group that `p` is in.
    pub open spec fn scale(self, g: Arith, x: Tensor, p: Point) -> u32 {
        group_scale(g, self.members(x, p))
    }

    /// The values of one group.
    #[verifier::allow_in_spec]
    pub fn run(self, rest: Layout) -> Layout
        returns
            digit(self.axis(), 1, self.span(), rest),
    {
        digit(self.axis(), 1, self.span(), rest)
    }
}

/// `p` with the coordinate of the part set.
pub open spec fn with_part(p: Point, part: int) -> Point {
    Point { part, ..p }
}

proof fn lemma_groups_wf(place: Groups)
    ensures
        place.lay(place.run(Layout::End)).wf(),
        place.lay(room(8, Layout::End)).wf(),
        place.lay(digit(Axis::Part, 1, 2, room(8, Layout::End))).wf(),
        place.lay(digit(Axis::Part, 1, 2, place.run(Layout::End))).wf(),
        place.run(Layout::End).wf(),
        place.run(Layout::End).dense(),
        place.run(Layout::End).volume() == place.span(),
{
    reveal_with_fuel(Layout::volume, 8);
    reveal_with_fuel(Layout::reach, 8);
    reveal_with_fuel(Layout::terms_wf, 8);
    reveal_with_fuel(Layout::dense, 8);
    match place {
        Groups::Hidden => {
            assert(place.lay(digit(Axis::Part, 1, 2, place.run(Layout::End))).wf());
        },
        Groups::Feed => {
            assert(place.lay(digit(Axis::Part, 1, 2, place.run(Layout::End))).wf());
        },
        Groups::Shards => {
            assert(place.lay(digit(Axis::Part, 1, 2, place.run(Layout::End))).terms_wf());
            assert(place.lay(digit(Axis::Part, 1, 2, place.run(Layout::End))).reach() <= 0x10_0000);
            assert(place.lay(digit(Axis::Part, 1, 2, place.run(Layout::End))).volume()
                <= 0x4000_0000);
        },
    }
}

proof fn lemma_group_value(place: Groups, p: Point)
    requires
        place.has(p),
    ensures
        place.lay(place.run(Layout::End)).covers(p),
        place.lay(digit(Axis::Part, 1, 2, place.run(Layout::End))).covers(with_part(p, 0)),
        place.lay(digit(Axis::Part, 1, 2, place.run(Layout::End))).covers(with_part(p, 1)),
{
    match place {
        Groups::Hidden => {
            lemma_hidden_value(p.h, 0);
            lemma_hidden_value(p.h, 1);
        },
        Groups::Feed => {
            lemma_feed_value(p.l, 0);
            lemma_feed_value(p.l, 1);
        },
        Groups::Shards => {
            lemma_shard_value(p.h, p.q, 0);
            lemma_shard_value(p.h, p.q, 1);
        },
    }
}

proof fn lemma_hidden_value(h: int, part: int)
    requires
        0 <= h < HIDDEN,
        0 <= part < 2,
    ensures
        ({
            let p = Point { h, ..origin() };
            let run = digit(Axis::H, 1, 960, Layout::End);
            &&& hidden_groups(run).covers(p)
            &&& hidden_groups(digit(Axis::Part, 1, 2, run)).covers(with_part(p, part))
        }),
{
    reveal_with_fuel(Layout::kept, 8);
    lemma_two_digits(h, 960, 4);
    lemma_two_digits(part, 1, 2);
}

proof fn lemma_feed_value(l: int, part: int)
    requires
        0 <= l < FEED,
        0 <= part < 2,
    ensures
        ({
            let p = Point { l, ..origin() };
            let run = digit(Axis::L, 1, 960, Layout::End);
            &&& up_groups(run).covers(p)
            &&& up_groups(digit(Axis::Part, 1, 2, run)).covers(with_part(p, part))
        }),
{
    reveal_with_fuel(Layout::kept, 8);
    lemma_three_digits(l, 960, 8, 7680, 2);
    lemma_two_digits(part, 1, 2);
}

proof fn lemma_shard_value(h: int, q: int, part: int)
    requires
        0 <= h < HIDDEN,
        h % 30 == 0,
        0 <= q < QUERY,
        0 <= part < 2,
    ensures
        ({
            let p = Point { h, q, ..origin() };
            let run = digit(Axis::Q, 1, 1024, Layout::End);
            &&& k_rows(run).covers(p)
            &&& k_rows(digit(Axis::Part, 1, 2, run)).covers(with_part(p, part))
        }),
{
    reveal_with_fuel(Layout::kept, 8);
    lemma_two_digits(q, 1024, 4);
    lemma_three_digits(h, 30, 64, 1920, 2);
    lemma_two_digits(part, 1, 2);
}

proof fn lemma_group_first(place: Groups, p: Point)
    requires
        place.has(p),
    ensures
        place.has(place.first(p)),
        place.lay(room(8, Layout::End)).covers(place.first(p)),
        place.lay(digit(Axis::Part, 1, 2, room(8, Layout::End))).covers(
            with_part(place.first(p), 0),
        ),
        place.lay(digit(Axis::Part, 1, 2, room(8, Layout::End))).covers(
            with_part(place.first(p), 1),
        ),
{
    reveal_with_fuel(Layout::kept, 8);
    match place {
        Groups::Hidden => {
            assert(place.has(place.first(p)));
            assert(place.lay(room(8, Layout::End)).covers(place.first(p)));
        },
        Groups::Feed => {
            let f = place.first(p);
            assert(f.l % 960 == 0);
            lemma_three_digits(f.l, 960, 8, 7680, 2);
        },
        Groups::Shards => {
            let f = place.first(p);
            assert(f.q % 1024 == 0);
            lemma_two_digits(f.q, 1024, 4);
            lemma_three_digits(f.h, 30, 64, 1920, 2);
        },
    }
}

proof fn lemma_group_member(place: Groups, p: Point, k: int)
    requires
        place.has(p),
        0 <= k < place.span(),
    ensures
        place.has(place.first(p).plus(only(place.axis(), k))),
        place.first(place.first(p).plus(only(place.axis(), k))) == place.first(p),
        place.run(Layout::End).coordinate(k) == only(place.axis(), k),
{
    reveal_with_fuel(Layout::coordinate, 2);
    reveal_with_fuel(Layout::volume, 2);
    match place {
        Groups::Hidden => {
            lemma_same_run(p.h, 960, 4, k);
        },
        Groups::Feed => {
            lemma_same_run(p.l, 960, 16, k);
        },
        Groups::Shards => {
            lemma_same_run(p.q, 1024, 4, k);
        },
    }
}

proof fn lemma_group_cell(place: Groups, p: Point)
    requires
        place.has(p),
    ensures
        place.lay(room(8, Layout::End)).position(p) == place.lay(room(8, Layout::End)).position(
            place.first(p),
        ),
{
    reveal_with_fuel(Layout::position, 8);
    match place {
        Groups::Hidden => {
            lemma_same_run(p.h, 960, 4, 0);
        },
        Groups::Feed => {
            lemma_same_run(p.l, 960, 16, 0);
            lemma_same_run(p.l, 7680, 2, 0);
            assert(place.first(p).l / 7680 == p.l / 7680);
        },
        Groups::Shards => {
            lemma_same_run(p.q, 1024, 4, 0);
        },
    }
}

/// The window of the high (0) or low (1) parts.
#[verifier::allow_in_spec]
pub fn part_window(part: usize) -> Window
    returns
        (Window { axis: Axis::Part, span: 2, start: part, len: 1 }),
{
    Window { axis: Axis::Part, span: 2, start: part, len: 1 }
}

/// The scale of every group of `x`, given its values as 32-bit floats.
fn find_scales<F: Fn(Op, Vec<u32>, Vec<u32>) -> u32>(
    alu: &F,
    x: &Tensor,
    wide: &Tensor,
    place: Groups,
) -> (out: Tensor)
    requires
        total(*alu),
        x.is(Format::Bf16, place.lay(place.run(Layout::End))),
        wide.is(Format::F32, place.lay(place.run(Layout::End))),
        forall|g: Arith| #[trigger]
            computes(*alu, g) ==> wide.holds(mapped(g, Op::WidenBf16, *x)),
    ensures
        out.is(Format::F32, place.lay(room(8, Layout::End))),
        out.blank_padding(),
        forall|g: Arith, p: Point|
            #![trigger computes(*alu, g), place.has(p)]
            computes(*alu, g) && place.has(p) ==> out.at(place.first(p)) == place.scale(g, *x, p),
{
    proof {
        lemma_groups_wf(place);
    }
    let sizes = wide.mask(MAGNITUDE_BITS, place.lay(place.run(Layout::End)));
    let largest = sizes.reduce(
        alu,
        Op::LargestInSlice,
        &place.run(Layout::End),
        Format::F32,
        place.lay(room(8, Layout::End)),
    );
    let quotient = largest.map_with(
        alu,
        Op::Divide,
        F32_256,
        Format::F32,
        place.lay(room(8, Layout::End)),
    );
    let out = quotient.map_with(
        alu,
        Op::ClipMax,
        F32_TINY,
        Format::F32,
        place.lay(room(8, Layout::End)),
    );
    proof {
        assert forall|g: Arith, p: Point|
            #![trigger computes(*alu, g), place.has(p)]
            computes(*alu, g) && place.has(p) implies out.at(place.first(p)) == place.scale(
            g,
            *x,
            p,
        ) by {
            let f = place.first(p);
            let across = place.run(Layout::End);
            lemma_group_first(place, p);
            let xs = place.members(*x, p);
            let ms = Seq::new(xs.len(), |k: int| magnitude(g, xs[k]));
            assert(row(sizes, across, f) =~= ms) by {
                assert forall|k: int| 0 <= k < place.span() implies #[trigger] row(
                    sizes,
                    across,
                    f,
                )[k] == ms[k] by {
                    lemma_group_member(place, p, k);
                    let m = f.plus(only(place.axis(), k));
                    lemma_group_value(place, m);
                    assert(sizes.at(m) == wide.at(m) & MAGNITUDE_BITS);
                    assert(wide.at(m) == one(g, Op::WidenBf16, x.at(m)));
                }
            }
            assert(out.at(f) == two(g, Op::ClipMax, quotient.at(f), F32_TINY));
            assert(quotient.at(f) == two(g, Op::Divide, largest.at(f), F32_256));
            assert(largest.at(f) == fold(
                g,
                Op::LargestInSlice,
                row(sizes, across, f),
            ));
        }
    }
    out
}

/// The scales of the high and the low parts, side by side.
fn pair_scales<F: Fn(Op, Vec<u32>, Vec<u32>) -> u32>(
    alu: &F,
    scale: &Tensor,
    place: Groups,
) -> (out: Tensor)
    requires
        total(*alu),
        scale.is(Format::F32, place.lay(room(8, Layout::End))),
    ensures
        out.is(Format::F32, place.lay(digit(Axis::Part, 1, 2, room(8, Layout::End)))),
        out.blank_padding(),
        forall|p: Point| #[trigger]
            place.has(p) ==> out.at(with_part(place.first(p), 0)) == scale.at(place.first(p)),
        forall|g: Arith, p: Point|
            #![trigger computes(*alu, g), place.has(p)]
            computes(*alu, g) && place.has(p) ==> out.at(with_part(place.first(p), 1))
                == low_scale(g, scale.at(place.first(p))),
{
    proof {
        lemma_groups_wf(place);
    }
    let mut out = Tensor::zeros(
        Format::F32,
        place.lay(digit(Axis::Part, 1, 2, room(8, Layout::End))),
    );
    out.commit(scale, part_window(0));
    let ghost first = out;
    let low = scale.map_with(
        alu,
        Op::Multiply,
        F32_SIXTEENTH,
        Format::F32,
        place.lay(room(8, Layout::End)),
    );
    out.commit(&low, part_window(1));
    proof {
        assert forall|p: Point| #[trigger] place.has(p) implies {
            &&& out.at(with_part(place.first(p), 0)) == scale.at(place.first(p))
            &&& out.at(with_part(place.first(p), 1)) == low.at(place.first(p))
        } by {
            let f = place.first(p);
            lemma_group_first(place, p);
            assert(part_window(0).local(with_part(f, 0)) == f);
            assert(part_window(1).local(with_part(f, 1)) == f);
            assert(first.at(with_part(f, 0)) == scale.at(f));
        }
        assert forall|g: Arith, p: Point|
            #![trigger computes(*alu, g), place.has(p)]
            computes(*alu, g) && place.has(p) implies out.at(with_part(place.first(p), 1))
            == low_scale(g, scale.at(place.first(p))) by {
            lemma_group_first(place, p);
        }
    }
    out
}

/// The high and the low parts of all values, and the scales of both, group by group.
pub fn split<F: Fn(Op, Vec<u32>, Vec<u32>) -> u32>(alu: &F, x: &Tensor, place: Groups) -> (out: (
    Tensor,
    Tensor,
))
    requires
        total(*alu),
        x.is(Format::Bf16, place.lay(place.run(Layout::End))),
    ensures
        out.0.is(Format::F8, place.lay(digit(Axis::Part, 1, 2, place.run(Layout::End)))),
        out.0.blank_padding(),
        out.1.is(Format::F32, place.lay(digit(Axis::Part, 1, 2, room(8, Layout::End)))),
        out.1.blank_padding(),
        forall|g: Arith, p: Point, part: int|
            #![trigger computes(*alu, g), with_part(p, part)]
            computes(*alu, g) && place.has(p) && 0 <= part < 2 ==> out.0.at(with_part(p, part))
                == part_of(g, x.at(p), place.scale(g, *x, p), part),
        forall|g: Arith, p: Point, part: int|
            #![trigger computes(*alu, g), part_scale(g, place.scale(g, *x, p), part)]
            computes(*alu, g) && place.has(p) && 0 <= part < 2 ==> out.1.at(
                with_part(place.first(p), part),
            ) == part_scale(g, place.scale(g, *x, p), part),
{
    proof {
        lemma_groups_wf(place);
    }
    let elements = place.lay(place.run(Layout::End));
    let wide = x.map(alu, Op::WidenBf16, Format::F32, elements.duplicate());
    let scale = find_scales(alu, x, &wide, place);
    let scales = pair_scales(alu, &scale, place);
    let high_scale = scales.tile(&Coords::on(Axis::Part, 0), place.lay(room(8, Layout::End)));
    let normalized = wide.zip(alu, Op::Divide, &high_scale, Format::F32, elements.duplicate());
    let mut parts = Tensor::zeros(
        Format::F8,
        place.lay(digit(Axis::Part, 1, 2, place.run(Layout::End))),
    );
    let high = normalized.map(alu, Op::NarrowF8, Format::F8, elements.duplicate());
    parts.commit(&high, part_window(0));
    let ghost first = parts;
    let high_again = parts.tile(&Coords::on(Axis::Part, 0), elements.duplicate());
    let high_wide = high_again.map(alu, Op::WidenF8, Format::F32, elements.duplicate());
    let left = normalized.zip(alu, Op::Subtract, &high_wide, Format::F32, elements.duplicate());
    let enlarged = left.map_with(alu, Op::Multiply, F32_16, Format::F32, elements.duplicate());
    let low = enlarged.map(alu, Op::NarrowF8, Format::F8, elements);
    parts.commit(&low, part_window(1));
    proof {
        assert forall|g: Arith, p: Point, part: int|
            #![trigger computes(*alu, g), with_part(p, part)]
            computes(*alu, g) && place.has(p) && 0 <= part < 2 implies parts.at(with_part(p, part))
            == part_of(g, x.at(p), place.scale(g, *x, p), part) by {
            let s = place.scale(g, *x, p);
            let f = place.first(p);
            lemma_group_value(place, p);
            lemma_group_first(place, p);
            lemma_group_cell(place, p);
            let zero = only(Axis::Part, 0);
            assert(f.plus(zero) == with_part(f, 0));
            assert(p.plus(zero) == with_part(p, 0));
            assert(part_window(0).local(with_part(p, 0)) == p);
            assert(part_window(1).local(with_part(p, 1)) == p);
            assert(scale.at(f) == s);
            assert(high_scale.at(f) == s);
            assert(high_scale.at(p) == high_scale.at(f));
            assert(wide.at(p) == one(g, Op::WidenBf16, x.at(p)));
            assert(normalized.at(p) == normal(g, x.at(p), s));
            assert(high.at(p) == high_part(g, x.at(p), s));
            assert(first.at(with_part(p, 0)) == high.at(p));
            assert(high_again.at(p) == high.at(p));
            assert(high_wide.at(p) == one(g, Op::WidenF8, high.at(p)));
            assert(left.at(p) == two(g, Op::Subtract, normalized.at(p), high_wide.at(p)));
            assert(enlarged.at(p) == two(g, Op::Multiply, left.at(p), F32_16));
            assert(low.at(p) == low_part(g, x.at(p), s));
            if part == 0 {
                assert(parts.at(with_part(p, 0)) == first.at(with_part(p, 0)));
            } else {
                assert(parts.at(with_part(p, 1)) == low.at(p));
            }
        }
        assert forall|g: Arith, p: Point, part: int|
            #![trigger computes(*alu, g), part_scale(g, place.scale(g, *x, p), part)]
            computes(*alu, g) && place.has(p) && 0 <= part < 2 implies scales.at(
            with_part(place.first(p), part),
        ) == part_scale(g, place.scale(g, *x, p), part) by {
            lemma_group_first(place, p);
            assert(scale.at(place.first(p)) == place.scale(g, *x, p));
        }
    }
    (parts, scales)
}

/// The magnitude of a value has no sign bit, and values that differ in the sign alone have the
/// same magnitude.
pub proof fn law_magnitude_has_no_sign(g: Arith, x: u32, y: u32)
    ensures
        magnitude(g, x) < 0x8000_0000,
        one(g, Op::WidenBf16, x) == one(g, Op::WidenBf16, y) ^ 0x8000_0000 ==> magnitude(g, x)
            == magnitude(g, y),
        one(g, Op::WidenBf16, x) < 0x8000_0000 ==> magnitude(g, x) == one(g, Op::WidenBf16, x),
{
    let a = one(g, Op::WidenBf16, x);
    let b = one(g, Op::WidenBf16, y);
    assert(a & 0x7fff_ffff < 0x8000_0000) by (bit_vector);
    assert(a == b ^ 0x8000_0000 ==> a & 0x7fff_ffff == b & 0x7fff_ffff) by (bit_vector);
    assert(a < 0x8000_0000 ==> a & 0x7fff_ffff == a) by (bit_vector);
}

/// Groups whose values have the same magnitudes have the same scale, whatever their signs are.
pub proof fn law_scale_ignores_signs(g: Arith, xs: Seq<u32>, ys: Seq<u32>)
    requires
        xs.len() == ys.len(),
        forall|k: int|
            0 <= k < xs.len() ==> magnitude(g, #[trigger] xs[k]) == magnitude(g, ys[k]),
    ensures
        group_scale(g, xs) == group_scale(g, ys),
{
    assert(Seq::new(xs.len(), |k: int| magnitude(g, xs[k])) =~= Seq::new(
        ys.len(),
        |k: int| magnitude(g, ys[k]),
    ));
}

/// The parts and the scales of a group depend on the values of that group alone.
pub proof fn law_groups_are_independent(g: Arith, xs: Seq<u32>, ys: Seq<u32>, i: int, part: int)
    requires
        0 <= i,
        960 * i + 960 <= xs.len(),
        960 * i + 960 <= ys.len(),
        xs.subrange(960 * i, 960 * i + 960) == ys.subrange(960 * i, 960 * i + 960),
    ensures
        list_scales(g, xs, part)[i] == list_scales(g, ys, part)[i],
        forall|k: int|
            960 * i <= k < 960 * i + 960 ==> #[trigger] list_parts(g, xs, part)[k] == list_parts(
                g,
                ys,
                part,
            )[k],
{
    assert forall|k: int| 960 * i <= k < 960 * i + 960 implies #[trigger] list_parts(
        g,
        xs,
        part,
    )[k] == list_parts(g, ys, part)[k] by {
        lemma_fundamental_div_mod_converse(k, 960, i, k - 960 * i);
        assert(k / 960 == i);
        assert(xs[k] == xs.subrange(960 * i, 960 * i + 960)[k - 960 * i]);
        assert(ys[k] == ys.subrange(960 * i, 960 * i + 960)[k - 960 * i]);
        assert(list_scale(g, xs, k / 960) == list_scale(g, ys, k / 960));
    }
}

} // verus!
