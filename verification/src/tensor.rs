//! Tensors of bit patterns, and the steps that kernels are made of.
use crate::engine::{
    ask, ask_each, ask_each_with, ask_fold, ask_pairs, computes, fold, one, total, two, Arith, Op,
    Shape,
};
use crate::layout::{
    consecutive, lemma_dense_live, lemma_position, lemma_steady, lemma_tail, lemma_tail_run,
    lemma_volume_positive, only, origin, Axis, Coords, Layout, Point, Term, REACH_LIMIT,
};
use vstd::arithmetic::div_mod::{lemma_fundamental_div_mod, lemma_fundamental_div_mod_converse};
use vstd::arithmetic::mul::{lemma_mul_is_commutative, lemma_mul_is_distributive_add_other_way};
use vstd::prelude::*;

verus! {

/// The number format that a tensor's bit patterns are read in.
#[derive(Clone, Copy, PartialEq, Eq, Structural, Debug)]
pub enum Format {
    /// 4-bit float, two exponent bits.
    F4,
    /// 8-bit float, four exponent bits.
    F8,
    /// bfloat16.
    Bf16,
    /// 32-bit float.
    F32,
}

/// A tensor: bit patterns in the cells of a layout.
#[derive(Debug)]
pub struct Tensor {
    pub format: Format,
    pub layout: Layout,
    pub data: Vec<u32>,
}

/// A run of `len` digits from `start` on, of the digits `coordinate % span` of an axis.
#[derive(Clone, Copy, PartialEq, Eq, Structural, Debug)]
pub struct Window {
    pub axis: Axis,
    pub span: usize,
    pub start: usize,
    pub len: usize,
}

impl Window {
    /// The digit of `p` lies in the run.
    pub open spec fn holds(self, p: Point) -> bool {
        self.start <= p.get(self.axis) % (self.span as int) < self.start + self.len
    }

    /// The point that `p` is inside a tile that begins where the run does.
    pub open spec fn local(self, p: Point) -> Point {
        p.plus(only(self.axis, -self.start))
    }
}

impl Tensor {
    /// The layout is well-formed and the data fills it.
    pub open spec fn wf(self) -> bool {
        &&& self.layout.wf()
        &&& self.data@.len() == self.layout.volume()
    }

    /// The tensor is well-formed and has the given format and layout.
    pub open spec fn is(self, format: Format, layout: Layout) -> bool {
        &&& self.wf()
        &&& self.format == format
        &&& self.layout == layout
    }

    /// The value at a point.
    pub open spec fn at(self, p: Point) -> u32 {
        self.data@[self.layout.position(p)]
    }

    /// The value at every point that has a cell of its own is the one that `f` gives.
    pub open spec fn holds(self, f: spec_fn(Point) -> u32) -> bool {
        forall|p: Point| self.layout.covers(p) ==> #[trigger] self.at(p) == f(p)
    }

    /// Every padding cell holds zero.
    pub open spec fn blank_padding(self) -> bool {
        forall|i: int|
            0 <= i < self.data@.len() && !self.layout.live(i) ==> #[trigger] self.data@[i] == 0
    }
}

/// Both layouts choose the cluster in the same way.
pub open spec fn same_cluster(a: Layout, b: Layout) -> bool {
    match (a, b) {
        (Layout::Then(s, _), Layout::Then(t, _)) => s == t,
        _ => false,
    }
}

/// The slice that cell `i` of a layout in data memory lies in: there are 256 slices in each of
/// two clusters.
pub open spec fn slice_of(m: Layout, i: int) -> int {
    (i / (m.volume() / 512)) % 256
}

/// Every value that `to` takes from `from` comes from a slice of the same ring.
pub open spec fn ring_local(from: Layout, to: Layout, ring: int) -> bool {
    forall|p: Point| #[trigger]
        to.covers(p) ==> slice_of(from, from.position(p)) / ring == slice_of(to, to.position(p))
            / ring
}

/// A cell whose index is that of cluster `c`, slice `s` and a cell of the rest lies in slice `s`.
pub proof fn lemma_slice(m: Layout, rest: Layout, p: Point, c: int, s: int)
    requires
        rest.terms_wf(),
        m.volume() == 512 * rest.volume(),
        0 <= s < 256,
        m.position(p) == (c * 256 + s) * rest.volume() + rest.position(p),
    ensures
        slice_of(m, m.position(p)) == s,
{
    lemma_position(rest, p);
    let v = rest.volume();
    lemma_fundamental_div_mod_converse(m.volume(), 512, v, 0);
    lemma_mul_is_commutative(c * 256 + s, v);
    lemma_fundamental_div_mod_converse(m.position(p), v, c * 256 + s, rest.position(p));
    lemma_fundamental_div_mod_converse(c * 256 + s, 256, c, s);
}

/// The first cells of a layout are filled with what `f` gives.
spec fn filled(layout: Layout, data: Seq<u32>, f: spec_fn(Point) -> u32) -> bool {
    forall|p: Point|
        layout.covers(p) && 0 <= #[trigger] layout.position(p) < data.len()
            ==> data[layout.position(p)] == f(p)
}

proof fn lemma_fill(layout: Layout, data: Seq<u32>, f: spec_fn(Point) -> u32, v: u32)
    requires
        layout.wf(),
        filled(layout, data, f),
        data.len() < layout.volume(),
        layout.live(data.len() as int) ==> v == f(layout.coordinate(data.len() as int)),
    ensures
        filled(layout, data.push(v), f),
{
    assert forall|p: Point|
        layout.covers(p) && 0 <= #[trigger] layout.position(p) < data.len() + 1 implies data.push(
        v,
    )[layout.position(p)] == f(p) by {
        lemma_position(layout, p);
        if layout.position(p) < data.len() {
            assert(data.push(v)[layout.position(p)] == data[layout.position(p)]);
        }
    }
}

/// Filling a run of the last factor, which is padding or not as a whole.
proof fn lemma_fill_run(layout: Layout, data: Seq<u32>, f: spec_fn(Point) -> u32, run: Seq<u32>)
    requires
        layout.wf(),
        filled(layout, data, f),
        data.len() < layout.volume(),
        data.len() as int % (layout.tail().len as int) == 0,
        run.len() == layout.tail().len,
        layout.live(data.len() as int) ==> fits_run(layout, data.len() as int, f, run),
    ensures
        filled(layout, data + run, f),
{
    let all = data + run;
    let n = data.len() as int;
    assert forall|p: Point|
        layout.covers(p) && 0 <= #[trigger] layout.position(p)
            < all.len() implies all[layout.position(p)] == f(p) by {
        let j = layout.position(p);
        lemma_position(layout, p);
        if j >= n {
            lemma_tail_run(layout, n, j - n);
            assert(all[j] == run[j - n]);
        } else {
            assert(all[j] == data[j]);
        }
    }
}

/// Runs of the last factor follow each other up to the last cell.
proof fn lemma_next_run(layout: Layout, n: int)
    requires
        layout.wf(),
        0 <= n < layout.volume(),
        n % (layout.tail().len as int) == 0,
    ensures
        n + layout.tail().len <= layout.volume(),
        (n + layout.tail().len) % (layout.tail().len as int) == 0,
{
    let l = layout.tail().len as int;
    lemma_tail(layout);
    lemma_tail_run(layout, n, l - 1);
    lemma_fundamental_div_mod(n, l);
    lemma_mul_is_commutative(l, n / l);
    lemma_mul_is_distributive_add_other_way(l, n / l, 1);
    lemma_fundamental_div_mod_converse(n + l, l, n / l + 1, 0);
}

/// The values of a run are those that `f` gives at its points.
spec fn fits_run(layout: Layout, n: int, f: spec_fn(Point) -> u32, run: Seq<u32>) -> bool {
    forall|k: int|
        0 <= k < run.len() ==> #[trigger] run[k] == f(
            layout.coordinate(n).plus(only(layout.tail().axis, k * layout.tail().div)),
        )
}

/// Every padding cell of a list of cells is blank.
spec fn blank(layout: Layout, data: Seq<u32>) -> bool {
    forall|j: int| 0 <= j < data.len() && !layout.live(j) ==> #[trigger] data[j] == 0
}

/// Adds a run of the last factor to the cells of a layout: its values, or zeros where it is
/// padding.
fn fill_run(data: &mut Vec<u32>, layout: &Layout, t: Term, run: Option<Vec<u32>>)
    requires
        layout.wf(),
        t == layout.tail(),
        old(data)@.len() < layout.volume(),
        old(data)@.len() as int % (t.len as int) == 0,
        blank(*layout, old(data)@),
        run is Some <==> layout.live(old(data)@.len() as int),
        run matches Some(values) ==> values@.len() == t.len,
    ensures
        final(data)@.len() == old(data)@.len() + t.len,
        final(data)@.len() <= layout.volume(),
        final(data)@.len() as int % (t.len as int) == 0,
        blank(*layout, final(data)@),
        forall|f: spec_fn(Point) -> u32| #[trigger]
            filled(*layout, old(data)@, f) && (run matches Some(values) ==> fits_run(
                *layout,
                old(data)@.len() as int,
                f,
                values@,
            )) ==> filled(*layout, final(data)@, f),
{
    let ghost before = data@;
    let ghost n = data@.len() as int;
    proof {
        lemma_tail(*layout);
        lemma_next_run(*layout, n);
    }
    let mut cells: Vec<u32> = match run {
        None => blanks(t.len),
        Some(values) => values,
    };
    let ghost added = cells@;
    data.append(&mut cells);
    proof {
        assert(data@ =~= before + added);
        lemma_blank_run(*layout, before, added);
        assert forall|f: spec_fn(Point) -> u32| #[trigger]
            filled(*layout, before, f) && (run matches Some(values) ==> fits_run(
                *layout,
                n,
                f,
                values@,
            )) implies filled(*layout, data@, f) by {
            lemma_fill_run(*layout, before, f, added);
        }
    }
}

/// A run that is padding is blank.
proof fn lemma_blank_run(layout: Layout, data: Seq<u32>, run: Seq<u32>)
    requires
        layout.wf(),
        data.len() < layout.volume(),
        data.len() as int % (layout.tail().len as int) == 0,
        run.len() == layout.tail().len,
        blank(layout, data),
        !layout.live(data.len() as int) ==> forall|k: int|
            0 <= k < run.len() ==> #[trigger] run[k] == 0,
    ensures
        blank(layout, data + run),
{
    let n = data.len() as int;
    assert forall|j: int| 0 <= j < n + run.len() && !layout.live(j) implies #[trigger] (data
        + run)[j] == 0 by {
        if j >= n {
            lemma_tail_run(layout, n, j - n);
            assert((data + run)[j] == run[j - n]);
        } else {
            assert((data + run)[j] == data[j]);
        }
    }
}

/// The bits of `mask` of every value of a list.
fn keep_bits(a: &Vec<u32>, mask: u32) -> (r: Vec<u32>)
    ensures
        r@.len() == a@.len(),
        forall|k: int| 0 <= k < a@.len() ==> #[trigger] r@[k] == a@[k] & mask,
{
    let n: usize = a.len();
    let mut r: Vec<u32> = Vec::with_capacity(n);
    let mut i: usize = 0;
    while i < n
        invariant
            n == a@.len(),
            i <= n,
            r@.len() == i,
            forall|k: int| 0 <= k < i ==> #[trigger] r@[k] == a@[k] & mask,
        decreases n - i,
    {
        r.push(a[i] & mask);
        i = i + 1;
    }
    r
}

/// A list of `n` zeros.
fn blanks(n: usize) -> (v: Vec<u32>)
    ensures
        v@ == Seq::new(n as nat, |i: int| 0u32),
{
    let mut v: Vec<u32> = Vec::with_capacity(n);
    let mut i: usize = 0;
    while i < n
        invariant
            i <= n,
            v@ == Seq::new(i as nat, |j: int| 0u32),
        decreases n - i,
    {
        v.push(0);
        i = i + 1;
        assert(v@ =~= Seq::new(i as nat, |j: int| 0u32));
    }
    v
}

proof fn lemma_filled(t: Tensor, f: spec_fn(Point) -> u32)
    requires
        t.layout.wf(),
        t.data@.len() == t.layout.volume(),
        filled(t.layout, t.data@, f),
    ensures
        t.holds(f),
{
    assert forall|p: Point| t.layout.covers(p) implies #[trigger] t.at(p) == f(p) by {
        lemma_position(t.layout, p);
    }
}

/// The values of `src` at the same points.
pub open spec fn moved(src: Tensor) -> spec_fn(Point) -> u32 {
    |p: Point| src.at(p)
}

/// The values of `src`, read `shift` further on.
pub open spec fn shifted(src: Tensor, shift: Point) -> spec_fn(Point) -> u32 {
    |p: Point| src.at(p.plus(shift))
}

/// The values of `src` with only the bits of `mask`.
pub open spec fn masked(src: Tensor, mask: u32) -> spec_fn(Point) -> u32 {
    |p: Point| src.at(p) & mask
}

/// The answers to `op` on each value of `src`.
pub open spec fn mapped(g: Arith, op: Op, src: Tensor) -> spec_fn(Point) -> u32 {
    |p: Point| one(g, op, src.at(p))
}

/// The answers to `op` on each value of `src` and the value `k`.
pub open spec fn scaled(g: Arith, op: Op, src: Tensor, k: u32) -> spec_fn(Point) -> u32 {
    |p: Point| two(g, op, src.at(p), k)
}

/// The answers to `op` on the values of `a` and `b` at the same point.
pub open spec fn paired(g: Arith, op: Op, a: Tensor, b: Tensor) -> spec_fn(Point) -> u32 {
    |p: Point| two(g, op, a.at(p), b.at(p))
}

/// What a request on every value takes beside the value.
#[derive(Clone, Copy)]
enum Operand<'a> {
    /// Nothing.
    Nothing,
    /// The same value throughout.
    Value(u32),
    /// The value of another tensor at the same point.
    Cells(&'a Tensor),
}

impl<'a> Operand<'a> {
    /// The operand is one that `op` takes.
    spec fn suits(self, op: Op) -> bool {
        match self {
            Operand::Nothing => op.shape() == Shape::One,
            Operand::Value(_) => op.shape() == Shape::Two,
            Operand::Cells(other) => op.shape() == Shape::Two && other.wf(),
        }
    }

    /// The answers to `op` on each value of `src` and the operand.
    spec fn answers(self, g: Arith, op: Op, src: Tensor) -> spec_fn(Point) -> u32 {
        match self {
            Operand::Nothing => mapped(g, op, src),
            Operand::Value(k) => scaled(g, op, src, k),
            Operand::Cells(other) => paired(g, op, src, *other),
        }
    }
}

/// The values of `src` at the points that lie `across` further on than `p`.
pub open spec fn row(src: Tensor, across: Layout, p: Point) -> Seq<u32> {
    Seq::new(across.volume() as nat, |k: int| src.at(p.plus(across.coordinate(k))))
}

/// The reductions by `op` of the values of `src` across `across`.
pub open spec fn reduced(g: Arith, op: Op, src: Tensor, across: Layout) -> spec_fn(Point) -> u32 {
    |p: Point| fold(g, op, row(src, across, p))
}

/// The contractions by `op` of `a` with `b` across `across`.
pub open spec fn contracted(
    g: Arith,
    op: Op,
    a: Tensor,
    b: Tensor,
    across: Layout,
) -> spec_fn(Point) -> u32 {
    |p: Point| g(op, row(a, across, p), row(b, across, p))
}

/// The values of `tile` inside the window, and those of `rest` elsewhere.
pub open spec fn merged(rest: Tensor, tile: Tensor, window: Window) -> spec_fn(Point) -> u32 {
    |p: Point|
        if window.holds(p) {
            tile.at(window.local(p))
        } else {
            rest.at(p)
        }
}

impl Tensor {
    /// The value at `c`.
    pub fn read(&self, c: &Coords) -> (v: u32)
        requires
            self.wf(),
        ensures
            v == self.at(c@),
    {
        self.data[self.layout.locate(c)]
    }

    /// The tensor is well-formed and has the given format and layout.
    pub fn fits(&self, format: Format, layout: &Layout) -> (r: bool)
        ensures
            r == self.is(format, *layout),
    {
        match self.layout.sizes() {
            None => false,
            Some((n, _)) => self.format == format && self.layout.same(layout) && self.data.len()
                == n,
        }
    }

    /// A tensor of zeros.
    pub fn zeros(format: Format, layout: Layout) -> (out: Tensor)
        requires
            layout.wf(),
        ensures
            out.is(format, layout),
            out.data@ == Seq::new(layout.volume() as nat, |i: int| 0u32),
    {
        let n: usize = layout.cells();
        let data = blanks(n);
        Tensor { format, layout, data }
    }

    /// The same cells under another layout.
    pub fn relabel(self, layout: Layout) -> (out: Tensor)
        requires
            self.wf(),
            layout.wf(),
            layout.volume() == self.layout.volume(),
        ensures
            out.is(self.format, layout),
            out.data@ == self.data@,
    {
        Tensor { format: self.format, layout, data: self.data }
    }

    /// A second tensor with the same cells under another layout.
    pub fn alias(&self, layout: Layout) -> (out: Tensor)
        requires
            self.wf(),
            layout.wf(),
            layout.volume() == self.layout.volume(),
        ensures
            out.is(self.format, layout),
            out.data@ == self.data@,
    {
        let mut data: Vec<u32> = Vec::new();
        let mut i: usize = 0;
        while i < self.data.len()
            invariant
                i <= self.data@.len(),
                data@ == self.data@.take(i as int),
            decreases self.data@.len() - i,
        {
            data.push(self.data[i]);
            i = i + 1;
            assert(data@ =~= self.data@.take(i as int));
        }
        assert(data@ =~= self.data@);
        Tensor { format: self.format, layout, data }
    }

    /// Moves the values into another layout. An axis that only the new layout has gets copies.
    pub fn relayout(&self, layout: Layout) -> (out: Tensor)
        requires
            self.wf(),
            layout.wf(),
        ensures
            out.is(self.format, layout),
            out.blank_padding(),
            out.holds(moved(*self)),
    {
        let out = self.tile(&Coords::zero(), layout);
        proof {
            assert forall|p: Point| out.layout.covers(p) implies #[trigger] out.at(p) == moved(
                *self,
            )(p) by {
                assert(p.plus(origin()) == p);
            }
        }
        out
    }

    /// Moves the values between the slices of each cluster, into another layout.
    pub fn shuffle(&self, layout: Layout) -> (out: Tensor)
        requires
            self.wf(),
            layout.wf(),
            same_cluster(self.layout, layout),
        ensures
            out.is(self.format, layout),
            out.blank_padding(),
            out.holds(moved(*self)),
    {
        self.relayout(layout)
    }

    /// Broadcasts the values inside rings of `ring` neighbouring slices, into another layout.
    pub fn switch(&self, layout: Layout, ring: usize) -> (out: Tensor)
        requires
            self.wf(),
            layout.wf(),
            same_cluster(self.layout, layout),
            0 < ring,
            ring_local(self.layout, layout, ring as int),
        ensures
            out.is(self.format, layout),
            out.blank_padding(),
            out.holds(moved(*self)),
    {
        self.relayout(layout)
    }

    /// Cuts a tile out: moves the values into another layout, reading each from `shift` further on.
    pub fn tile(&self, shift: &Coords, layout: Layout) -> (out: Tensor)
        requires
            self.wf(),
            layout.wf(),
            shift@.within(REACH_LIMIT as int),
        ensures
            out.is(self.format, layout),
            out.blank_padding(),
            out.holds(shifted(*self, shift@)),
    {
        let n: usize = layout.cells();
        let t = layout.last();
        let ghost f = shifted(*self, shift@);
        let mut data: Vec<u32> = Vec::with_capacity(n);
        proof {
            lemma_tail(layout);
        }
        while data.len() < n
            invariant
                self.wf(),
                layout.wf(),
                shift@.within(REACH_LIMIT as int),
                t == layout.tail(),
                0 < t.len,
                n == layout.volume(),
                data@.len() <= n,
                data@.len() as int % (t.len as int) == 0,
                f == shifted(*self, shift@),
                blank(layout, data@),
                filled(layout, data@, f),
            decreases n - data@.len(),
        {
            let run = self.read_tail(&layout, data.len(), t, shift);
            fill_run(&mut data, &layout, t, run);
        }
        let out = Tensor { format: self.format, layout, data };
        proof {
            lemma_filled(out, f);
        }
        out
    }

    /// Keeps only the bits of `mask` of every value.
    pub fn mask(&self, mask: u32, layout: Layout) -> (out: Tensor)
        requires
            self.wf(),
            layout.wf(),
        ensures
            out.is(self.format, layout),
            out.blank_padding(),
            out.holds(masked(*self, mask)),
    {
        let whole = self.relayout(layout);
        let data = keep_bits(&whole.data, mask);
        let out = Tensor { format: whole.format, layout: whole.layout, data };
        proof {
            assert(0u32 & mask == 0) by (bit_vector);
            assert forall|p: Point| out.layout.covers(p) implies #[trigger] out.at(p) == masked(
                *self,
                mask,
            )(p) by {
                lemma_position(out.layout, p);
                assert(whole.at(p) == self.at(p));
            }
        }
        out
    }

    /// Asks for `op` on every value and the operand.
    fn apply<F: Fn(Op, Vec<u32>, Vec<u32>) -> u32>(
        &self,
        alu: &F,
        op: Op,
        with: Operand<'_>,
        format: Format,
        layout: Layout,
    ) -> (out: Tensor)
        requires
            total(*alu),
            with.suits(op),
            self.wf(),
            layout.wf(),
        ensures
            out.is(format, layout),
            out.blank_padding(),
            forall|g: Arith| #[trigger]
                computes(*alu, g) ==> out.holds(with.answers(g, op, *self)),
    {
        let n: usize = layout.cells();
        let t = layout.last();
        let zero = Coords::zero();
        let mut data: Vec<u32> = Vec::with_capacity(n);
        proof {
            lemma_tail(layout);
        }
        while data.len() < n
            invariant
                total(*alu),
                with.suits(op),
                self.wf(),
                layout.wf(),
                zero@ == origin(),
                t == layout.tail(),
                0 < t.len,
                n == layout.volume(),
                data@.len() <= n,
                data@.len() as int % (t.len as int) == 0,
                blank(layout, data@),
                forall|g: Arith| #[trigger]
                    computes(*alu, g) ==> filled(layout, data@, with.answers(g, op, *self)),
            decreases n - data@.len(),
        {
            let run = match self.read_tail(&layout, data.len(), t, &zero) {
                None => None,
                Some(values) => match with {
                    Operand::Nothing => Some(ask_each(alu, op, &values)),
                    Operand::Value(k) => Some(ask_each_with(alu, op, &values, k)),
                    Operand::Cells(other) => match other.read_tail(&layout, data.len(), t, &zero) {
                        None => None,
                        Some(others) => Some(ask_pairs(alu, op, &values, &others)),
                    },
                },
            };
            let ghost n = data@.len() as int;
            proof {
                assert forall|k: int| #![trigger only(t.axis, k * t.div)] layout.coordinate(n).plus(
                    only(t.axis, k * t.div),
                ).plus(origin()) == layout.coordinate(n).plus(only(t.axis, k * t.div)) by {}
                assert forall|g: Arith| #[trigger] computes(*alu, g) implies (
                run matches Some(answers) ==> fits_run(
                    layout,
                    n,
                    with.answers(g, op, *self),
                    answers@,
                )) by {}
            }
            fill_run(&mut data, &layout, t, run);
        }
        let out = Tensor { format, layout, data };
        proof {
            assert forall|g: Arith| #[trigger] computes(*alu, g) implies out.holds(
                with.answers(g, op, *self),
            ) by {
                lemma_filled(out, with.answers(g, op, *self));
            }
        }
        out
    }

    /// Asks for `op` on every value.
    pub fn map<F: Fn(Op, Vec<u32>, Vec<u32>) -> u32>(
        &self,
        alu: &F,
        op: Op,
        format: Format,
        layout: Layout,
    ) -> (out: Tensor)
        requires
            total(*alu),
            op.shape() == Shape::One,
            self.wf(),
            layout.wf(),
        ensures
            out.is(format, layout),
            out.blank_padding(),
            forall|g: Arith| #[trigger] computes(*alu, g) ==> out.holds(mapped(g, op, *self)),
    {
        self.apply(alu, op, Operand::Nothing, format, layout)
    }

    /// Asks for `op` on every value and the value `k`.
    pub fn map_with<F: Fn(Op, Vec<u32>, Vec<u32>) -> u32>(
        &self,
        alu: &F,
        op: Op,
        k: u32,
        format: Format,
        layout: Layout,
    ) -> (out: Tensor)
        requires
            total(*alu),
            op.shape() == Shape::Two,
            self.wf(),
            layout.wf(),
        ensures
            out.is(format, layout),
            out.blank_padding(),
            forall|g: Arith| #[trigger] computes(*alu, g) ==> out.holds(scaled(g, op, *self, k)),
    {
        self.apply(alu, op, Operand::Value(k), format, layout)
    }

    /// Asks for `op` on the values of both tensors at every point. An axis that the other tensor
    /// lacks gets the same value throughout.
    pub fn zip<F: Fn(Op, Vec<u32>, Vec<u32>) -> u32>(
        &self,
        alu: &F,
        op: Op,
        other: &Tensor,
        format: Format,
        layout: Layout,
    ) -> (out: Tensor)
        requires
            total(*alu),
            op.shape() == Shape::Two,
            self.wf(),
            other.wf(),
            layout.wf(),
        ensures
            out.is(format, layout),
            out.blank_padding(),
            forall|g: Arith| #[trigger]
                computes(*alu, g) ==> out.holds(paired(g, op, *self, *other)),
    {
        self.apply(alu, op, Operand::Cells(other), format, layout)
    }

    /// The values of `n` cells from that of `c` on, where steps of `div` along an axis go from one
    /// cell to the next.
    fn read_run(&self, c: &Coords, axis: Axis, div: usize, n: usize) -> (v: Vec<u32>)
        requires
            self.wf(),
            0 < n,
            consecutive(self.layout, c@, axis, div as int, n as int),
        ensures
            v@.len() == n,
            forall|k: int|
                0 <= k < n ==> #[trigger] v@[k] == self.at(c@.plus(only(axis, k * div))),
    {
        let start: usize = self.layout.locate(c);
        let mut v: Vec<u32> = Vec::with_capacity(n);
        let mut k: usize = 0;
        while k < n
            invariant
                self.wf(),
                k <= n,
                start == self.layout.position(c@),
                consecutive(self.layout, c@, axis, div as int, n as int),
                v@.len() == k,
                forall|j: int|
                    0 <= j < k ==> #[trigger] v@[j] == self.at(c@.plus(only(axis, j * div))),
            decreases n - k,
        {
            proof {
                let p = c@.plus(only(axis, k * div));
                lemma_position(self.layout, p);
                assert(self.layout.position(p) == start + k);
            }
            v.push(self.data[start + k]);
            k = k + 1;
        }
        v
    }

    /// The values at `c` and at the steps of a factor from there on.
    fn read_steps(&self, c: &Coords, t: Term) -> (v: Vec<u32>)
        requires
            self.wf(),
            t.wf(),
            t.len == t.padded,
            c@.within(3 * REACH_LIMIT),
        ensures
            v@.len() == t.len,
            forall|k: int|
                0 <= k < t.len ==> #[trigger] v@[k] == self.at(
                    c@.plus(only(t.axis, k * t.div)),
                ),
    {
        if self.layout.runs(c, t.axis, t.div, t.len) {
            proof {
                lemma_steady(self.layout, c@, t.axis, t.div as int, t.len as int);
            }
            return self.read_run(c, t.axis, t.div, t.len);
        }
        let mut v: Vec<u32> = Vec::with_capacity(t.len);
        let mut k: usize = 0;
        while k < t.len
            invariant
                self.wf(),
                t.wf(),
                t.len == t.padded,
                c@.within(3 * REACH_LIMIT),
                k <= t.len,
                v@.len() == k,
                forall|j: int|
                    0 <= j < k ==> #[trigger] v@[j] == self.at(
                        c@.plus(only(t.axis, j * t.div)),
                    ),
            decreases t.len - k,
        {
            proof {
                assert(0 <= k * t.div <= t.div * t.padded) by (nonlinear_arith)
                    requires
                        0 <= k < t.padded,
                        0 < t.div,
                ;
            }
            v.push(self.read(&c.plus(&Coords::on(t.axis, k * t.div))));
            k = k + 1;
        }
        v
    }

    /// The values that a run of the last factor of `layout` takes, read `shift` further on, or
    /// nothing where the run is padding.
    fn read_tail(&self, layout: &Layout, i: usize, t: Term, shift: &Coords) -> (r: Option<Vec<u32>>)
        requires
            self.wf(),
            layout.wf(),
            i < layout.volume(),
            t == layout.tail(),
            shift@.within(2 * REACH_LIMIT),
        ensures
            r is Some <==> layout.live(i as int),
            r matches Some(v) ==> {
                &&& v@.len() == t.len
                &&& forall|k: int|
                    0 <= k < t.len ==> #[trigger] v@[k] == self.at(
                        layout.coordinate(i as int).plus(only(t.axis, k * t.div)).plus(shift@),
                    )
            },
    {
        match layout.decode(i) {
            None => None,
            Some(c) => {
                proof {
                    lemma_tail(*layout);
                }
                let v = self.read_steps(&c.plus(shift), t);
                proof {
                    assert forall|k: int| 0 <= k < t.len implies #[trigger] v@[k] == self.at(
                        c@.plus(only(t.axis, k * t.div)).plus(shift@),
                    ) by {
                        let d = only(t.axis, k * t.div);
                        assert(c@.plus(shift@).plus(d) == c@.plus(d).plus(shift@));
                    }
                }
                Some(v)
            },
        }
    }

    /// The values at the points that lie `across` further on than `c`.
    fn gather(&self, across: &Layout, c: &Coords) -> (v: Vec<u32>)
        requires
            self.wf(),
            across.wf(),
            across.dense(),
            c@.within(2 * REACH_LIMIT),
        ensures
            v@ == row(*self, *across, c@),
    {
        let t = across.last();
        let n: usize = across.cells();
        proof {
            lemma_tail(*across);
        }
        let mut v: Vec<u32> = Vec::with_capacity(n);
        let mut i: usize = 0;
        while i < n
            invariant
                self.wf(),
                across.wf(),
                across.dense(),
                c@.within(2 * REACH_LIMIT),
                t == across.tail(),
                0 < t.len,
                n == across.volume(),
                i <= n,
                i as int % (t.len as int) == 0,
                v@.len() == i,
                forall|j: int|
                    0 <= j < i ==> #[trigger] v@[j] == self.at(c@.plus(across.coordinate(j))),
            decreases n - i,
        {
            proof {
                lemma_dense_live(*across, i as int);
                lemma_next_run(*across, i as int);
            }
            let ghost before = v@;
            if let Some(mut run) = self.read_tail(across, i, t, c) {
                let ghost cells = run@;
                v.append(&mut run);
                proof {
                    assert forall|j: int| 0 <= j < i + t.len implies #[trigger] v@[j] == self.at(
                        c@.plus(across.coordinate(j)),
                    ) by {
                        if j >= i {
                            let d = only(t.axis, (j - i) * t.div);
                            lemma_tail_run(*across, i as int, j - i);
                            assert(v@[j] == cells[j - i]);
                            assert(across.coordinate(i as int).plus(d).plus(c@) == c@.plus(
                                across.coordinate(j),
                            ));
                        } else {
                            assert(v@[j] == before[j]);
                        }
                    }
                }
            }
            i = i + t.len;
        }
        assert(v@ =~= row(*self, *across, c@));
        v
    }

    /// Asks for the reduction `op` of the values across `across`.
    pub fn reduce<F: Fn(Op, Vec<u32>, Vec<u32>) -> u32>(
        &self,
        alu: &F,
        op: Op,
        across: &Layout,
        format: Format,
        layout: Layout,
    ) -> (out: Tensor)
        requires
            total(*alu),
            op.shape() == Shape::List,
            self.wf(),
            layout.wf(),
            across.wf(),
            across.dense(),
        ensures
            out.is(format, layout),
            out.blank_padding(),
            forall|g: Arith| #[trigger]
                computes(*alu, g) ==> out.holds(reduced(g, op, *self, *across)),
    {
        let n: usize = layout.cells();
        let mut data: Vec<u32> = Vec::new();
        let mut i: usize = 0;
        proof {
            lemma_volume_positive(*across);
        }
        while i < n
            invariant
                total(*alu),
                op.shape() == Shape::List,
                self.wf(),
                layout.wf(),
                across.wf(),
                across.dense(),
                0 < across.volume(),
                n == layout.volume(),
                i <= n,
                data@.len() == i,
                blank(layout, data@),
                forall|g: Arith| #[trigger]
                    computes(*alu, g) ==> filled(
                        layout,
                        data@,
                        reduced(g, op, *self, *across),
                    ),
            decreases n - i,
        {
            let v: u32 = match layout.decode(i) {
                None => 0,
                Some(c) => ask_fold(alu, op, self.gather(across, &c)),
            };
            proof {
                assert forall|g: Arith| #[trigger] computes(*alu, g) implies filled(
                    layout,
                    data@.push(v),
                    reduced(g, op, *self, *across),
                ) by {
                    lemma_fill(layout, data@, reduced(g, op, *self, *across), v);
                }
            }
            data.push(v);
            i = i + 1;
        }
        let out = Tensor { format, layout, data };
        proof {
            assert forall|g: Arith| #[trigger] computes(*alu, g) implies out.holds(
                reduced(g, op, *self, *across),
            ) by {
                lemma_filled(out, reduced(g, op, *self, *across));
            }
        }
        out
    }

    /// Asks for the contraction `op` of the values with those of the other tensor
    /// across `across`.
    pub fn contract<F: Fn(Op, Vec<u32>, Vec<u32>) -> u32>(
        &self,
        alu: &F,
        op: Op,
        other: &Tensor,
        across: &Layout,
        format: Format,
        layout: Layout,
    ) -> (out: Tensor)
        requires
            total(*alu),
            op.shape() == Shape::Lists,
            self.wf(),
            layout.wf(),
            other.wf(),
            across.wf(),
            across.dense(),
        ensures
            out.is(format, layout),
            out.blank_padding(),
            forall|g: Arith| #[trigger]
                computes(*alu, g) ==> out.holds(contracted(g, op, *self, *other, *across)),
    {
        let n: usize = layout.cells();
        let mut data: Vec<u32> = Vec::new();
        let mut i: usize = 0;
        proof {
            lemma_volume_positive(*across);
        }
        while i < n
            invariant
                total(*alu),
                op.shape() == Shape::Lists,
                self.wf(),
                layout.wf(),
                other.wf(),
                across.wf(),
                across.dense(),
                0 < across.volume(),
                n == layout.volume(),
                i <= n,
                data@.len() == i,
                blank(layout, data@),
                forall|g: Arith| #[trigger]
                    computes(*alu, g) ==> filled(
                        layout,
                        data@,
                        contracted(g, op, *self, *other, *across),
                    ),
            decreases n - i,
        {
            let v: u32 = match layout.decode(i) {
                None => 0,
                Some(c) => ask(
                    alu,
                    op,
                    self.gather(across, &c),
                    other.gather(across, &c),
                ),
            };
            proof {
                assert forall|g: Arith| #[trigger] computes(*alu, g) implies filled(
                    layout,
                    data@.push(v),
                    contracted(g, op, *self, *other, *across),
                ) by {
                    let f = contracted(g, op, *self, *other, *across);
                    lemma_fill(layout, data@, f, v);
                }
            }
            data.push(v);
            i = i + 1;
        }
        let out = Tensor { format, layout, data };
        proof {
            assert forall|g: Arith| #[trigger] computes(*alu, g) implies out.holds(
                contracted(g, op, *self, *other, *across),
            ) by {
                lemma_filled(out, contracted(g, op, *self, *other, *across));
            }
        }
        out
    }

    /// Writes a tile into the window of the tensor that it is for.
    pub fn commit(&mut self, tile: &Tensor, window: Window)
        requires
            old(self).wf(),
            tile.wf(),
            0 < window.span,
        ensures
            final(self).is(old(self).format, old(self).layout),
            final(self).holds(merged(*old(self), *tile, window)),
            forall|i: int|
                0 <= i < old(self).data@.len() && !old(self).layout.live(i)
                    ==> #[trigger] final(self).data@[i] == old(self).data@[i],
    {
        let n: usize = self.layout.cells();
        let ghost before = *self;
        let ghost f = merged(*self, *tile, window);
        let mut i: usize = 0;
        while i < n
            invariant
                tile.wf(),
                0 < window.span,
                before.wf(),
                self.format == before.format,
                self.layout == before.layout,
                self.data@.len() == before.data@.len(),
                n == before.layout.volume(),
                i <= n,
                f == merged(before, *tile, window),
                forall|j: int| i <= j < n ==> #[trigger] self.data@[j] == before.data@[j],
                forall|j: int|
                    0 <= j < n && !before.layout.live(j) ==> #[trigger] self.data@[j]
                        == before.data@[j],
                forall|p: Point|
                    before.layout.covers(p) && 0 <= #[trigger] before.layout.position(p) < i
                        ==> self.data@[before.layout.position(p)] == f(p),
            decreases n - i,
        {
            let ghost cells = self.data@;
            match self.layout.decode(i) {
                None => {},
                Some(c) => {
                    let digit: usize = c.get(window.axis) % window.span;
                    if window.start <= digit && digit - window.start < window.len {
                        proof {
                            assert(digit <= c@.get(window.axis)) by (nonlinear_arith)
                                requires
                                    digit == c@.get(window.axis) % (window.span as int),
                                    0 <= c@.get(window.axis),
                                    0 < window.span,
                            ;
                        }
                        let v: u32 = tile.read(&c.back(window.axis, window.start));
                        self.data.set(i, v);
                    }
                },
            }
            proof {
                assert forall|p: Point|
                    before.layout.covers(p) && 0 <= #[trigger] before.layout.position(p) < i
                        + 1 implies self.data@[before.layout.position(p)] == f(p) by {
                    lemma_position(before.layout, p);
                    if before.layout.position(p) < i {
                        assert(self.data@[before.layout.position(p)]
                            == cells[before.layout.position(p)]);
                    } else {
                        assert(before.layout.coordinate(i as int) == p);
                        assert(cells[i as int] == before.at(p));
                    }
                }
            }
            i = i + 1;
        }
        proof {
            assert forall|p: Point| self.layout.covers(p) implies #[trigger] self.at(p) == f(p) by {
                lemma_position(self.layout, p);
            }
        }
    }
}

/// The values at its points fix a tensor of which every padding cell is blank, where each other
/// cell is that of a point.
pub proof fn law_values_fix_the_tensor(a: Tensor, b: Tensor)
    requires
        a.wf(),
        b.is(a.format, a.layout),
        a.blank_padding(),
        b.blank_padding(),
        forall|p: Point| #[trigger] a.layout.covers(p) ==> a.at(p) == b.at(p),
        forall|i: int|
            0 <= i < a.layout.volume() && #[trigger] a.layout.live(i) ==> a.layout.covers(
                a.layout.coordinate(i),
            ) && a.layout.position(a.layout.coordinate(i)) == i,
    ensures
        a.data@ == b.data@,
{
    assert forall|i: int| 0 <= i < a.data@.len() implies #[trigger] a.data@[i] == b.data@[i] by {
        if a.layout.live(i) {
            let p = a.layout.coordinate(i);
            assert(a.layout.covers(p));
            assert(a.at(p) == b.at(p));
        } else {
            assert(b.data@[i] == 0);
        }
    }
    assert(a.data@ =~= b.data@);
}

} // verus!
