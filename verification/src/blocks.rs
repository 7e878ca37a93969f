//! Rows of 4-bit weights in blocks of sixteen, contracted with values in two parts.
//!
//! Every block of sixteen weights has a scale of its own, and every group of 960 values has a
//! scale for its high parts and one for its low parts.
use crate::engine::{computes, fold, one, total, two, Arith, Op};
use crate::layout::{at_hl, lemma_three_digits, lemma_two_digits, only, Axis, Coords, Layout, Point};
use crate::places::{digit, down_columns, lemma_steps, up_k_rows, FEED, HIDDEN};
use crate::quantize::with_part;
use crate::tensor::{mapped, moved, row, Format, Tensor, Window};
use vstd::arithmetic::div_mod::{lemma_fundamental_div_mod_converse, lemma_mod_bound};
use vstd::prelude::*;

verus! {

/// 4-bit weights as 8-bit floats.
pub open spec fn decoded_f4(g: Arith, weights: Seq<u32>) -> Seq<u32> {
    Seq::new(weights.len(), |k: int| one(g, Op::LookupF4AsF8, weights[k]))
}

/// The contraction of block `b` of a row, times the scale of the block and that of the values.
pub open spec fn block(
    g: Arith,
    weights: Seq<u32>,
    scales: Seq<u32>,
    x: Seq<u32>,
    x_scales: Seq<u32>,
    b: int,
) -> u32 {
    let products = g(
        Op::ContractF8,
        Seq::new(16, |k: int| weights[16 * b + k]),
        Seq::new(16, |k: int| x[16 * b + k]),
    );
    two(
        g,
        Op::Multiply,
        two(g, Op::Multiply, products, one(g, Op::WidenF8, scales[b])),
        x_scales[b / 60],
    )
}

/// The total of all blocks of a row.
pub open spec fn blocks_total(
    g: Arith,
    weights: Seq<u32>,
    scales: Seq<u32>,
    x: Seq<u32>,
    x_scales: Seq<u32>,
) -> u32 {
    fold(
        g,
        Op::TotalInSlice,
        Seq::new(scales.len(), |b: int| block(g, weights, scales, x, x_scales, b)),
    )
}

/// The two shapes of weight matrices, and how their rows and columns lie in the slices.
#[derive(Clone, Copy, PartialEq, Eq, Structural, Debug)]
pub enum Matrix {
    /// A row per feed-forward feature, thirty to a slice, with all hidden features in it.
    Up,
    /// A row per hidden feature, fifteen to a slice, with half of the feed-forward features in it.
    Down,
}

impl Matrix {
    /// A layout whose first factors choose the slice.
    #[verifier::allow_in_spec]
    pub fn lay(self, rest: Layout) -> Layout
        returns
            (match self {
                Matrix::Up => up_k_rows(rest),
                Matrix::Down => down_columns(rest),
            }),
    {
        match self {
            Matrix::Up => up_k_rows(rest),
            Matrix::Down => down_columns(rest),
        }
    }

    /// The axis of the rows.
    #[verifier::allow_in_spec]
    pub fn row_axis(self) -> Axis
        returns
            (match self {
                Matrix::Up => Axis::L,
                Matrix::Down => Axis::H,
            }),
    {
        match self {
            Matrix::Up => Axis::L,
            Matrix::Down => Axis::H,
        }
    }

    /// The axis along which a row runs.
    #[verifier::allow_in_spec]
    pub fn run_axis(self) -> Axis
        returns
            (match self {
                Matrix::Up => Axis::H,
                Matrix::Down => Axis::L,
            }),
    {
        match self {
            Matrix::Up => Axis::H,
            Matrix::Down => Axis::L,
        }
    }

    /// Number of rows in a slice.
    #[verifier::allow_in_spec]
    pub fn rows(self) -> usize
        returns
            (match self {
                Matrix::Up => 30usize,
                Matrix::Down => 15usize,
            }),
    {
        match self {
            Matrix::Up => 30,
            Matrix::Down => 15,
        }
    }

    /// Number of rows that are contracted at a time; five such tiles make up a slice.
    #[verifier::allow_in_spec]
    pub fn tile_rows(self) -> usize
        returns
            (match self {
                Matrix::Up => 6usize,
                Matrix::Down => 3usize,
            }),
    {
        match self {
            Matrix::Up => 6,
            Matrix::Down => 3,
        }
    }

    /// Number of weights of a row in a slice.
    #[verifier::allow_in_spec]
    pub fn span(self) -> usize
        returns
            (match self {
                Matrix::Up => 3840usize,
                Matrix::Down => 7680usize,
            }),
    {
        match self {
            Matrix::Up => 3840,
            Matrix::Down => 7680,
        }
    }

    /// Number of blocks of a row in a slice.
    #[verifier::allow_in_spec]
    pub fn blocks(self) -> usize
        returns
            (match self {
                Matrix::Up => 240usize,
                Matrix::Down => 480usize,
            }),
    {
        match self {
            Matrix::Up => 240,
            Matrix::Down => 480,
        }
    }

    /// Number of groups of values of a row in a slice.
    #[verifier::allow_in_spec]
    pub fn groups(self) -> usize
        returns
            (match self {
                Matrix::Up => 4usize,
                Matrix::Down => 8usize,
            }),
    {
        match self {
            Matrix::Up => 4,
            Matrix::Down => 8,
        }
    }

    /// Row `r` has a slice that begins with column `start`.
    pub open spec fn has(self, r: int, start: int) -> bool {
        match self {
            Matrix::Up => 0 <= r < FEED && start == 0,
            Matrix::Down => 0 <= r < HIDDEN && (start == 0 || start == 7680),
        }
    }

    /// The point of column `k` of row `r`.
    pub open spec fn spot(self, r: int, k: int) -> Point {
        match self {
            Matrix::Up => at_hl(k, r),
            Matrix::Down => at_hl(r, k),
        }
    }

    /// The layout of the weights.
    #[verifier::allow_in_spec]
    pub fn weights(self) -> Layout
        returns
            self.lay(
                digit(
                    self.row_axis(),
                    1,
                    self.rows(),
                    digit(self.run_axis(), 1, self.span(), Layout::End),
                ),
            ),
    {
        self.lay(
            digit(
                self.row_axis(),
                1,
                self.rows(),
                digit(self.run_axis(), 1, self.span(), Layout::End),
            ),
        )
    }

    /// The layout of the scales of the blocks.
    #[verifier::allow_in_spec]
    pub fn scales(self) -> Layout
        returns
            self.lay(
                digit(
                    self.row_axis(),
                    1,
                    self.rows(),
                    digit(self.run_axis(), 16, self.blocks(), Layout::End),
                ),
            ),
    {
        self.lay(
            digit(
                self.row_axis(),
                1,
                self.rows(),
                digit(self.run_axis(), 16, self.blocks(), Layout::End),
            ),
        )
    }

    /// The layout of the parts of the values.
    #[verifier::allow_in_spec]
    pub fn parts(self) -> Layout
        returns
            self.lay(
                digit(Axis::Part, 1, 2, digit(self.run_axis(), 1, self.span(), Layout::End)),
            ),
    {
        self.lay(digit(Axis::Part, 1, 2, digit(self.run_axis(), 1, self.span(), Layout::End)))
    }

    /// The layout of the scales of the parts.
    #[verifier::allow_in_spec]
    pub fn part_scales(self) -> Layout
        returns
            self.lay(
                digit(self.run_axis(), 960, self.groups(), digit(Axis::Part, 1, 2, Layout::End)),
            ),
    {
        self.lay(digit(self.run_axis(), 960, self.groups(), digit(Axis::Part, 1, 2, Layout::End)))
    }

    /// The layout of the totals of the rows.
    #[verifier::allow_in_spec]
    pub fn totals(self) -> Layout
        returns
            self.lay(digit(self.row_axis(), 1, self.rows(), digit(Axis::Part, 1, 2, Layout::End))),
    {
        self.lay(digit(self.row_axis(), 1, self.rows(), digit(Axis::Part, 1, 2, Layout::End)))
    }

    /// The weights of row `r` from column `start` on.
    pub open spec fn weight_row(self, t: Tensor, r: int, start: int) -> Seq<u32> {
        Seq::new(self.span() as nat, |k: int| t.at(self.spot(r, start + k)))
    }

    /// The scales of the blocks of row `r` from column `start` on.
    pub open spec fn scale_row(self, t: Tensor, r: int, start: int) -> Seq<u32> {
        Seq::new(self.blocks() as nat, |b: int| t.at(self.spot(r, start + 16 * b)))
    }

    /// The parts that row `r` meets from column `start` on.
    pub open spec fn part_row(self, t: Tensor, r: int, start: int, part: int) -> Seq<u32> {
        Seq::new(self.span() as nat, |k: int| t.at(with_part(self.spot(r, start + k), part)))
    }

    /// The scales of the parts that row `r` meets from column `start` on.
    pub open spec fn part_scale_row(self, t: Tensor, r: int, start: int, part: int) -> Seq<u32> {
        Seq::new(
            self.groups() as nat,
            |i: int| t.at(with_part(self.spot(r, start + 960 * i), part)),
        )
    }

    /// The total of row `r` from column `start` on, for one part.
    pub open spec fn row_total(
        self,
        g: Arith,
        x: Tensor,
        x_scales: Tensor,
        weight: Tensor,
        scale: Tensor,
        r: int,
        start: int,
        part: int,
    ) -> u32 {
        blocks_total(
            g,
            decoded_f4(g, self.weight_row(weight, r, start)),
            self.scale_row(scale, r, start),
            self.part_row(x, r, start, part),
            self.part_scale_row(x_scales, r, start, part),
        )
    }
}

/// A tile of rows, and what each of them holds.
#[verifier::allow_in_spec]
fn tile_of(m: Matrix, rest: Layout) -> Layout
    returns
        m.lay(digit(m.row_axis(), 1, m.tile_rows(), rest)),
{
    m.lay(digit(m.row_axis(), 1, m.tile_rows(), rest))
}

/// The weights of one row.
#[verifier::allow_in_spec]
fn run_of(m: Matrix) -> Layout
    returns
        digit(m.run_axis(), 1, m.span(), Layout::End),
{
    digit(m.run_axis(), 1, m.span(), Layout::End)
}

/// The blocks of one row.
#[verifier::allow_in_spec]
fn blocks_of(m: Matrix) -> Layout
    returns
        digit(m.run_axis(), 16, m.blocks(), Layout::End),
{
    digit(m.run_axis(), 16, m.blocks(), Layout::End)
}

/// The high and the low parts, and what each of them holds.
#[verifier::allow_in_spec]
fn parts_of(rest: Layout) -> Layout
    returns
        digit(Axis::Part, 1, 2, rest),
{
    digit(Axis::Part, 1, 2, rest)
}

proof fn lemma_matrix_wf(m: Matrix)
    ensures
        m.weights().wf(),
        m.totals().wf(),
        tile_of(m, run_of(m)).wf(),
        tile_of(m, blocks_of(m)).wf(),
        tile_of(m, parts_of(blocks_of(m))).wf(),
        tile_of(m, parts_of(Layout::End)).wf(),
        digit(m.run_axis(), 1, 16, Layout::End).wf(),
        digit(m.run_axis(), 1, 16, Layout::End).dense(),
        blocks_of(m).wf(),
        blocks_of(m).dense(),
{
    reveal_with_fuel(Layout::volume, 8);
    reveal_with_fuel(Layout::reach, 8);
    reveal_with_fuel(Layout::terms_wf, 8);
    reveal_with_fuel(Layout::dense, 8);
    match m {
        Matrix::Up => {},
        Matrix::Down => {},
    }
    assert(m.weights().wf());
    assert(m.totals().wf());
    assert(tile_of(m, run_of(m)).wf());
    assert(tile_of(m, blocks_of(m)).wf());
    assert(tile_of(m, parts_of(blocks_of(m))).wf());
    assert(tile_of(m, parts_of(Layout::End)).wf());
}

proof fn lemma_row_covers(m: Matrix, r: int, start: int, k: int, part: int)
    requires
        m.has(r, start),
        0 <= k < m.span(),
        0 <= part < 2,
    ensures
        m.weights().covers(m.spot(r, start + k)),
        m.totals().covers(with_part(m.spot(r, start), part)),
{
    reveal_with_fuel(Layout::kept, 8);
    lemma_two_digits(part, 1, 2);
    match m {
        Matrix::Up => {
            lemma_three_digits(r, 30, 256, 7680, 2);
            lemma_two_digits(k, 1, 3840);
            assert(m.weights().covers(m.spot(r, start + k)));
        },
        Matrix::Down => {
            lemma_three_digits(r, 15, 128, 1920, 2);
            lemma_two_digits(start + k, 7680, 2);
            lemma_two_digits(start, 7680, 2);
            assert(m.weights().covers(m.spot(r, start + k)));
        },
    }
}

proof fn lemma_tile_covers(m: Matrix, r: int, start: int, k: int)
    requires
        m.has(r, start),
        r % (m.rows() as int) < m.tile_rows(),
        0 <= k < m.span(),
    ensures
        tile_of(m, run_of(m)).covers(m.spot(r, start + k)),
{
    reveal_with_fuel(Layout::kept, 8);
    match m {
        Matrix::Up => {
            lemma_three_digits(r, 30, 256, 7680, 2);
            lemma_two_digits(k, 1, 3840);
            lemma_fundamental_div_mod_converse(r, 6, 5 * (r / 30), r % 30);
            assert(tile_of(m, run_of(m)).covers(m.spot(r, start + k)));
        },
        Matrix::Down => {
            lemma_three_digits(r, 15, 128, 1920, 2);
            lemma_two_digits(start + k, 7680, 2);
            lemma_fundamental_div_mod_converse(r, 3, 5 * (r / 15), r % 15);
            assert(tile_of(m, run_of(m)).covers(m.spot(r, start + k)));
        },
    }
}

proof fn lemma_tile_blocks_covers(m: Matrix, r: int, start: int, b: int, part: int)
    requires
        m.has(r, start),
        r % (m.rows() as int) < m.tile_rows(),
        0 <= b < m.blocks(),
        0 <= part < 2,
    ensures
        tile_of(m, blocks_of(m)).covers(m.spot(r, start + 16 * b)),
        tile_of(m, parts_of(blocks_of(m))).covers(with_part(m.spot(r, start + 16 * b), part)),
        tile_of(m, parts_of(Layout::End)).covers(with_part(m.spot(r, start), part)),
{
    reveal_with_fuel(Layout::kept, 8);
    lemma_two_digits(part, 1, 2);
    match m {
        Matrix::Up => {
            lemma_three_digits(r, 30, 256, 7680, 2);
            lemma_two_digits(16 * b, 16, 240);
            lemma_fundamental_div_mod_converse(r, 6, 5 * (r / 30), r % 30);
            assert(tile_of(m, blocks_of(m)).covers(m.spot(r, start + 16 * b)));
        },
        Matrix::Down => {
            lemma_three_digits(r, 15, 128, 1920, 2);
            lemma_three_digits(start + 16 * b, 16, 480, 7680, 2);
            lemma_two_digits(start, 7680, 2);
            lemma_fundamental_div_mod_converse(r, 3, 5 * (r / 15), r % 15);
            assert(tile_of(m, blocks_of(m)).covers(m.spot(r, start + 16 * b)));
        },
    }
}

/// A row meets the same parts and scales as any other row of its slice.
pub(crate) proof fn lemma_same_slice(m: Matrix, r: int, s: int, start: int, k: int, part: int)
    requires
        m.has(r, start),
        m.has(s, start),
        s <= r,
        r - s <= r % (m.rows() as int),
    ensures
        m.parts().position(with_part(m.spot(r, start + k), part)) == m.parts().position(
            with_part(m.spot(s, start + k), part),
        ),
        m.part_scales().position(with_part(m.spot(r, start + k), part)) == m.part_scales().position(
            with_part(m.spot(s, start + k), part),
        ),
{
    reveal_with_fuel(Layout::position, 8);
    match m {
        Matrix::Up => {
            lemma_two_digits(r, 30, 512);
            lemma_two_digits(r, 7680, 2);
            lemma_fundamental_div_mod_converse(s, 30, r / 30, s - 30 * (r / 30));
            assert(s / 30 == r / 30);
            assert(s / 7680 == r / 7680);
        },
        Matrix::Down => {
            lemma_two_digits(r, 15, 256);
            lemma_two_digits(r, 1920, 2);
            lemma_fundamental_div_mod_converse(s, 15, r / 15, s - 15 * (r / 15));
            assert(s / 15 == r / 15);
            assert(s / 1920 == r / 1920);
        },
    }
}

/// A group scale is that of every block of the group.
proof fn lemma_block_scale(m: Matrix, r: int, start: int, b: int, part: int)
    requires
        m.has(r, start),
        0 <= b < m.blocks(),
    ensures
        m.part_scales().position(with_part(m.spot(r, start + 16 * b), part))
            == m.part_scales().position(with_part(m.spot(r, start + 960 * (b / 60)), part)),
        0 <= b / 60 < m.groups(),
{
    reveal_with_fuel(Layout::position, 8);
    let i = b / 60;
    match m {
        Matrix::Up => {
            lemma_fundamental_div_mod_converse(16 * b, 960, i, 16 * (b % 60));
            lemma_fundamental_div_mod_converse(960 * i, 960, i, 0);
        },
        Matrix::Down => {
            let j = start / 960;
            lemma_fundamental_div_mod_converse(start + 16 * b, 960, j + i, 16 * (b % 60));
            lemma_fundamental_div_mod_converse(start + 960 * i, 960, j + i, 0);
            lemma_two_digits(start + 16 * b, 7680, 2);
            lemma_two_digits(start + 960 * i, 7680, 2);
        },
    }
}

/// Weights and their scales are the same for both parts.
proof fn lemma_no_part(m: Matrix, p: Point, part: int)
    ensures
        tile_of(m, run_of(m)).position(with_part(p, part)) == tile_of(m, run_of(m)).position(p),
        tile_of(m, blocks_of(m)).position(with_part(p, part)) == tile_of(
            m,
            blocks_of(m),
        ).position(p),
{
    reveal_with_fuel(Layout::position, 8);
    match m {
        Matrix::Up => {
            assert(tile_of(m, run_of(m)).position(with_part(p, part)) == tile_of(
                m,
                run_of(m),
            ).position(p));
        },
        Matrix::Down => {
            assert(tile_of(m, run_of(m)).position(with_part(p, part)) == tile_of(
                m,
                run_of(m),
            ).position(p));
        },
    }
}

/// The row that stands `offset` rows earlier in the same slice.
proof fn lemma_earlier_row(m: Matrix, r: int, start: int, offset: int)
    requires
        m.has(r, start),
        0 <= offset <= r % (m.rows() as int),
    ensures
        m.has(r - offset, start),
        (r - offset) % (m.rows() as int) == r % (m.rows() as int) - offset,
{
    match m {
        Matrix::Up => {
            lemma_fundamental_div_mod_converse(r - offset, 30, r / 30, r % 30 - offset);
        },
        Matrix::Down => {
            lemma_fundamental_div_mod_converse(r - offset, 15, r / 15, r % 15 - offset);
        },
    }
}

/// The totals of the rows of one tile, which begins with row `offset` of every slice.
fn contract_tile<F: Fn(Op, Vec<u32>, Vec<u32>) -> u32>(
    alu: &F,
    m: Matrix,
    x: &Tensor,
    x_scales: &Tensor,
    native: &Tensor,
    scale: &Tensor,
    offset: usize,
) -> (out: Tensor)
    requires
        total(*alu),
        x.is(Format::F8, m.parts()),
        x_scales.is(Format::F32, m.part_scales()),
        native.is(Format::F8, m.weights()),
        scale.is(Format::F8, m.scales()),
        offset + m.tile_rows() <= m.rows(),
    ensures
        out.is(Format::F32, tile_of(m, parts_of(Layout::End))),
        out.blank_padding(),
        forall|g: Arith, r: int, start: int, part: int|
            #![trigger computes(*alu, g), m.part_row(*x, r, start, part)]
            computes(*alu, g) && m.has(r, start) && 0 <= part < 2 && offset <= r % (
            m.rows() as int) < offset + m.tile_rows() ==> out.at(
                with_part(m.spot(r - offset, start), part),
            ) == blocks_total(
                g,
                m.weight_row(*native, r, start),
                m.scale_row(*scale, r, start),
                m.part_row(*x, r, start, part),
                m.part_scale_row(*x_scales, r, start, part),
            ),
{
    proof {
        lemma_matrix_wf(m);
    }
    let shift = Coords::on(m.row_axis(), offset);
    let tile = native.tile(&shift, tile_of(m, run_of(m)));
    let scale_tile = scale.tile(&shift, tile_of(m, blocks_of(m)));
    let block_scale = scale_tile.map(
        alu,
        Op::WidenF8,
        Format::F32,
        tile_of(m, blocks_of(m)),
    );
    let products = tile.contract(
        alu,
        Op::ContractF8,
        x,
        &digit(m.run_axis(), 1, 16, Layout::End),
        Format::F32,
        tile_of(m, parts_of(blocks_of(m))),
    );
    let weighed = products.zip(
        alu,
        Op::Multiply,
        &block_scale,
        Format::F32,
        tile_of(m, parts_of(blocks_of(m))),
    );
    let scaled = weighed.zip(
        alu,
        Op::Multiply,
        x_scales,
        Format::F32,
        tile_of(m, parts_of(blocks_of(m))),
    );
    let out = scaled.reduce(
        alu,
        Op::TotalInSlice,
        &blocks_of(m),
        Format::F32,
        tile_of(m, parts_of(Layout::End)),
    );
    proof {
        assert forall|g: Arith, r: int, start: int, part: int|
            #![trigger computes(*alu, g), m.part_row(*x, r, start, part)]
            computes(*alu, g) && m.has(r, start) && 0 <= part < 2 && offset <= r % (
            m.rows() as int) < offset + m.tile_rows() implies out.at(
            with_part(m.spot(r - offset, start), part),
        ) == blocks_total(
            g,
            m.weight_row(*native, r, start),
            m.scale_row(*scale, r, start),
            m.part_row(*x, r, start, part),
            m.part_scale_row(*x_scales, r, start, part),
        ) by {
            let s = r - offset;
            let w = m.weight_row(*native, r, start);
            let ws = m.scale_row(*scale, r, start);
            let xp = m.part_row(*x, r, start, part);
            let xs = m.part_scale_row(*x_scales, r, start, part);
            let across = blocks_of(m);
            let inner = digit(m.run_axis(), 1, 16, Layout::End);
            let top = with_part(m.spot(s, start), part);
            lemma_earlier_row(m, r, start, offset as int);
            lemma_steps(m.run_axis(), 16, m.blocks(), 0);
            lemma_steps(m.run_axis(), 1, 16, 0);
            lemma_tile_blocks_covers(m, s, start, 0, part);
            let totals = Seq::new(ws.len(), |b: int| block(g, w, ws, xp, xs, b));
            assert(row(scaled, across, top) =~= totals) by {
                assert forall|b: int| 0 <= b < m.blocks() implies #[trigger] row(
                    scaled,
                    across,
                    top,
                )[b] == totals[b] by {
                    let c = start + 16 * b;
                    let p = with_part(m.spot(s, c), part);
                    lemma_steps(m.run_axis(), 16, m.blocks(), b);
                    assert(top.plus(only(m.run_axis(), b * 16)) == p);
                    lemma_tile_blocks_covers(m, s, start, b, part);
                    lemma_no_part(m, m.spot(s, c), part);
                    lemma_block_scale(m, s, start, b, part);
                    lemma_same_slice(m, r, s, start, 960 * (b / 60), part);
                    assert(scaled.at(p) == two(g, Op::Multiply, weighed.at(p), x_scales.at(p)));
                    assert(x_scales.at(p) == xs[b / 60]);
                    assert(weighed.at(p) == two(
                        g,
                        Op::Multiply,
                        products.at(p),
                        block_scale.at(p),
                    ));
                    assert(block_scale.at(m.spot(s, c)) == one(
                        g,
                        Op::WidenF8,
                        scale_tile.at(m.spot(s, c)),
                    ));
                    assert(m.spot(s, c).plus(shift@) == m.spot(r, c));
                    assert(scale_tile.at(m.spot(s, c)) == ws[b]);
                    let left = Seq::new(16, |k: int| w[16 * b + k]);
                    let right = Seq::new(16, |k: int| xp[16 * b + k]);
                    assert forall|k: int|
                        #![trigger left[k]]
                        #![trigger right[k]]
                        0 <= k < 16 implies row(tile, inner, p)[k] == left[k] && row(
                        *x,
                        inner,
                        p,
                    )[k] == right[k] by {
                        let j = 16 * b + k;
                        let q = m.spot(s, start + j);
                        lemma_steps(m.run_axis(), 1, 16, k);
                        assert(p.plus(only(m.run_axis(), k * 1)) == with_part(q, part));
                        lemma_tile_covers(m, s, start, j);
                        lemma_no_part(m, q, part);
                        assert(q.plus(shift@) == m.spot(r, start + j));
                        assert(tile.at(q) == native.at(m.spot(r, start + j)));
                        lemma_same_slice(m, r, s, start, j, part);
                    }
                    assert(row(tile, inner, p) =~= left);
                    assert(row(*x, inner, p) =~= right);
                    assert(products.at(p) == g(Op::ContractF8, left, right));
                }
            }
            assert(out.at(top) == fold(g, Op::TotalInSlice, row(scaled, across, top)));
        }
    }
    out
}

/// The totals of all rows, for both parts. The weights are looked up once, and the rows of every
/// slice are contracted in five tiles.
pub fn project_rows<F: Fn(Op, Vec<u32>, Vec<u32>) -> u32>(
    alu: &F,
    m: Matrix,
    x: &Tensor,
    x_scales: &Tensor,
    weight: &Tensor,
    scale: &Tensor,
) -> (out: Tensor)
    requires
        total(*alu),
        x.is(Format::F8, m.parts()),
        x_scales.is(Format::F32, m.part_scales()),
        weight.is(Format::F4, m.weights()),
        scale.is(Format::F8, m.scales()),
    ensures
        out.is(Format::F32, m.totals()),
        out.blank_padding(),
        forall|g: Arith, r: int, start: int, part: int|
            #![trigger computes(*alu, g), with_part(m.spot(r, start), part)]
            computes(*alu, g) && m.has(r, start) && 0 <= part < 2 ==> out.at(
                with_part(m.spot(r, start), part),
            ) == m.row_total(g, *x, *x_scales, *weight, *scale, r, start, part),
{
    proof {
        lemma_matrix_wf(m);
    }
    let native = weight.map(alu, Op::LookupF4AsF8, Format::F8, m.weights());
    let mut partials = Tensor::zeros(Format::F32, m.totals());
    let mut done: usize = 0;
    while done < m.rows()
        invariant
            total(*alu),
            x.is(Format::F8, m.parts()),
            x_scales.is(Format::F32, m.part_scales()),
            native.is(Format::F8, m.weights()),
            scale.is(Format::F8, m.scales()),
            forall|g: Arith| #[trigger]
                computes(*alu, g) ==> native.holds(mapped(g, Op::LookupF4AsF8, *weight)),
            done <= m.rows(),
            done % m.tile_rows() == 0,
            partials.is(Format::F32, m.totals()),
            partials.blank_padding(),
            forall|g: Arith, r: int, start: int, part: int|
                #![trigger computes(*alu, g), with_part(m.spot(r, start), part)]
                computes(*alu, g) && m.has(r, start) && 0 <= part < 2 && r % (m.rows() as int)
                    < done ==> partials.at(with_part(m.spot(r, start), part)) == m.row_total(
                    g,
                    *x,
                    *x_scales,
                    *weight,
                    *scale,
                    r,
                    start,
                    part,
                ),
        decreases m.rows() - done,
    {
        proof {
            match m {
                Matrix::Up => {},
                Matrix::Down => {},
            }
            assert(done + m.tile_rows() <= m.rows());
        }
        let ghost before = partials;
        let window = Window { axis: m.row_axis(), span: m.rows(), start: done, len: m.tile_rows() };
        let tile = contract_tile(alu, m, x, x_scales, &native, scale, done);
        partials.commit(&tile, window);
        proof {
            assert forall|g: Arith, r: int, start: int, part: int|
                #![trigger computes(*alu, g), with_part(m.spot(r, start), part)]
                computes(*alu, g) && m.has(r, start) && 0 <= part < 2 && r % (m.rows() as int)
                    < done + m.tile_rows() implies partials.at(with_part(m.spot(r, start), part))
                == m.row_total(g, *x, *x_scales, *weight, *scale, r, start, part) by {
                let p = with_part(m.spot(r, start), part);
                lemma_row_covers(m, r, start, 0, part);
                if r % (m.rows() as int) < done {
                    assert(partials.at(p) == before.at(p));
                } else {
                    assert(m.weight_row(native, r, start) =~= decoded_f4(
                        g,
                        m.weight_row(*weight, r, start),
                    )) by {
                        assert forall|k: int| 0 <= k < m.span() implies #[trigger] m.weight_row(
                            native,
                            r,
                            start,
                        )[k] == one(g, Op::LookupF4AsF8, weight.at(m.spot(r, start + k))) by {
                            lemma_row_covers(m, r, start, k, part);
                        }
                    }
                    assert(window.local(p) == with_part(m.spot(r - done, start), part));
                    assert(partials.at(p) == tile.at(window.local(p)));
                    assert(m.part_row(*x, r, start, part).len() == m.span());
                }
            }
        }
        done = done + m.tile_rows();
    }
    proof {
        assert forall|g: Arith, r: int, start: int, part: int|
            #![trigger computes(*alu, g), with_part(m.spot(r, start), part)]
            computes(*alu, g) && m.has(r, start) && 0 <= part < 2 implies partials.at(
            with_part(m.spot(r, start), part),
        ) == m.row_total(g, *x, *x_scales, *weight, *scale, r, start, part) by {
            lemma_mod_bound(r, m.rows() as int);
        }
    }
    partials
}

/// Weights that were brought to the slices are those of the matrix.
pub(crate) proof fn lemma_loaded_weights(
    m: Matrix,
    stored: Tensor,
    loaded: Tensor,
    r: int,
    start: int,
)
    requires
        loaded.layout == m.weights(),
        loaded.holds(moved(stored)),
        m.has(r, start),
    ensures
        m.weight_row(loaded, r, start) == m.weight_row(stored, r, start),
{
    assert forall|k: int| 0 <= k < m.span() implies #[trigger] m.weight_row(loaded, r, start)[k]
        == m.weight_row(stored, r, start)[k] by {
        lemma_row_covers(m, r, start, k, 0);
    }
    assert(m.weight_row(loaded, r, start) =~= m.weight_row(stored, r, start));
}

/// Scales of blocks that were brought to the slices are those of the matrix.
pub(crate) proof fn lemma_loaded_scales(
    m: Matrix,
    stored: Tensor,
    loaded: Tensor,
    r: int,
    start: int,
)
    requires
        loaded.layout == m.scales(),
        loaded.holds(moved(stored)),
        m.has(r, start),
    ensures
        m.scale_row(loaded, r, start) == m.scale_row(stored, r, start),
{
    assert forall|b: int| 0 <= b < m.blocks() implies #[trigger] m.scale_row(loaded, r, start)[b]
        == m.scale_row(stored, r, start)[b] by {
        reveal_with_fuel(Layout::kept, 8);
        let k = start + 16 * b;
        match m {
            Matrix::Up => {
                lemma_three_digits(r, 30, 256, 7680, 2);
                lemma_two_digits(k, 16, 240);
                assert(m.scales().covers(m.spot(r, k)));
            },
            Matrix::Down => {
                lemma_three_digits(r, 15, 128, 1920, 2);
                lemma_three_digits(k, 16, 480, 7680, 2);
                assert(m.scales().covers(m.spot(r, k)));
            },
        }
    }
    assert(m.scale_row(loaded, r, start) =~= m.scale_row(stored, r, start));
}

/// The five tiles of a slice cover each of its rows exactly once.
pub proof fn law_tiles_cover_each_row_once(m: Matrix, r: int)
    ensures
        ({
            let t = (r % (m.rows() as int)) / (m.tile_rows() as int);
            &&& 0 <= t < 5
            &&& forall|u: int|
                #![trigger u * m.tile_rows()]
                u * m.tile_rows() <= r % (m.rows() as int) < u * m.tile_rows() + m.tile_rows()
                    <==> u == t
        }),
{
    let j = r % (m.rows() as int);
    lemma_mod_bound(r, m.rows() as int);
    match m {
        Matrix::Up => {
            assert forall|u: int| #![trigger u * m.tile_rows()] u * m.tile_rows() <= j < u
                * m.tile_rows() + m.tile_rows() <==> u == j / 6 by {
                assert(u * m.tile_rows() == u * 6);
            }
        },
        Matrix::Down => {
            assert forall|u: int| #![trigger u * m.tile_rows()] u * m.tile_rows() <= j < u
                * m.tile_rows() + m.tile_rows() <==> u == j / 3 by {
                assert(u * m.tile_rows() == u * 3);
            }
        },
    }
}

} // verus!
