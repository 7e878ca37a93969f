//! The arithmetic that the kernels ask for, and what an arithmetic unit answers.
//!
//! A kernel never computes on floating-point values itself. It hands bit patterns to an
//! arithmetic unit, one request at a time, and places the bit patterns that come back.
use vstd::prelude::*;

verus! {

/// One request to the arithmetic unit. Operands and answers are bit patterns.
///
/// A request has two operand lists. A request on one value takes it from the first list; a
/// request on two values takes one from each list; a reduction takes its values from the first
/// list; a contraction multiplies the two lists pairwise and adds the products up.
#[derive(Clone, Copy, PartialEq, Eq, Structural, Debug)]
pub enum Op {
    /// Widens a bfloat16 to a 32-bit float.
    WidenBf16,
    /// Widens an 8-bit float to a 32-bit float.
    WidenF8,
    /// Looks a 4-bit float up as an 8-bit float.
    LookupF4AsF8,
    /// Looks an 8-bit float up as a bfloat16.
    LookupF8AsBf16,
    /// Rounds a 32-bit float to a bfloat16.
    NarrowBf16,
    /// Rounds a 32-bit float to an 8-bit float.
    NarrowF8,
    /// Multiplies two 32-bit floats.
    Multiply,
    /// Adds two 32-bit floats.
    Sum,
    /// Subtracts the second 32-bit float from the first.
    Subtract,
    /// Divides the first 32-bit float by the second.
    Divide,
    /// The larger of two 32-bit floats.
    ClipMax,
    /// Adds two 32-bit floats in the clip stage.
    ClipSum,
    /// The error function of a 32-bit float.
    Erf,
    /// The largest of a list of 32-bit floats of one slice.
    LargestInSlice,
    /// The total of a list of 32-bit floats of one slice.
    TotalInSlice,
    /// The total of a list of 32-bit floats, one of each of several slices.
    TotalAcrossSlices,
    /// The product sum of two lists of bfloat16 values, as a 32-bit float.
    ContractBf16,
    /// The product sum of two lists of 8-bit floats, as a 32-bit float.
    ContractF8,
}

/// What an arithmetic unit computes: the answer to a request on two operand lists.
pub type Arith = spec_fn(Op, Seq<u32>, Seq<u32>) -> u32;

/// What a request takes: a value; a value and another; a list; or two lists of the same length.
#[derive(Clone, Copy, PartialEq, Eq, Structural, Debug)]
pub enum Shape {
    One,
    Two,
    List,
    Lists,
}

impl Op {
    /// What the request takes.
    pub open spec fn shape(self) -> Shape {
        match self {
            Op::WidenBf16 | Op::WidenF8 | Op::LookupF4AsF8 | Op::LookupF8AsBf16 | Op::NarrowBf16
            | Op::NarrowF8 | Op::Erf => Shape::One,
            Op::Multiply | Op::Sum | Op::Subtract | Op::Divide | Op::ClipMax | Op::ClipSum =>
                Shape::Two,
            Op::LargestInSlice | Op::TotalInSlice | Op::TotalAcrossSlices => Shape::List,
            Op::ContractBf16 | Op::ContractF8 => Shape::Lists,
        }
    }
}

/// The operand lists are those that the request takes.
pub open spec fn shaped(op: Op, a: Seq<u32>, b: Seq<u32>) -> bool {
    match op.shape() {
        Shape::One => a.len() == 1 && b.len() == 0,
        Shape::Two => a.len() == 1 && b.len() == 1,
        Shape::List => a.len() > 0 && b.len() == 0,
        Shape::Lists => a.len() > 0 && a.len() == b.len(),
    }
}

/// The unit takes every request with the operand lists that it is for.
pub open spec fn total<F: Fn(Op, Vec<u32>, Vec<u32>) -> u32>(alu: F) -> bool {
    forall|op: Op, a: Vec<u32>, b: Vec<u32>|
        shaped(op, a@, b@) ==> #[trigger] call_requires(alu, (op, a, b))
}

/// Every answer of the unit to such a request is the one that `g` gives.
pub open spec fn computes<F: Fn(Op, Vec<u32>, Vec<u32>) -> u32>(alu: F, g: Arith) -> bool {
    forall|op: Op, a: Vec<u32>, b: Vec<u32>, r: u32|
        shaped(op, a@, b@) && #[trigger] call_ensures(alu, (op, a, b), r) ==> r == g(op, a@, b@)
}

/// Asks the unit for `op` on the operand lists `a` and `b`.
pub fn ask<F: Fn(Op, Vec<u32>, Vec<u32>) -> u32>(
    alu: &F,
    op: Op,
    a: Vec<u32>,
    b: Vec<u32>,
) -> (r: u32)
    requires
        total(*alu),
        shaped(op, a@, b@),
    ensures
        forall|g: Arith| #[trigger] computes(*alu, g) ==> r == g(op, a@, b@),
{
    alu(op, a, b)
}

/// The answer to a request on one value.
pub open spec fn one(g: Arith, op: Op, a: u32) -> u32 {
    g(op, seq![a], seq![])
}

/// The answer to a request on two values.
pub open spec fn two(g: Arith, op: Op, a: u32, b: u32) -> u32 {
    g(op, seq![a], seq![b])
}

/// The answer to a reduction.
pub open spec fn fold(g: Arith, op: Op, a: Seq<u32>) -> u32 {
    g(op, a, seq![])
}

/// Asks the unit for `op` on one value.
pub fn ask_one<F: Fn(Op, Vec<u32>, Vec<u32>) -> u32>(alu: &F, op: Op, a: u32) -> (r: u32)
    requires
        total(*alu),
        op.shape() == Shape::One,
    ensures
        forall|g: Arith| #[trigger] computes(*alu, g) ==> r == one(g, op, a),
{
    let first: Vec<u32> = vec![a];
    let second: Vec<u32> = Vec::new();
    proof {
        assert(first@ =~= seq![a]);
        assert(second@ =~= seq![]);
    }
    ask(alu, op, first, second)
}

/// Asks the unit for `op` on two values.
pub fn ask_two<F: Fn(Op, Vec<u32>, Vec<u32>) -> u32>(alu: &F, op: Op, a: u32, b: u32) -> (r: u32)
    requires
        total(*alu),
        op.shape() == Shape::Two,
    ensures
        forall|g: Arith| #[trigger] computes(*alu, g) ==> r == two(g, op, a, b),
{
    let first: Vec<u32> = vec![a];
    let second: Vec<u32> = vec![b];
    proof {
        assert(first@ =~= seq![a]);
        assert(second@ =~= seq![b]);
    }
    ask(alu, op, first, second)
}

/// Asks the unit for the reduction `op` of a list.
pub fn ask_fold<F: Fn(Op, Vec<u32>, Vec<u32>) -> u32>(alu: &F, op: Op, a: Vec<u32>) -> (r: u32)
    requires
        total(*alu),
        op.shape() == Shape::List,
        a@.len() > 0,
    ensures
        forall|g: Arith| #[trigger] computes(*alu, g) ==> r == fold(g, op, a@),
{
    let second: Vec<u32> = Vec::new();
    proof {
        assert(second@ =~= seq![]);
    }
    ask(alu, op, a, second)
}

/// Asks the unit for `op` on every value of a list.
pub fn ask_each<F: Fn(Op, Vec<u32>, Vec<u32>) -> u32>(
    alu: &F,
    op: Op,
    a: &Vec<u32>,
) -> (r: Vec<u32>)
    requires
        total(*alu),
        op.shape() == Shape::One,
    ensures
        r@.len() == a@.len(),
        forall|g: Arith, k: int|
            #![trigger computes(*alu, g), r@[k]]
            computes(*alu, g) && 0 <= k < a@.len() ==> r@[k] == one(g, op, a@[k]),
{
    let n: usize = a.len();
    let mut r: Vec<u32> = Vec::with_capacity(n);
    let mut i: usize = 0;
    while i < n
        invariant
            total(*alu),
            op.shape() == Shape::One,
            n == a@.len(),
            i <= n,
            r@.len() == i,
            forall|g: Arith, k: int|
                #![trigger computes(*alu, g), r@[k]]
                computes(*alu, g) && 0 <= k < i ==> r@[k] == one(g, op, a@[k]),
        decreases n - i,
    {
        r.push(ask_one(alu, op, a[i]));
        i = i + 1;
    }
    r
}

/// Asks the unit for `op` on every value of a list and the value `b`.
pub fn ask_each_with<F: Fn(Op, Vec<u32>, Vec<u32>) -> u32>(
    alu: &F,
    op: Op,
    a: &Vec<u32>,
    b: u32,
) -> (r: Vec<u32>)
    requires
        total(*alu),
        op.shape() == Shape::Two,
    ensures
        r@.len() == a@.len(),
        forall|g: Arith, k: int|
            #![trigger computes(*alu, g), r@[k]]
            computes(*alu, g) && 0 <= k < a@.len() ==> r@[k] == two(g, op, a@[k], b),
{
    let n: usize = a.len();
    let mut r: Vec<u32> = Vec::with_capacity(n);
    let mut i: usize = 0;
    while i < n
        invariant
            total(*alu),
            op.shape() == Shape::Two,
            n == a@.len(),
            i <= n,
            r@.len() == i,
            forall|g: Arith, k: int|
                #![trigger computes(*alu, g), r@[k]]
                computes(*alu, g) && 0 <= k < i ==> r@[k] == two(g, op, a@[k], b),
        decreases n - i,
    {
        r.push(ask_two(alu, op, a[i], b));
        i = i + 1;
    }
    r
}

/// Asks the unit for `op` on the pairs of two lists of the same length.
pub fn ask_pairs<F: Fn(Op, Vec<u32>, Vec<u32>) -> u32>(
    alu: &F,
    op: Op,
    a: &Vec<u32>,
    b: &Vec<u32>,
) -> (r: Vec<u32>)
    requires
        total(*alu),
        op.shape() == Shape::Two,
        a@.len() == b@.len(),
    ensures
        r@.len() == a@.len(),
        forall|g: Arith, k: int|
            #![trigger computes(*alu, g), r@[k]]
            computes(*alu, g) && 0 <= k < a@.len() ==> r@[k] == two(g, op, a@[k], b@[k]),
{
    let n: usize = a.len();
    let mut r: Vec<u32> = Vec::with_capacity(n);
    let mut i: usize = 0;
    while i < n
        invariant
            total(*alu),
            op.shape() == Shape::Two,
            n == a@.len(),
            a@.len() == b@.len(),
            i <= n,
            r@.len() == i,
            forall|g: Arith, k: int|
                #![trigger computes(*alu, g), r@[k]]
                computes(*alu, g) && 0 <= k < i ==> r@[k] == two(g, op, a@[k], b@[k]),
        decreases n - i,
    {
        r.push(ask_two(alu, op, a[i], b[i]));
        i = i + 1;
    }
    r
}

} // verus!
