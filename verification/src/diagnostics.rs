//! Kernels that only exercise the processor.
use crate::layout::{lemma_two_digits, only, Axis, Layout};
use crate::places::{digit, single};
use crate::tensor::{Format, Tensor, Window};
use vstd::prelude::*;

verus! {

/// Sixteen words in a row.
#[verifier::allow_in_spec]
pub fn words() -> Layout
    returns
        digit(Axis::Word, 1, 16, Layout::End),
{
    digit(Axis::Word, 1, 16, Layout::End)
}

proof fn lemma_words(i: int)
    requires
        0 <= i < 16,
    ensures
        words().wf(),
        words().volume() == 16,
        single(words()).wf(),
        words().covers(only(Axis::Word, i)),
        words().position(only(Axis::Word, i)) == i,
        single(words()).covers(only(Axis::Word, i)),
{
    reveal_with_fuel(Layout::volume, 8);
    reveal_with_fuel(Layout::reach, 8);
    reveal_with_fuel(Layout::terms_wf, 8);
    reveal_with_fuel(Layout::kept, 8);
    reveal_with_fuel(Layout::position, 3);
    lemma_two_digits(i, 1, 16);
}

/// Copies 32 bytes from the large memory to the data memory and back.
pub fn warmup_copy(input: &Tensor, output: &mut Tensor)
    requires
        input.is(Format::Bf16, words()),
        old(output).is(Format::Bf16, words()),
    ensures
        final(output).is(Format::Bf16, words()),
        final(output).data@ == input.data@,
{
    proof {
        lemma_words(0);
    }
    let value = input.relayout(single(words()));
    let window = Window { axis: Axis::Word, span: 16, start: 0, len: 16 };
    output.commit(&value, window);
    proof {
        assert forall|i: int| 0 <= i < 16 implies #[trigger] output.data@[i] == input.data@[i] by {
            let p = only(Axis::Word, i);
            lemma_words(i);
            assert(window.local(p) == p);
            assert(output.at(p) == value.at(p));
            assert(value.at(p) == input.at(p));
        }
        assert(output.data@ =~= input.data@);
    }
}

} // verus!
