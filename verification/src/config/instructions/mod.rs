//! The passes that tidy the instructions of a job, one after the other.
use vstd::prelude::*;
use crate::config::instructions::whitespaces::{WhitespacesPass, single_spaced};
use crate::text::copy_str;

pub mod whitespaces;

verus! {

/// A pass over an instruction.
pub trait InstructionCompilerPass {
    /// What the pass makes of an instruction.
    spec fn interpreted(&self, instruction: Seq<char>) -> Seq<char>;

    /// The instruction once the pass has gone over it.
    fn interpret(&self, instruction: &str) -> (r: String)
        ensures
            r@ == self.interpreted(instruction@);
}

/// An instruction once each pass has gone over it, in order.
pub open spec fn compiled(passes: Seq<WhitespacesPass>, instruction: Seq<char>) -> Seq<char>
    decreases passes.len(),
{
    if passes.len() == 0 {
        instruction
    } else {
        passes.last().interpreted(compiled(passes.drop_last(), instruction))
    }
}

/// Runs each of its passes over an instruction, in order.
pub struct InstructionCompiler {
    passes: Vec<WhitespacesPass>,
}

impl InstructionCompiler {
    /// The number of passes.
    pub closed spec fn pass_count(&self) -> nat {
        self.passes@.len()
    }

    /// An instruction once each pass of the compiler has gone over it.
    pub closed spec fn compiled_by(&self, instruction: Seq<char>) -> Seq<char> {
        compiled(self.passes@, instruction)
    }

    /// The instruction once each pass has gone over it, in order; the
    /// instruction itself when there is no pass.
    pub fn compile(&self, instruction: &str) -> (r: String)
        ensures
            r@ == self.compiled_by(instruction@),
    {
        let mut result = copy_str(instruction);
        let mut i: usize = 0;
        while i < self.passes.len()
            invariant
                i <= self.passes.len(),
                result@ == compiled(self.passes@.take(i as int), instruction@),
            decreases self.passes.len() - i,
        {
            proof {
                assert(self.passes@.take(i + 1).drop_last() =~= self.passes@.take(i as int));
                assert(self.passes@.take(i + 1).last() == self.passes@[i as int]);
            }
            result = self.passes[i].interpret(result.as_str());
            i = i + 1;
        }
        assert(self.passes@.take(self.passes.len() as int) =~= self.passes@);
        result
    }
}

impl Default for InstructionCompiler {
    /// The compiler of one pass: the one that single-spaces the words.
    fn default() -> (r: Self)
        ensures
            r.pass_count() == 1,
            forall|instruction: Seq<char>| #[trigger] r.compiled_by(instruction) == single_spaced(instruction),
    {
        let passes: Vec<WhitespacesPass> = vec![WhitespacesPass {}];
        let r = InstructionCompiler { passes };
        assert(r.passes@.len() == 1);
        assert forall|instruction: Seq<char>| #[trigger] r.compiled_by(instruction) == single_spaced(instruction) by {
            assert(r.passes@.drop_last() =~= Seq::<WhitespacesPass>::empty());
            assert(compiled(r.passes@.drop_last(), instruction) == instruction);
        }
        r
    }
}

} // verus!
