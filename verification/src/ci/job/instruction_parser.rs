//! Instructions cut into words, one instruction after the other.
use vstd::prelude::*;
use crate::names::names_view;
use crate::text::{copy_strings, split_on, split_on_of};

verus! {

/// Hands out the instructions one by one, each cut into its words.
pub struct InstructionParser {
    instructions: Vec<String>,
    current_index: usize,
}

impl InstructionParser {
    /// The instructions.
    pub closed spec fn instructions(&self) -> Seq<Seq<char>> {
        names_view(self.instructions@)
    }

    /// How many have been handed out.
    pub closed spec fn handed_out(&self) -> nat {
        self.current_index as nat
    }

    /// A parser of `instructions`, from the first.
    pub fn new<E>(_envbag: &E, instructions: &Vec<String>) -> (r: Self)
        ensures
            r.instructions() == names_view(instructions@),
            r.handed_out() == 0,
    {
        Self { instructions: copy_strings(instructions.as_slice()), current_index: 0 }
    }

    /// The words of the next instruction (what lies between its spaces), if
    /// one is left.
    pub fn next(&mut self) -> (r: Option<Vec<String>>)
        requires
            old(self).handed_out() <= old(self).instructions().len(),
        ensures
            final(self).instructions() == old(self).instructions(),
            final(self).handed_out() <= final(self).instructions().len(),
            old(self).handed_out() < old(self).instructions().len() ==> final(self).handed_out() == old(self).handed_out() + 1
                && r is Some && names_view(r.unwrap()@) == split_on(old(self).instructions()[old(self).handed_out() as int], ' '),
            old(self).handed_out() == old(self).instructions().len() ==> r is None && final(self).handed_out() == old(self).handed_out(),
    {
        if self.current_index < self.instructions.len() {
            self.current_index = self.current_index + 1;
            let word_list = split_on_of(self.instructions[self.current_index - 1].as_str(), ' ');
            Some(word_list)
        } else {
            None
        }
    }
}

} // verus!
