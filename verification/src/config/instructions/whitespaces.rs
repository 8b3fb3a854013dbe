//! The pass that puts one space between the words of an instruction.
use vstd::prelude::*;
use regex::Regex;
use crate::config::instructions::InstructionCompilerPass;
use crate::names::names_view;
use crate::text::{join, join_strings, trim_of, white_space, without_leading_space, without_trailing_space};

verus! {

/// A string without its leading and trailing whitespace, as `str::trim`
/// gives it.
pub open spec fn trimmed(s: Seq<char>) -> Seq<char> {
    without_trailing_space(without_leading_space(s))
}

/// The string without its leading and trailing whitespace
/// (`char::is_whitespace`), as `str::trim` gives it.
pub(crate) fn trim_str(s: &str) -> (r: &str)
    ensures
        r@ == trimmed(s@),
{
    trim_of(s)
}

/// The position of the first whitespace character of `s` at or after `i`;
/// the length of `s` when there is none.
pub open spec fn next_space(s: Seq<char>, i: int) -> int
    decreases s.len() - i,
{
    if i >= s.len() {
        s.len() as int
    } else if white_space(s[i]) {
        i
    } else {
        next_space(s, i + 1)
    }
}

/// The position of the first character of `s` at or after `i` that is not
/// whitespace; the length of `s` when there is none.
pub open spec fn next_word(s: Seq<char>, i: int) -> int
    decreases s.len() - i,
{
    if i >= s.len() {
        s.len() as int
    } else if white_space(s[i]) {
        next_word(s, i + 1)
    } else {
        i
    }
}

/// The first character that is not whitespace after a whitespace
/// character comes after it, and no further than the end.
pub proof fn lemma_next_word_after(s: Seq<char>, i: int)
    requires
        0 <= i < s.len(),
        white_space(s[i]),
    ensures
        i < next_word(s, i) <= s.len(),
    decreases s.len() - i,
{
    reveal_with_fuel(next_word, 2);
    if i + 1 < s.len() && white_space(s[i + 1]) {
        lemma_next_word_after(s, i + 1);
    }
}

/// The first whitespace character at or after `i` is no further than the end.
pub proof fn lemma_next_space_bounds(s: Seq<char>, i: int)
    requires
        0 <= i <= s.len(),
    ensures
        i <= next_space(s, i) <= s.len(),
        next_space(s, i) < s.len() ==> white_space(s[next_space(s, i)]),
    decreases s.len() - i,
{
    if i < s.len() && !white_space(s[i]) {
        lemma_next_space_bounds(s, i + 1);
    }
}

/// The pieces of a string between its runs of whitespace: what comes before
/// the first run, then the pieces of what follows that run; the string
/// itself when it has no whitespace.
pub open spec fn whitespace_pieces(s: Seq<char>) -> Seq<Seq<char>>
    decreases s.len(),
{
    let i = next_space(s, 0);
    if i >= s.len() {
        seq![s]
    } else {
        let j = next_word(s, i);
        proof {
            lemma_next_space_bounds(s, 0);
            lemma_next_word_after(s, i);
        }
        seq![s.take(i)] + whitespace_pieces(s.skip(j))
    }
}

/// `Regex::split` with the pattern `\s+` (`\s` is Unicode's `White_Space`):
/// the pieces between the runs of whitespace, an empty piece before a run at
/// the start and after one at the end.
#[verifier::external_body]
fn split_whitespace_runs(s: &str) -> (r: Vec<String>)
    ensures
        names_view(r@) == whitespace_pieces(s@),
{
    let regex = Regex::new(r"\s+").unwrap();
    regex.split(s).map(|piece| piece.to_string()).collect()
}

/// What the pass makes of an instruction: its words, trimmed of the
/// whitespace around it, with one space between each two.
pub open spec fn single_spaced(s: Seq<char>) -> Seq<char> {
    join(whitespace_pieces(trimmed(s)), " "@)
}

/// Puts one space between the words of an instruction.
pub struct WhitespacesPass {}

impl WhitespacesPass {
    /// The instruction with its words single-spaced.
    pub fn single_space(&self, instruction: &str) -> (r: String)
        ensures
            r@ == single_spaced(instruction@),
    {
        let pieces = split_whitespace_runs(trim_str(instruction));
        join_strings(&pieces, " ")
    }
}

impl InstructionCompilerPass for WhitespacesPass {
    open spec fn interpreted(&self, instruction: Seq<char>) -> Seq<char> {
        single_spaced(instruction)
    }

    fn interpret(&self, instruction: &str) -> (r: String) {
        self.single_space(instruction)
    }
}

} // verus!
