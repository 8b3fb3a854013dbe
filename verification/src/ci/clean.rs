//! Output of commands made fit to show: without trailing whitespace and
//! without the codes that clear a terminal line or move to its start.
use vstd::prelude::*;
use regex::Regex;
use vstd::string::StrSliceExecFns;
use crate::text::{trim_end_of, without_trailing_space};

verus! {

/// A string without its trailing whitespace, as `str::trim_end` gives it.
pub open spec fn trimmed_end(s: Seq<char>) -> Seq<char> {
    without_trailing_space(s)
}

/// The string without its trailing whitespace (`char::is_whitespace`), as
/// `str::trim_end` gives it.
fn trim_end(s: &str) -> (r: &str)
    ensures
        r@ == trimmed_end(s@),
{
    trim_end_of(s)
}

/// Whether the string starts with a code that clears a line (escape, `[2K`)
/// or goes to its start (escape, `[1G`).
pub open spec fn starts_with_clear_code(s: Seq<char>) -> bool {
    &&& s.len() >= 4
    &&& s[0] == '\u{1b}'
    &&& s[1] == '['
    &&& (s[2] == '2' && s[3] == 'K') || (s[2] == '1' && s[3] == 'G')
}

/// A string without the codes that clear a line or go to its start: read
/// from its start, each code found is dropped, every other character kept.
pub open spec fn without_clear_codes(s: Seq<char>) -> Seq<char>
    decreases s.len(),
{
    if s.len() == 0 {
        s
    } else if starts_with_clear_code(s) {
        without_clear_codes(s.skip(4))
    } else {
        seq![s[0]] + without_clear_codes(s.drop_first())
    }
}

/// `Regex::replace_all` of the pattern `\x1b\[(?:2K|1G)` with nothing: every
/// match, found from the start without overlap, is removed. As the codes
/// have four characters and none starts inside another, this removes them
/// as `without_clear_codes` reads them.
#[verifier::external_body]
fn remove_clear_codes(s: &str) -> (r: String)
    ensures
        r@ == without_clear_codes(s@),
{
    let regex = Regex::new("\u{1b}\\[(?:2K|1G)").unwrap();
    regex.replace_all(s, "").to_string()
}

/// What is shown of an output: nothing when it is only whitespace; else the
/// output without trailing whitespace or terminal codes, then a line break.
pub open spec fn cleaned(input: Seq<char>) -> Seq<char> {
    let c = trimmed_end(input);
    if c.len() == 0 {
        Seq::empty()
    } else {
        without_clear_codes(c) + "\n"@
    }
}

/// The output made fit to show (see `cleaned`).
pub fn try_cleanup(input: &str) -> (r: String)
    ensures
        r@ == cleaned(input@),
{
    let cleaned = trim_end(input);
    if cleaned.unicode_len() == 0 {
        String::new()
    } else {
        let mut r = remove_clear_codes(cleaned);
        r.append("\n");
        r
    }
}

} // verus!
