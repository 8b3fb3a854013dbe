//! The terminal's control sequences: those that underline text and end it,
//! and those that take back lines written.
use vstd::prelude::*;
use crate::text::copy_str;

verus! {

/// The escape character that starts a control sequence.
pub open spec fn escape() -> char {
    '\u{1b}'
}

/// Starts underlined text.
pub struct UnderlineChar();

impl UnderlineChar {
    /// The control sequence: escape, then `[4m`.
    pub fn sequence(&self) -> (r: String)
        ensures
            r@ == seq![escape()] + "[4m"@,
    {
        let r = copy_str("\u{1b}[4m");
        proof {
            reveal_strlit("\u{1b}[4m");
            reveal_strlit("[4m");
            assert(r@ =~= seq![escape()] + "[4m"@);
        }
        r
    }
}

/// Ends any styling of the text.
pub struct ResetChar();

impl ResetChar {
    /// The control sequence: escape, then `[0m`.
    pub fn sequence(&self) -> (r: String)
        ensures
            r@ == seq![escape()] + "[0m"@,
    {
        let r = copy_str("\u{1b}[0m");
        proof {
            reveal_strlit("\u{1b}[0m");
            reveal_strlit("[0m");
            assert(r@ =~= seq![escape()] + "[0m"@);
        }
        r
    }
}

/// The decimal digit `d`, for `d` under ten.
pub open spec fn digit_char(d: nat) -> char {
    if d == 0 {
        '0'
    } else if d == 1 {
        '1'
    } else if d == 2 {
        '2'
    } else if d == 3 {
        '3'
    } else if d == 4 {
        '4'
    } else if d == 5 {
        '5'
    } else if d == 6 {
        '6'
    } else if d == 7 {
        '7'
    } else if d == 8 {
        '8'
    } else {
        '9'
    }
}

/// The decimal digits of `n`, the most significant first, as `usize`'s
/// `to_string` writes them.
pub open spec fn decimal(n: nat) -> Seq<char>
    decreases n,
{
    if n < 10 {
        seq![digit_char(n)]
    } else {
        decimal(n / 10).push(digit_char(n % 10))
    }
}

/// The text of the decimal digit `d`.
fn digit_text(d: usize) -> (r: &'static str)
    requires
        d < 10,
    ensures
        r@ == seq![digit_char(d as nat)],
{
    if d == 0 {
        proof {
            reveal_strlit("0");
        }
        "0"
    } else if d == 1 {
        proof {
            reveal_strlit("1");
        }
        "1"
    } else if d == 2 {
        proof {
            reveal_strlit("2");
        }
        "2"
    } else if d == 3 {
        proof {
            reveal_strlit("3");
        }
        "3"
    } else if d == 4 {
        proof {
            reveal_strlit("4");
        }
        "4"
    } else if d == 5 {
        proof {
            reveal_strlit("5");
        }
        "5"
    } else if d == 6 {
        proof {
            reveal_strlit("6");
        }
        "6"
    } else if d == 7 {
        proof {
            reveal_strlit("7");
        }
        "7"
    } else if d == 8 {
        proof {
            reveal_strlit("8");
        }
        "8"
    } else {
        proof {
            reveal_strlit("9");
        }
        "9"
    }
}

/// Writes the decimal digits of `n` at the end of `out`.
fn push_decimal(out: &mut String, n: usize)
    ensures
        final(out)@ == old(out)@ + decimal(n as nat),
    decreases n,
{
    if n >= 10 {
        push_decimal(out, n / 10);
    }
    let ghost before = out@;
    out.append(digit_text(n % 10));
    proof {
        if n < 10 {
            assert(n % 10 == n);
            assert(out@ =~= old(out)@ + decimal(n as nat));
        } else {
            assert(out@ =~= old(out)@ + decimal(n as nat));
        }
    }
}

/// The sequence that moves the cursor `lines` lines up: escape, `[`, the
/// number, then `A`.
pub fn rewind_sequence(lines: usize) -> (r: String)
    ensures
        r@ == seq![escape(), '['] + decimal(lines as nat) + seq!['A'],
{
    let mut r = copy_str("\u{1b}[");
    proof {
        reveal_strlit("\u{1b}[");
    }
    push_decimal(&mut r, lines);
    r.append("A");
    proof {
        reveal_strlit("A");
        assert(r@ =~= seq![escape(), '['] + decimal(lines as nat) + seq!['A']);
    }
    r
}

/// The sequence that takes back what was written, `lines` whole lines and
/// `chars` characters on the last: nothing when nothing was written; else the
/// cursor moved `lines` lines up (`rewind_sequence`), then the screen cleared
/// from there to its end (escape, then `[0J`).
pub fn clear_sequence(lines: usize, chars: usize) -> (r: String)
    ensures
        r@ == if lines == 0 && chars == 0 {
            Seq::<char>::empty()
        } else {
            seq![escape(), '['] + decimal(lines as nat) + seq!['A'] + seq![escape()] + "[0J"@
        },
{
    if lines == 0 && chars == 0 {
        return String::new();
    }
    let mut r = rewind_sequence(lines);
    r.append("\u{1b}[0J");
    proof {
        reveal_strlit("\u{1b}[0J");
        reveal_strlit("[0J");
        assert(r@ =~= seq![escape(), '['] + decimal(lines as nat) + seq!['A'] + seq![escape()] + "[0J"@);
    }
    r
}

} // verus!
