//! A text that scrolls line by line, or by the hundredth of its lines.
use vstd::prelude::*;

verus! {

/// The number of line breaks of a text.
pub open spec fn breaks(s: Seq<char>) -> nat
    decreases s.len(),
{
    if s.len() == 0 {
        0
    } else {
        breaks(s.drop_last()) + if s.last() == '\n' { 1nat } else { 0nat }
    }
}

/// The number of lines of a text, as `str::lines` counts them: a line ends
/// at each line break, and a last line without one counts too.
pub open spec fn line_count(s: Seq<char>) -> nat {
    breaks(s) + if s.len() > 0 && s.last() != '\n' { 1nat } else { 0nat }
}

/// A text has no more line breaks than characters.
proof fn lemma_breaks_bound(s: Seq<char>)
    ensures
        breaks(s) <= s.len(),
    decreases s.len(),
{
    if s.len() > 0 {
        lemma_breaks_bound(s.drop_last());
    }
}

/// The step of a scroll: the hundredth of the lines, at least one.
pub open spec fn scroll_step(lc: u16) -> int {
    if lc / 100 > 1 { (lc / 100) as int } else { 1 }
}

/// A text with the line it is scrolled to.
#[derive(Debug)]
pub struct StatefulText {
    pub scroll: u16,
    pub text: String,
    lc: u16,
}

impl Clone for StatefulText {
    fn clone(&self) -> (r: Self)
        ensures
            r.scroll_at() == self.scroll_at(),
            r.text_view() == self.text_view(),
            r.line_total() == self.line_total(),
    {
        StatefulText { scroll: self.scroll, text: self.text.clone(), lc: self.lc }
    }
}

impl StatefulText {
    /// The line the text is scrolled to.
    pub closed spec fn scroll_at(&self) -> u16 {
        self.scroll
    }

    /// The text.
    pub closed spec fn text_view(&self) -> Seq<char> {
        self.text@
    }

    /// The number of lines, cut to 16 bits.
    pub closed spec fn line_total(&self) -> u16 {
        self.lc
    }

    /// The text, scrolled to its first line.
    pub fn with_text(text: String) -> (r: Self)
        ensures
            r.scroll_at() == 0,
            r.text_view() == text@,
            r.line_total() == (line_count(text@) as u16),
    {
        let chars = crate::text::chars_of(text.as_str());
        let mut count: usize = 0;
        let mut i: usize = 0;
        while i < chars.len()
            invariant
                i <= chars.len(),
                chars@ == text@,
                count as nat == breaks(text@.take(i as int)),
                count <= i,
            decreases chars.len() - i,
        {
            proof {
                assert(text@.take(i + 1).drop_last() =~= text@.take(i as int));
                assert(text@.take(i + 1).last() == chars@[i as int]);
            }
            if chars[i] == '\n' {
                count = count + 1;
            }
            i = i + 1;
        }
        proof {
            assert(text@.take(chars.len() as int) =~= text@);
        }
        if chars.len() > 0 && chars[chars.len() - 1] != '\n' {
            proof {
                lemma_breaks_bound(text@.drop_last());
                assert(breaks(text@) == breaks(text@.drop_last()));
            }
            count = count + 1;
        }
        let lc = count as u16;
        Self { scroll: 0, text, lc }
    }

    /// Scrolls down by a step, back to the top after the last line.
    pub fn next(&mut self)
        requires
            old(self).scroll_at() < old(self).line_total() ==> old(self).scroll_at() + scroll_step(old(self).line_total()) <= u16::MAX,
        ensures
            final(self).text_view() == old(self).text_view(),
            final(self).line_total() == old(self).line_total(),
            final(self).scroll_at() == if old(self).scroll_at() >= old(self).line_total() {
                0
            } else {
                old(self).scroll_at() + scroll_step(old(self).line_total())
            },
    {
        let step: u16 = if self.lc / 100 > 1 { self.lc / 100 } else { 1 };
        self.scroll = if self.scroll >= self.lc { 0 } else { self.scroll + step };
    }

    /// Scrolls up by a step, to the last line from the top.
    pub fn previous(&mut self)
        requires
            old(self).scroll_at() == 0 ==> old(self).line_total() >= 1,
            old(self).scroll_at() != 0 ==> old(self).scroll_at() >= scroll_step(old(self).line_total()),
        ensures
            final(self).text_view() == old(self).text_view(),
            final(self).line_total() == old(self).line_total(),
            final(self).scroll_at() == if old(self).scroll_at() == 0 {
                old(self).line_total() - 1
            } else {
                old(self).scroll_at() - scroll_step(old(self).line_total())
            },
    {
        let step: u16 = if self.lc / 100 > 1 { self.lc / 100 } else { 1 };
        self.scroll = if self.scroll == 0 { self.lc - 1 } else { self.scroll - step };
    }
}

} // verus!
