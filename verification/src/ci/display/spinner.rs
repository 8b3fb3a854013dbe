//! A spinner: frames shown one after the other, each for a number of ticks.
use vstd::prelude::*;

verus! {

/// A spinner over `frames`: the frame shown changes once `per_frame` ticks
/// have gone by, and comes back to the first after the last.
pub struct Spinner<'a> {
    ticks: usize,
    roll: usize,
    frames: &'a Vec<String>,
    current_frame: usize,
    per_frame: usize,
}

/// What a spinner is made of: the position of the frame shown, the number
/// of frames, the frames, the ticks gone by on the frame shown, and the
/// ticks that a frame lasts.
pub type SpinnerView = (nat, nat, Seq<Seq<char>>, nat, nat);

/// The spinner after `elapsed` more ticks: when the ticks on the frame
/// reach the length of a frame, the next frame is shown, from its start.
pub open spec fn ticked(s: SpinnerView, elapsed: nat) -> SpinnerView {
    if s.3 + elapsed >= s.4 {
        ((s.0 + 1) % s.1, s.1, s.2, 0, s.4)
    } else {
        (s.0, s.1, s.2, s.3 + elapsed, s.4)
    }
}

/// The spinner after one call of `tick` for each of `elapsed`, in order.
pub open spec fn ticked_all(s: SpinnerView, elapsed: Seq<nat>) -> SpinnerView
    decreases elapsed.len(),
{
    if elapsed.len() == 0 {
        s
    } else {
        ticked(ticked_all(s, elapsed.drop_last()), elapsed.last())
    }
}

/// A spinner cycles through its frames: from a new spinner, after `n` calls
/// of `tick` that each let at least a frame's length go by, the frame shown is
/// the one at `n` modulo the number of frames, from its start; and a tick
/// that leaves the ticks on the frame under a frame's length keeps the frame.
pub proof fn lemma_spinner_cycles(frames: Seq<Seq<char>>, per_frame: nat, elapsed: Seq<nat>)
    requires
        frames.len() > 0,
        forall|i: int| 0 <= i < elapsed.len() ==> #[trigger] elapsed[i] >= per_frame,
    ensures
        ticked_all((0, frames.len(), frames, 0, per_frame), elapsed)
            == ((elapsed.len() % frames.len()) as nat, frames.len(), frames, 0nat, per_frame),
        forall|s: SpinnerView, e: nat| s.3 + e < s.4 ==> #[trigger] ticked(s, e).0 == s.0,
    decreases elapsed.len(),
{
    let len = frames.len();
    if elapsed.len() == 0 {
        assert(0nat % len == 0) by {
            vstd::arithmetic::div_mod::lemma_small_mod(0, len);
        }
    } else {
        let rest = elapsed.drop_last();
        assert forall|i: int| 0 <= i < rest.len() implies #[trigger] rest[i] >= per_frame by {
            assert(rest[i] == elapsed[i]);
        }
        lemma_spinner_cycles(frames, per_frame, rest);
        assert(elapsed.last() >= per_frame);
        let m = rest.len() as int;
        assert((1 + (m % (len as int))) % (len as int) == (1 + m) % (len as int)) by {
            vstd::arithmetic::div_mod::lemma_add_mod_noop_right(1, m, len as int);
        }
        assert(m + 1 == elapsed.len());
    }
}

impl<'a> Spinner<'a> {
    /// The state of the spinner.
    pub closed spec fn view(&self) -> SpinnerView {
        (self.ticks as nat, self.roll as nat, self.frames@.map_values(|f: String| f@), self.current_frame as nat, self.per_frame as nat)
    }

    /// The frame shown is one of the frames.
    pub open spec fn wf(&self) -> bool {
        &&& self.view().1 == self.view().2.len()
        &&& (self.view().1 == 0 || self.view().0 < self.view().1)
    }

    /// The frame shown.
    pub fn current(&self) -> (r: &'a str)
        requires
            self.wf(),
            self.view().1 > 0,
        ensures
            r@ == self.view().2[self.view().0 as int],
    {
        self.frames[self.ticks].as_str()
    }

    /// A spinner on the first of `frames`, each shown for `per_frame` ticks.
    pub fn new(frames: &'a Vec<String>, per_frame: usize) -> (r: Self)
        ensures
            r.wf(),
            r.view() == (0nat, frames@.len(), frames@.map_values(|f: String| f@), 0nat, per_frame as nat),
    {
        Spinner { frames, ticks: 0, roll: frames.len(), current_frame: 0, per_frame }
    }

    /// The ticks gone by on the frame shown.
    pub fn ticks_on_frame(&self) -> (r: usize)
        ensures
            r == self.view().3,
    {
        self.current_frame
    }

    /// The number of frames.
    pub fn frame_count(&self) -> (r: usize)
        ensures
            r == self.view().1,
    {
        self.roll
    }

    /// Lets `frames` ticks go by.
    pub fn tick(&mut self, frames: usize)
        requires
            old(self).wf(),
            old(self).view().1 > 0,
            old(self).view().3 + frames <= usize::MAX,
        ensures
            final(self).wf(),
            final(self).view() == ticked(old(self).view(), frames as nat),
    {
        let up = self.current_frame + frames >= self.per_frame;
        self.ticks = if up { (self.ticks + 1) % self.roll } else { self.ticks };
        self.current_frame = if up { 0 } else { self.current_frame + frames };
    }
}

impl<'a> Clone for Spinner<'a> {
    fn clone(&self) -> (r: Self)
        ensures
            r.view() == self.view(),
    {
        Spinner {
            ticks: self.ticks,
            roll: self.roll,
            frames: self.frames,
            current_frame: self.current_frame,
            per_frame: self.per_frame,
        }
    }
}

} // verus!
