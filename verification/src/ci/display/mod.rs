//! How the progress of a run is shown: while it runs and once it is over.
use vstd::prelude::*;
use crate::text::copy_str;

pub mod ansi_control_sequence;
pub mod browse;
pub mod exhaustive;
pub mod sequence;
pub mod spinner;
pub mod summary;
pub mod tui;

verus! {

/// What is shown while the run goes on.
#[derive(Clone, Copy, Debug, PartialEq, Eq, Structural)]
pub enum Running {
    Silent,
    Sequence,
    Summary,
}

impl Default for Running {
    fn default() -> (r: Self)
        ensures
            r == Running::Sequence,
    {
        Self::Sequence
    }
}

/// What is shown once the run is over.
#[derive(Clone, Copy, Debug, PartialEq, Eq, Structural)]
pub enum FinalDisplayMode {
    Full,
    Interactive,
    Silent,
}

impl Default for FinalDisplayMode {
    fn default() -> (r: Self)
        ensures
            r == FinalDisplayMode::Full,
    {
        Self::Full
    }
}

/// The settings of the display: the two modes, the marks of success,
/// failure and cancellation, and the frames of the spinner with the number
/// of ticks that each lasts.
#[derive(Debug)]
pub struct CiDisplayConfig {
    pub running_display: Running,
    pub final_display: FinalDisplayMode,
    pub ok: String,
    pub ko: String,
    pub cancelled: String,
    pub spinner: (Vec<String>, usize),
}

impl Clone for CiDisplayConfig {
    fn clone(&self) -> (r: Self)
        ensures
            r.running_display == self.running_display,
            r.final_display == self.final_display,
            r.ok@ == self.ok@,
            r.ko@ == self.ko@,
            r.cancelled@ == self.cancelled@,
            r.spinner.0@ == self.spinner.0@,
            r.spinner.1 == self.spinner.1,
    {
        CiDisplayConfig {
            running_display: self.running_display,
            final_display: self.final_display,
            ok: self.ok.clone(),
            ko: self.ko.clone(),
            cancelled: self.cancelled.clone(),
            spinner: (crate::text::copy_strings(self.spinner.0.as_slice()), self.spinner.1),
        }
    }
}

impl Default for CiDisplayConfig {
    fn default() -> (r: Self)
        ensures
            r.running_display == Running::Sequence,
            r.final_display == FinalDisplayMode::Full,
            r.ok@ == "✔"@,
            r.ko@ == "✕"@,
            r.cancelled@ == "✕"@,
            r.spinner.0@.map_values(|s: String| s@) == seq![".  "@, ".. "@, "..."@, ".. "@, ".  "@],
            r.spinner.1 == 80,
    {
        let mut frames: Vec<String> = Vec::new();
        frames.push(copy_str(".  "));
        frames.push(copy_str(".. "));
        frames.push(copy_str("..."));
        frames.push(copy_str(".. "));
        frames.push(copy_str(".  "));
        let r = Self {
            running_display: Running::Sequence,
            final_display: FinalDisplayMode::Full,
            ok: copy_str("✔"),
            ko: copy_str("✕"),
            cancelled: copy_str("✕"),
            spinner: (frames, 80),
        };
        assert(r.spinner.0@.map_values(|s: String| s@) =~= seq![".  "@, ".. "@, "..."@, ".. "@, ".  "@]);
        r
    }
}

/// The displays of a run: as configured on a terminal; without one, nothing
/// while it runs and the full report in place of the interactive one.
pub fn displays_for(config: &CiDisplayConfig, non_interactive: bool) -> (r: (Running, FinalDisplayMode))
    ensures
        r.0 == if non_interactive { Running::Silent } else { config.running_display },
        r.1 == if non_interactive && config.final_display == FinalDisplayMode::Interactive {
            FinalDisplayMode::Full
        } else {
            config.final_display
        },
{
    let running = if non_interactive { Running::Silent } else { config.running_display };
    let last = match config.final_display {
        FinalDisplayMode::Interactive => if non_interactive { FinalDisplayMode::Full } else { FinalDisplayMode::Interactive },
        FinalDisplayMode::Full => FinalDisplayMode::Full,
        FinalDisplayMode::Silent => FinalDisplayMode::Silent,
    };
    (running, last)
}

} // verus!
