//! The lines of the summary shown while a run goes on: for each job a title,
//! then one line per instruction.
use vstd::prelude::*;
use crate::ci::display::CiDisplayConfig;
use crate::ci::display::sequence::{pad, padded};
use crate::ci::job::inspection::{byte_len, byte_length, InstructionState, InstructionStateView};
use crate::text::copy_str;

verus! {

/// The title of a job: its name padded to `width` and a space, then the mark
/// of its result once it has ended.
pub open spec fn title(job_name: Seq<char>, width: nat, terminated: Option<bool>, ok: Seq<char>, ko: Seq<char>) -> Seq<char> {
    padded(job_name, width) + " "@ + match terminated {
        Some(true) => ok,
        Some(false) => ko,
        None => Seq::empty(),
    }
}

/// The line of an instruction: the mark of its result, padded to as many
/// characters as the frame `spin` has bytes, once it has run; the frame
/// while it runs; then four spaces and the instruction.
pub open spec fn instruction_text(state: InstructionStateView, ok: Seq<char>, ko: Seq<char>, spin: Seq<char>) -> Seq<char> {
    match state {
        InstructionStateView::Finished(instruction, success) =>
            padded(if success { ok } else { ko }, byte_len(spin)) + "    "@ + instruction,
        InstructionStateView::Running(instruction) => spin + "    "@ + instruction,
    }
}

/// The title line of a job.
pub fn title_line(job_name: &str, width: usize, terminated: Option<bool>, config: &CiDisplayConfig) -> (r: String)
    ensures
        r@ == title(job_name@, width as nat, terminated, config.ok@, config.ko@),
{
    let mut line = pad(job_name, width);
    line.append(" ");
    match terminated {
        Some(true) => line.append(config.ok.as_str()),
        Some(false) => line.append(config.ko.as_str()),
        None => {},
    }
    proof {
        reveal_strlit(" ");
        assert(line@ =~= title(job_name@, width as nat, terminated, config.ok@, config.ko@));
    }
    line
}

/// The line of an instruction, with the frame `spin` of the spinner.
pub fn instruction_line(state: &InstructionState, config: &CiDisplayConfig, spin: &str) -> (r: String)
    ensures
        r@ == instruction_text(state@, config.ok@, config.ko@, spin@),
{
    let mut line = match state {
        InstructionState::Finished(_, success) => {
            let mark = if *success { config.ok.as_str() } else { config.ko.as_str() };
            pad(mark, byte_length(spin))
        },
        InstructionState::Running(_) => copy_str(spin),
    };
    line.append("    ");
    match state {
        InstructionState::Finished(instruction, _) => line.append(instruction.as_str()),
        InstructionState::Running(instruction) => line.append(instruction.as_str()),
    }
    proof {
        reveal_strlit("    ");
        assert(line@ =~= instruction_text(state@, config.ok@, config.ko@, spin@));
    }
    line
}

} // verus!
