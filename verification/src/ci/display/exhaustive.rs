//! The report of a run once it is over: for each job, the mark of how it
//! ended and what each of its instructions printed.
use vstd::prelude::*;
use crate::ci::clean::{cleaned, try_cleanup};
use crate::ci::display::CiDisplayConfig;
use crate::ci::display::ansi_control_sequence::{ResetChar, UnderlineChar, escape};
use crate::ci::job::{Output, Progress};
use crate::text::copy_str;
use vstd::string::StrSliceExecFns;

verus! {

/// A text with four spaces after each line break, so that its lines are
/// indented under the first.
pub open spec fn indented(s: Seq<char>) -> Seq<char>
    decreases s.len(),
{
    if s.len() == 0 {
        Seq::empty()
    } else {
        indented(s.drop_last()) + if s.last() == '\n' { "\n    "@ } else { seq![s.last()] }
    }
}

/// The text with four spaces after each line break.
pub fn indent_lines(s: &str) -> (r: String)
    ensures
        r@ == indented(s@),
{
    let chars = crate::text::chars_of(s);
    let mut r = String::new();
    let mut i: usize = 0;
    while i < chars.len()
        invariant
            i <= chars.len(),
            chars@ == s@,
            r@ == indented(s@.take(i as int)),
        decreases chars.len() - i,
    {
        proof {
            assert(s@.take(i + 1).drop_last() =~= s@.take(i as int));
            assert(s@.take(i + 1).last() == chars@[i as int]);
        }
        if chars[i] == '\n' {
            r.append("\n    ");
        } else {
            let piece = s.substring_char(i, i + 1);
            proof {
                assert(piece@ =~= seq![chars@[i as int]]);
            }
            r.append(piece);
        }
        i = i + 1;
    }
    assert(s@.take(chars.len() as int) =~= s@);
    r
}

/// The mark and the text of a job's report, so far.
pub type Report = (Seq<char>, Seq<char>);

/// What one step adds to the report of the job `name`: a cancellation sets
/// the mark; a skip, a run instruction (with what it printed, tidied) or the
/// end of the job add their lines, the end setting the mark too.
pub open spec fn report_step(acc: Report, p: Progress, name: Seq<char>, ok: Seq<char>, ko: Seq<char>, cancelled: Seq<char>) -> Report {
    match p {
        Progress::Cancelled => (cancelled, acc.1),
        Progress::Skipped => (acc.0, acc.1 + "  job was skipped\n"@),
        Progress::Partial(instruction, out) => match out {
            Output::Success(stdout, stderr) => (acc.0, acc.1 + "  "@ + ok + " "@ + instruction@ + "\n"@
                + cleaned("  "@ + indented(cleaned(stdout@)) + "\n  "@ + cleaned(indented(stderr@)))),
            Output::JobError(stdout, stderr) => (acc.0, acc.1 + "  "@ + ko + " "@ + instruction@ + "\n"@
                + cleaned("  "@ + indented(cleaned(stdout@)) + "\n  "@ + cleaned(indented(stderr@)))),
            Output::ProcessError(stderr) => (acc.0, acc.1 + "  "@ + ko + " "@ + instruction@ + ": "@
                + indented(cleaned(stderr@))),
        },
        Progress::Terminated(success) => {
            let mark = if success { ok } else { ko };
            (mark, acc.1 + "  "@ + mark + " "@ + seq![escape()] + "[4m"@ + "all tasks done for job "@ + name
                + seq![escape()] + "[0m"@ + "\n"@)
        },
        _ => acc,
    }
}

/// The report of the job `name` from its steps, in order, from no mark and
/// no text.
pub open spec fn report(steps: Seq<Progress>, name: Seq<char>, ok: Seq<char>, ko: Seq<char>, cancelled: Seq<char>) -> Report
    decreases steps.len(),
{
    if steps.len() == 0 {
        (Seq::empty(), Seq::empty())
    } else {
        report_step(report(steps.drop_last(), name, ok, ko, cancelled), steps.last(), name, ok, ko, cancelled)
    }
}

/// The output of a run instruction, tidied: its standard output, then its
/// error output, each indented under the first line.
fn output_text(stdout: &str, stderr: &str) -> (r: String)
    ensures
        r@ == cleaned("  "@ + indented(cleaned(stdout@)) + "\n  "@ + cleaned(indented(stderr@))),
{
    let out = indent_lines(try_cleanup(stdout).as_str());
    let err = try_cleanup(indent_lines(stderr).as_str());
    let mut both = copy_str("  ");
    both.append(out.as_str());
    both.append("\n  ");
    both.append(err.as_str());
    try_cleanup(both.as_str())
}

/// The mark and the text of the report of the job `job_name` (see `report`).
pub fn job_report(job_name: &str, progresses: &Vec<Progress>, config: &CiDisplayConfig) -> (r: (String, String))
    ensures
        (r.0@, r.1@) == report(progresses@, job_name@, config.ok@, config.ko@, config.cancelled@),
{
    let ghost ok = config.ok@;
    let ghost ko = config.ko@;
    let ghost cancelled = config.cancelled@;
    let mut icon = String::new();
    let mut text = String::new();
    let mut i: usize = 0;
    while i < progresses.len()
        invariant
            i <= progresses.len(),
            ok == config.ok@,
            ko == config.ko@,
            cancelled == config.cancelled@,
            (icon@, text@) == report(progresses@.take(i as int), job_name@, ok, ko, cancelled),
        decreases progresses.len() - i,
    {
        proof {
            assert(progresses@.take(i + 1).drop_last() =~= progresses@.take(i as int));
            assert(progresses@.take(i + 1).last() == progresses@[i as int]);
        }
        match &progresses[i] {
            Progress::Cancelled => {
                icon = config.cancelled.clone();
            },
            Progress::Skipped => {
                text.append("  job was skipped\n");
            },
            Progress::Partial(instruction, job_output) => match job_output {
                Output::Success(stdout, stderr) => {
                    text.append("  ");
                    text.append(config.ok.as_str());
                    text.append(" ");
                    text.append(instruction.as_str());
                    text.append("\n");
                    let printed = output_text(stdout.as_str(), stderr.as_str());
                    text.append(printed.as_str());
                },
                Output::JobError(stdout, stderr) => {
                    text.append("  ");
                    text.append(config.ko.as_str());
                    text.append(" ");
                    text.append(instruction.as_str());
                    text.append("\n");
                    let printed = output_text(stdout.as_str(), stderr.as_str());
                    text.append(printed.as_str());
                },
                Output::ProcessError(stderr) => {
                    text.append("  ");
                    text.append(config.ko.as_str());
                    text.append(" ");
                    text.append(instruction.as_str());
                    text.append(": ");
                    let printed = indent_lines(try_cleanup(stderr.as_str()).as_str());
                    text.append(printed.as_str());
                },
            },
            Progress::Terminated(success) => {
                let mark = if *success { config.ok.clone() } else { config.ko.clone() };
                text.append("  ");
                text.append(mark.as_str());
                text.append(" ");
                text.append(UnderlineChar().sequence().as_str());
                text.append("all tasks done for job ");
                text.append(job_name);
                text.append(ResetChar().sequence().as_str());
                text.append("\n");
                icon = mark;
            },
            _ => {},
        }
        proof {
            assert((icon@, text@) =~= report(progresses@.take(i + 1), job_name@, ok, ko, cancelled));
        }
        i = i + 1;
    }
    assert(progresses@.take(progresses.len() as int) =~= progresses@);
    (icon, text)
}

/// The last line of the report: the mark and the word of how the run ended.
pub fn run_status(has_failed: bool, config: &CiDisplayConfig) -> (r: (String, String))
    ensures
        r.0@ == if has_failed { config.ko@ } else { config.ok@ },
        r.1@ == if has_failed { "failed"@ } else { "succeeded"@ },
{
    if has_failed {
        (config.ko.clone(), copy_str("failed"))
    } else {
        (config.ok.clone(), copy_str("succeeded"))
    }
}

} // verus!
