//! The line shown for a job while a run goes on.
use vstd::prelude::*;
use vstd::string::StrSliceExecFns;
use crate::ci::display::CiDisplayConfig;
use crate::ci::job::Progress;
use crate::names::names_view;
use crate::text::{copy_str, join};

verus! {

/// `n` spaces.
pub open spec fn spaces(n: nat) -> Seq<char>
    decreases n,
{
    if n == 0 {
        Seq::empty()
    } else {
        spaces((n - 1) as nat).push(' ')
    }
}

/// A name padded with spaces up to `width` characters, as `{:width$}` pads it.
pub open spec fn padded(name: Seq<char>, width: nat) -> Seq<char> {
    if name.len() < width {
        name + spaces((width - name.len()) as nat)
    } else {
        name
    }
}

/// What follows the name of a job on its line, by its last step: where it
/// stands, with the frame of the spinner `spin` while it runs.
pub open spec fn state_text(last: Progress, ok: Seq<char>, ko: Seq<char>, cancelled: Seq<char>, spin: Seq<char>) -> Seq<char> {
    match last {
        Progress::Available => "not started yet"@,
        Progress::Terminated(state) => " "@ + if state { ok } else { ko },
        Progress::Partial(_, _) => " "@ + spin,
        Progress::Skipped => " "@ + ok + " job was skipped"@,
        Progress::Blocked(blocked_by) => " blocked by "@ + join(names_view(blocked_by@), ", "@),
        Progress::Cancelled => " "@ + cancelled,
        Progress::Started(command) => " "@ + command@ + " "@ + spin,
    }
}

/// `text` padded with spaces up to `width` characters.
pub fn pad(text: &str, width: usize) -> (r: String)
    ensures
        r@ == padded(text@, width as nat),
{
    let mut line = copy_str(text);
    let len = text.unicode_len();
    if len < width {
        assert(text@ + spaces(0) =~= text@);
        let mut k: usize = len;
        while k < width
            invariant
                len <= k <= width,
                len == text@.len(),
                line@ == text@ + spaces((k - len) as nat),
            decreases width - k,
        {
            line.append(" ");
            proof {
                reveal_strlit(" ");
                assert(spaces((k + 1 - len) as nat) == spaces((k - len) as nat).push(' '));
                assert(line@ =~= text@ + spaces((k + 1 - len) as nat));
            }
            k = k + 1;
        }
    }
    line
}

/// The line of a job: its name, padded to `width`, then where it stands.
pub fn sequence_line(job_name: &str, width: usize, last: &Progress, config: &CiDisplayConfig, spin: &str) -> (r: String)
    ensures
        r@ == padded(job_name@, width as nat) + state_text(*last, config.ok@, config.ko@, config.cancelled@, spin@),
{
    let mut line = pad(job_name, width);
    assert(line@ == padded(job_name@, width as nat));
    match last {
        Progress::Available => {
            line.append("not started yet");
        },
        Progress::Terminated(state) => {
            line.append(" ");
            line.append(if *state { config.ok.as_str() } else { config.ko.as_str() });
        },
        Progress::Partial(_, _) => {
            line.append(" ");
            line.append(spin);
        },
        Progress::Skipped => {
            line.append(" ");
            line.append(config.ok.as_str());
            line.append(" job was skipped");
        },
        Progress::Blocked(blocked_by) => {
            line.append(" blocked by ");
            let listed = crate::text::join_strings(blocked_by, ", ");
            line.append(listed.as_str());
        },
        Progress::Cancelled => {
            line.append(" ");
            line.append(config.cancelled.as_str());
        },
        Progress::Started(command) => {
            line.append(" ");
            line.append(command.as_str());
            line.append(" ");
            line.append(spin);
        },
    }
    proof {
        assert(line@ =~= padded(job_name@, width as nat) + state_text(*last, config.ok@, config.ko@, config.cancelled@, spin@));
    }
    line
}

} // verus!
