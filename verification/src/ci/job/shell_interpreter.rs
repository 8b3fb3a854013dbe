//! The environment of a run: the variables that a shell gives to the
//! assignments of the configuration, after the user's and group's ids.
use vstd::prelude::*;
use regex::Regex;
use crate::ci::job::{Output, opt_view};
use crate::ci::job::env_parser::{EnvMap, parsed_env, read_env};
use crate::ci::job::ports::{SystemFacade, UserFacade};
use crate::config::instructions::whitespaces::trimmed;
use crate::text::{copy_str, split_on, split_on_of, split_lines, split_lines_of};
use vstd::string::StrSliceExecFns;

verus! {

/// The assignments that every run starts with: the ids of the user and of
/// the group.
pub open spec fn base_env() -> Seq<char> {
    "USER_ID=$(id -u)\nGROUP_ID=$(id -g)"@
}

/// The assignments of a run: the base ones, then the additional text, if
/// any, each followed by a line break.
pub open spec fn env_text(additional: Option<Seq<char>>) -> Seq<char> {
    match additional {
        None => base_env(),
        Some(a) => base_env() + "\n"@ + a + "\n"@,
    }
}

/// The name that a line assigns, by the pattern `^\s*(\w+)=` of the `regex`
/// crate, if it assigns one: a function of the line alone.
pub uninterp spec fn assigned_name(line: Seq<char>) -> Option<Seq<char>>;

/// `Regex::captures` of `^\s*(\w+)=`, its first group.
#[verifier::external_body]
fn assigned(line: &str) -> (r: Option<String>)
    ensures
        match r {
            Some(n) => assigned_name(line@) == Some(n@),
            None => assigned_name(line@) is None,
        },
{
    let regex = Regex::new(r"^\s*(\w+)=").unwrap();
    regex.captures(line).map(|found| found[1].to_string())
}

/// The lines that print the value of the variable `name`, with its name.
pub open spec fn print_line(name: Seq<char>) -> Seq<char> {
    "printf "@ + name + "=; printf '%s\n' $"@ + name + "\n"@
}

/// The lines that print, with its name, each variable that the lines assign.
pub open spec fn control(lines: Seq<Seq<char>>) -> Seq<char>
    decreases lines.len(),
{
    if lines.len() == 0 {
        Seq::empty()
    } else {
        control(lines.drop_last()) + match assigned_name(lines.last()) {
            Some(name) => print_line(name),
            None => Seq::empty(),
        }
    }
}

/// The script that a shell runs: the assignments, then the lines that print
/// each assigned variable.
pub open spec fn env_script(text: Seq<char>) -> Seq<char> {
    text + "\n"@ + control(split_lines(text))
}

/// The name that a line sets: what comes before its first `=`.
pub open spec fn line_key(line: Seq<char>) -> Seq<char> {
    split_on(line, '=')[0]
}

/// The variables that the lines assign, with the values that the shell
/// printed for them; a name that the shell printed no value for is left out.
pub open spec fn picked(lines: Seq<Seq<char>>, found: Map<Seq<char>, Seq<Seq<char>>>) -> Map<Seq<char>, Seq<Seq<char>>>
    decreases lines.len(),
{
    if lines.len() == 0 {
        Map::empty()
    } else {
        let m = picked(lines.drop_last(), found);
        let k = line_key(lines.last());
        if found.contains_key(k) {
            m.insert(k, found[k])
        } else {
            m
        }
    }
}

/// A variable picked from the lines is the name that one of them sets.
proof fn lemma_picked_keys(lines: Seq<Seq<char>>, found: Map<Seq<char>, Seq<Seq<char>>>, k: Seq<char>)
    requires
        picked(lines, found).contains_key(k),
    ensures
        exists|i: int| 0 <= i < lines.len() && line_key(#[trigger] lines[i]) == k,
    decreases lines.len(),
{
    let rest = lines.drop_last();
    if line_key(lines.last()) != k || !found.contains_key(line_key(lines.last())) {
        lemma_picked_keys(rest, found, k);
        let i = choose|i: int| 0 <= i < rest.len() && line_key(#[trigger] rest[i]) == k;
        assert(lines[i] == rest[i]);
    } else {
        assert(line_key(lines[lines.len() - 1]) == k);
    }
}

/// The assignments of a run (see `env_text`).
pub fn env_text_of(additional: Option<String>) -> (r: String)
    ensures
        r@ == env_text(match additional { Some(a) => Some(a@), None => None }),
{
    let mut text = copy_str("USER_ID=$(id -u)\nGROUP_ID=$(id -g)");
    match additional {
        Some(a) => {
            text.append("\n");
            text.append(a.as_str());
            text.append("\n");
        },
        None => {},
    }
    text
}

/// The script that prints the variables of the assignments (see `env_script`).
pub fn script_of(text: &str) -> (r: String)
    ensures
        r@ == env_script(text@),
{
    let lines = split_lines_of(text);
    let ghost lv = lines@.map_values(|x: String| x@);
    let mut control_text = String::new();
    let mut i: usize = 0;
    while i < lines.len()
        invariant
            i <= lines.len(),
            lv == lines@.map_values(|x: String| x@),
            lv == split_lines(text@),
            control_text@ == control(lv.take(i as int)),
        decreases lines.len() - i,
    {
        proof {
            assert(lv.take(i + 1).drop_last() =~= lv.take(i as int));
            assert(lv.take(i + 1).last() == lines@[i as int]@);
        }
        match assigned(lines[i].as_str()) {
            Some(name) => {
                control_text.append("printf ");
                control_text.append(name.as_str());
                control_text.append("=; printf '%s\n' $");
                control_text.append(name.as_str());
                control_text.append("\n");
                proof {
                    assert(control_text@ =~= control(lv.take(i as int)) + print_line(name@));
                }
            },
            None => {
                proof {
                    assert(control_text@ =~= control(lv.take(i as int)) + Seq::<char>::empty());
                }
            },
        }
        i = i + 1;
    }
    assert(lv.take(lines.len() as int) =~= lv);
    let mut script = copy_str(text);
    script.append("\n");
    script.append(control_text.as_str());
    script
}

/// The variables that the lines of `text` assign, with the values that the
/// shell printed in `printed` (see `picked`); none where `printed` cannot be
/// read (see `read_env`).
pub fn collect_env(text: &str, printed: &str) -> (r: Option<EnvMap>)
    ensures
        match parsed_env(printed@) {
            Some(found) => r matches Some(m) && m.wf() && m.map_view() == picked(split_lines(text@), found),
            None => r is None,
        },
{
    let found = match read_env(printed) {
        Some(found) => found,
        None => {
            return None;
        },
    };
    let lines = split_lines_of(text);
    let ghost lv = lines@.map_values(|x: String| x@);
    let mut map = EnvMap::new();
    let mut i: usize = 0;
    while i < lines.len()
        invariant
            i <= lines.len(),
            lv == lines@.map_values(|x: String| x@),
            lv == split_lines(text@),
            found.wf(),
            Some(found.map_view()) == parsed_env(printed@),
            map.wf(),
            map.map_view() == picked(lv.take(i as int), found.map_view()),
        decreases lines.len() - i,
    {
        proof {
            assert(lv.take(i + 1).drop_last() =~= lv.take(i as int));
            assert(lv.take(i + 1).last() == lines@[i as int]@);
        }
        let parts = split_on_of(lines[i].as_str(), '=');
        proof {
            crate::text::lemma_split_on_nonempty(lines@[i as int]@, '=');
            assert(parts@[0]@ == line_key(lv[i as int]));
        }
        match found.get(parts[0].as_str()) {
            Some(value) => {
                map.insert(parts[0].clone(), crate::text::copy_strings(value.as_slice()));
            },
            None => {},
        }
        i = i + 1;
    }
    assert(lv.take(lines.len() as int) =~= lv);
    Some(map)
}

/// The error given when the shell printed an environment that cannot be cut
/// at the positions of its variables.
pub open spec fn unreadable_env() -> Seq<char> {
    "the environment printed by the shell cannot be read"@
}

/// The environment `r` is what the shell reported in `out` for the
/// assignments of `text` (see `env_from_output`).
pub open spec fn env_read(text: Seq<char>, out: Output, r: Result<EnvMap, String>) -> bool {
    match out {
        Output::Success(stdout, _) => match parsed_env(trimmed(stdout@)) {
            Some(found) => r matches Ok(m) && m.wf() && m.map_view() == picked(split_lines(text), found),
            None => r matches Err(e) && e@ == unreadable_env(),
        },
        Output::JobError(_, stderr) => r matches Err(e) && e@ == stderr@,
        Output::ProcessError(stderr) => r matches Err(e) && e@ == stderr@,
    }
}

/// Turns what the shell reported into the environment: on success, the
/// printed variables of the assignments (see `collect_env`), from the output
/// trimmed of whitespace, or an error when that output cannot be read;
/// otherwise the error output of the shell.
pub fn env_from_output(text: &str, out: Output) -> (r: Result<EnvMap, String>)
    ensures
        env_read(text@, out, r),
{
    match out {
        Output::Success(stdout, _) => {
            let envlist = crate::config::instructions::whitespaces::trim_str(stdout.as_str());
            match collect_env(text, envlist) {
                Some(m) => Ok(m),
                None => {
                    let e = copy_str("the environment printed by the shell cannot be read");
                    proof {
                        reveal_strlit("the environment printed by the shell cannot be read");
                    }
                    Err(e)
                },
            }
        },
        Output::JobError(_, stderr) => Err(stderr),
        Output::ProcessError(stderr) => Err(stderr),
    }
}

/// Finds the environment of a run with a shell of the system, and shows the
/// shell's complaints to the user.
pub struct ShellInterpreter<'a, U: UserFacade, S: SystemFacade> {
    user_facade: &'a U,
    system_facade: &'a S,
}

impl<'a, U: UserFacade, S: SystemFacade> ShellInterpreter<'a, U, S> {
    /// An interpreter that shows errors with `user_facade` and runs the shell
    /// with `system_facade`.
    pub fn new(user_facade: &'a U, system_facade: &'a S) -> (r: Self)
        ensures
            r.user() == *user_facade,
            r.system() == *system_facade,
    {
        Self { user_facade, system_facade }
    }

    /// Where errors are shown.
    pub closed spec fn user(&self) -> U {
        *self.user_facade
    }

    /// What runs the shell.
    pub closed spec fn system(&self) -> S {
        *self.system_facade
    }

    /// Runs the script of the assignments (`env_script` of `env_text`) and
    /// reads the environment from what the shell reports (see
    /// `env_from_output`): on success, the variables of the assignments
    /// with the values that the shell printed; what the shell reports on its
    /// error output while it succeeds is shown to the user. Whether the
    /// shell succeeds is the system's to tell.
    pub fn interpret(&self, additionnal_envtext: Option<String>) -> (r: Result<EnvMap, String>)
        ensures
            exists|out: Output|
                #[trigger] self.system().runs(env_script(env_text(opt_view(additionnal_envtext))), out)
                && env_read(env_text(opt_view(additionnal_envtext)), out, r)
                && (out matches Output::Success(_, stderr) ==> (stderr@.len() > 0 ==> self.user().displays(stderr@))),
            r matches Ok(m) ==> m.wf(),
            r matches Ok(m) ==> forall|k: Seq<char>| #[trigger] m.map_view().contains_key(k) ==> exists|i: int|
                0 <= i < split_lines(env_text(opt_view(additionnal_envtext))).len()
                && line_key(#[trigger] split_lines(env_text(opt_view(additionnal_envtext)))[i]) == k,
    {
        let ghost extra = opt_view(additionnal_envtext);
        let text = env_text_of(additionnal_envtext);
        let script = script_of(text.as_str());
        let out = self.system_facade.run(script.as_str());
        if let Output::Success(_, stderr) = &out {
            if stderr.unicode_len() > 0 {
                self.user_facade.display_error(stderr.clone());
            }
        }
        assert(self.system().runs(env_script(env_text(extra)), out));
        let ghost reported = out;
        let r = env_from_output(text.as_str(), out);
        proof {
            if let Ok(m) = &r {
                if let Output::Success(stdout, _) = reported {
                    let found = parsed_env(trimmed(stdout@)).unwrap();
                    assert forall|k: Seq<char>| #[trigger] m.map_view().contains_key(k) implies exists|i: int|
                        0 <= i < split_lines(env_text(extra)).len()
                        && line_key(#[trigger] split_lines(env_text(extra))[i]) == k by {
                        lemma_picked_keys(split_lines(text@), found, k);
                    }
                    assert(m.map_view() == picked(split_lines(env_text(extra)), found));
                }
            }
        }
        r
    }
}

} // verus!
