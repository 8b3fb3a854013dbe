//! Where the configuration of a run comes from: the candidate files, the
//! version they declare, and what they give once loaded.
use vstd::prelude::*;
use regex::Regex;
use crate::ci::config::{Config as CiConfig, JobDesc, JobDescView};
use crate::ci::display::CiDisplayConfig;
use crate::names::names_view;
use crate::text::copy_str;

pub mod instructions;
pub mod versions;

verus! {

/// Why a configuration file could not be used.
#[derive(Debug)]
pub enum Error {
    Parse(String),
    NoVersion(&'static str, String),
    BadVersion(String, &'static str),
    ParseError(String, String),
}

/// Why a configuration file could not be used, by the characters of its parts.
pub enum ErrorView {
    Parse(Seq<char>),
    NoVersion(Seq<char>, Seq<char>),
    BadVersion(Seq<char>, Seq<char>),
    ParseError(Seq<char>, Seq<char>),
}

impl View for Error {
    type V = ErrorView;

    open spec fn view(&self) -> ErrorView {
        match self {
            Error::Parse(e) => ErrorView::Parse(e@),
            Error::NoVersion(l, p) => ErrorView::NoVersion(l@, p@),
            Error::BadVersion(v, l) => ErrorView::BadVersion(v@, l@),
            Error::ParseError(v, p) => ErrorView::ParseError(v@, p@),
        }
    }
}

/// The message that explains an error about the file `filename`.
pub open spec fn explanation(e: ErrorView, filename: Seq<char>) -> Seq<char> {
    match e {
        ErrorView::Parse(error) => filename + " could not be parsed: "@ + error,
        ErrorView::NoVersion(latest, previous) => filename + " could not parse version id (latest is "@ + latest
            + ")\nbecause: "@ + previous,
        ErrorView::BadVersion(version, latest) => "unknown version "@ + version + " in "@ + filename + " (latest is "@
            + latest + ")"@,
        ErrorView::ParseError(version, prev) => "could not parse "@ + filename + " with version "@ + version + " ("@
            + prev + ")"@,
    }
}

impl Error {
    /// The message that explains the error about the file `filename`.
    pub fn explain(&self, filename: &str) -> (r: String)
        ensures
            r@ == explanation(self@, filename@),
    {
        match self {
            Error::Parse(error) => {
                let mut r = copy_str(filename);
                r.append(" could not be parsed: ");
                r.append(error.as_str());
                r
            },
            Error::NoVersion(latest, previous) => {
                let mut r = copy_str(filename);
                r.append(" could not parse version id (latest is ");
                r.append(latest);
                r.append(")\nbecause: ");
                r.append(previous.as_str());
                r
            },
            Error::BadVersion(version, latest) => {
                let mut r = copy_str("unknown version ");
                r.append(version.as_str());
                r.append(" in ");
                r.append(filename);
                r.append(" (latest is ");
                r.append(latest);
                r.append(")");
                r
            },
            Error::ParseError(version, prev) => {
                let mut r = copy_str("could not parse ");
                r.append(filename);
                r.append(" with version ");
                r.append(version.as_str());
                r.append(" (");
                r.append(prev.as_str());
                r.append(")");
                r
            },
        }
    }
}

/// The version that a configuration file declares.
#[derive(Debug, PartialEq, Eq)]
pub struct Version {
    pub version: String,
}

/// The latest version of the configuration files.
pub const LATEST: &'static str = "1.0";

/// How a configuration file is read, given its version.
#[derive(Debug, PartialEq, Eq, Structural)]
pub enum Format {
    Version1,
    LatestWithWarning,
}

/// What the pattern of versions finds in a version: the number before the
/// first dot, and what follows the dot, if anything.
pub uninterp spec fn version_match(s: Seq<char>) -> Option<(Seq<char>, Option<Seq<char>>)>;

/// The parts of a version by the pattern `^(\d+)(?:\.(\S+))?$` of the
/// `regex` crate: the digits, and what follows the dot if there is one;
/// `None` when the version does not match. What is found is a function of
/// the version alone.
#[verifier::external_body]
fn version_parts(s: &str) -> (r: Option<(String, Option<String>)>)
    ensures
        match r {
            Some((a, b)) => version_match(s@) == Some((a@, match b { Some(x) => Some(x@), None => None::<Seq<char>> })),
            None => version_match(s@) is None,
        },
{
    let regex = Regex::new(r"^(\d+)(?:\.(\S+))?$").unwrap();
    match regex.captures(s) {
        Some(found) => Some((found[1].to_string(), found.get(2).map(|m| m.as_str().to_string()))),
        None => None,
    }
}

/// The way to read a file that declares `version`, given the parts found in
/// it: major version 1 with no minor version or minor 0 is read as such;
/// another minor of 1 as the latest, with a warning; anything else is an
/// unknown version.
pub open spec fn format_of(version: Seq<char>, parts: Option<(Seq<char>, Option<Seq<char>>)>) -> Result<Format, ErrorView> {
    match parts {
        Some((major, minor)) => if major == "1"@ {
            match minor {
                None => Ok(Format::Version1),
                Some(m) => if m == "0"@ { Ok(Format::Version1) } else { Ok(Format::LatestWithWarning) },
            }
        } else {
            Err(ErrorView::BadVersion(version, LATEST@))
        },
        None => Err(ErrorView::BadVersion(version, LATEST@)),
    }
}

/// The way to read a file that declares `version`, given the parts of the
/// version (see `format_of`).
pub fn choose_format(version: &str, parts: Option<(String, Option<String>)>) -> (r: Result<Format, Error>)
    ensures
        match r {
            Ok(f) => format_of(version@, match parts {
                Some((a, b)) => Some((a@, match b { Some(x) => Some(x@), None => None::<Seq<char>> })),
                None => None,
            }) == Ok::<Format, ErrorView>(f),
            Err(e) => format_of(version@, match parts {
                Some((a, b)) => Some((a@, match b { Some(x) => Some(x@), None => None::<Seq<char>> })),
                None => None,
            }) == Err::<Format, ErrorView>(e@),
        },
{
    proof {
        reveal_strlit("1");
        reveal_strlit("0");
    }
    match parts {
        Some((major, minor)) => {
            if crate::text::str_eq(major.as_str(), "1") {
                match minor {
                    None => Ok(Format::Version1),
                    Some(m) => if crate::text::str_eq(m.as_str(), "0") {
                        Ok(Format::Version1)
                    } else {
                        Ok(Format::LatestWithWarning)
                    },
                }
            } else {
                Err(Error::BadVersion(copy_str(version), LATEST))
            }
        },
        None => Err(Error::BadVersion(copy_str(version), LATEST)),
    }
}

/// The way to read a file that declares `version`: its parts by the pattern
/// of versions, then `choose_format`.
pub fn version_format(version: &str) -> (r: Result<Format, Error>)
    ensures
        match r {
            Ok(f) => format_of(version@, version_match(version@)) == Ok::<Format, ErrorView>(f),
            Err(e) => format_of(version@, version_match(version@)) == Err::<Format, ErrorView>(e@),
        },
{
    let parts = version_parts(version);
    choose_format(version, parts)
}

/// `format!("{:?}")` of a list of strings: each quoted, escaped as `Debug`
/// escapes, between brackets, separated by `, `.
pub uninterp spec fn debug_strings(v: Seq<Seq<char>>) -> Seq<char>;

/// `Debug` of a list of strings, a function of the strings alone.
#[verifier::external_body]
fn debug_of(v: &Vec<String>) -> (r: String)
    ensures
        r@ == debug_strings(names_view(v@)),
{
    format!("{:?}", v)
}

/// Where a configuration may be found: the candidate files, in order.
#[derive(Debug)]
pub struct Config {
    candidates: Vec<String>,
}

/// The extensions tried after a base name, in order.
pub open spec fn extensions() -> Seq<Seq<char>> {
    seq!["yaml"@, "yml"@, "yaml.dist"@, "yml.dist"@]
}

impl Config {
    /// The candidate files.
    pub closed spec fn candidates_view(&self) -> Seq<Seq<char>> {
        names_view(self.candidates@)
    }

    /// The candidate files, in order.
    pub fn candidates(&self) -> (r: &Vec<String>)
        ensures
            names_view(r@) == self.candidates_view(),
    {
        &self.candidates
    }

    /// The first candidate that exists, given whether each one exists; the
    /// message that names them all when none does.
    pub fn get_first_available_config_file(&self, exists: &[bool]) -> (r: Result<String, String>)
        requires
            exists@.len() == self.candidates_view().len(),
        ensures
            match r {
                Ok(f) => exists|i: int| 0 <= i < exists@.len() && exists@[i] && f@ == self.candidates_view()[i]
                    && forall|j: int| 0 <= j < i ==> !exists@[j],
                Err(m) => (forall|i: int| 0 <= i < exists@.len() ==> !exists@[i])
                    && m@ == "no config file could be found (looked in files "@ + debug_strings(self.candidates_view()) + ")"@,
            },
    {
        let mut i: usize = 0;
        while i < self.candidates.len()
            invariant
                i <= self.candidates.len(),
                exists@.len() == self.candidates@.len(),
                forall|j: int| 0 <= j < i ==> !exists@[j],
            decreases self.candidates.len() - i,
        {
            if exists[i] {
                return Ok(self.candidates[i].clone());
            }
            i = i + 1;
        }
        let mut m = copy_str("no config file could be found (looked in files ");
        let listed = debug_of(&self.candidates);
        m.append(listed.as_str());
        m.append(")");
        Err(m)
    }

    /// The candidates for the base name `env`: with each extension in turn.
    pub fn from(env: &str) -> (r: Self)
        ensures
            r.candidates_view() == extensions().map_values(|e: Seq<char>| env@ + "."@ + e),
    {
        let mut candidates: Vec<String> = Vec::new();
        let mut a = copy_str(env);
        a.append(".yaml");
        candidates.push(a);
        let mut b = copy_str(env);
        b.append(".yml");
        candidates.push(b);
        let mut c = copy_str(env);
        c.append(".yaml.dist");
        candidates.push(c);
        let mut d = copy_str(env);
        d.append(".yml.dist");
        candidates.push(d);
        proof {
            reveal_strlit(".yaml");
            reveal_strlit(".yml");
            reveal_strlit(".yaml.dist");
            reveal_strlit(".yml.dist");
            reveal_strlit("yaml");
            reveal_strlit("yml");
            reveal_strlit("yaml.dist");
            reveal_strlit("yml.dist");
            reveal_strlit(".");
            assert(".yaml"@ =~= "."@ + "yaml"@);
            assert(".yml"@ =~= "."@ + "yml"@);
            assert(".yaml.dist"@ =~= "."@ + "yaml.dist"@);
            assert(".yml.dist"@ =~= "."@ + "yml.dist"@);
            assert(env@ + ".yaml"@ =~= env@ + "."@ + "yaml"@);
            assert(env@ + ".yml"@ =~= env@ + "."@ + "yml"@);
            assert(env@ + ".yaml.dist"@ =~= env@ + "."@ + "yaml.dist"@);
            assert(env@ + ".yml.dist"@ =~= env@ + "."@ + "yml.dist"@);
        }
        let r = Self { candidates };
        assert(r.candidates_view() =~= extensions().map_values(|e: Seq<char>| env@ + "."@ + e));
        r
    }

    /// The one candidate `env`.
    pub fn from_name(env: &str) -> (r: Self)
        ensures
            r.candidates_view() == seq![env@],
    {
        let mut candidates: Vec<String> = Vec::new();
        candidates.push(copy_str(env));
        let r = Self { candidates };
        assert(r.candidates_view() =~= seq![env@]);
        r
    }
}

/// What the configuration files give: the run's configuration, the display
/// settings, the text of the environment, and more files to read.
#[derive(Debug)]
pub struct Payload {
    pub ci: CiConfig,
    pub display: CiDisplayConfig,
    pub env: Option<String>,
    pub extra_files: Vec<String>,
}

impl Default for Payload {
    fn default() -> (r: Self)
        ensures
            r.ci.jobs@.len() == 0,
            r.ci.groups@.len() == 0,
            r.ci.constraints@.len() == 0,
            r.env is None,
            r.extra_files@.len() == 0,
    {
        Payload {
            ci: CiConfig { jobs: Vec::new(), groups: Vec::new(), constraints: Vec::new() },
            display: CiDisplayConfig::default(),
            env: None,
            extra_files: Vec::new(),
        }
    }
}

/// The descriptions of jobs.
pub open spec fn desc_views(v: Seq<JobDesc>) -> Seq<JobDescView> {
    v.map_values(|d: JobDesc| d@)
}

/// Whether some job of `jobs` has the name `name`.
pub open spec fn has_job_named(jobs: Seq<JobDescView>, name: Seq<char>) -> bool {
    exists|i: int| 0 <= i < jobs.len() && #[trigger] jobs[i].0 == name
}

/// The jobs once those of `others` are taken in, in order, each unless a job
/// of the same name is already there.
pub open spec fn absorbed(jobs: Seq<JobDescView>, others: Seq<JobDescView>) -> Seq<JobDescView>
    decreases others.len(),
{
    if others.len() == 0 {
        jobs
    } else {
        let r = absorbed(jobs, others.drop_last());
        if has_job_named(r, others.last().0) {
            r
        } else {
            r.push(others.last())
        }
    }
}

/// Taking in jobs keeps every name that was there and brings each name of
/// the jobs taken in.
proof fn lemma_absorbed_names(jobs: Seq<JobDescView>, others: Seq<JobDescView>)
    ensures
        forall|x: Seq<char>| has_job_named(jobs, x) ==> #[trigger] has_job_named(absorbed(jobs, others), x),
        forall|k: int| 0 <= k < others.len() ==> has_job_named(absorbed(jobs, others), #[trigger] others[k].0),
    decreases others.len(),
{
    if others.len() > 0 {
        let rest = others.drop_last();
        lemma_absorbed_names(jobs, rest);
        let r = absorbed(jobs, rest);
        let last = others.last();
        if !has_job_named(r, last.0) {
            let p = r.push(last);
            assert forall|x: Seq<char>| has_job_named(r, x) implies #[trigger] has_job_named(p, x) by {
                let i = choose|i: int| 0 <= i < r.len() && #[trigger] r[i].0 == x;
                assert(p[i] == r[i]);
            }
            assert(p[r.len() as int].0 == last.0);
        }
        assert forall|k: int| 0 <= k < others.len() implies has_job_named(absorbed(jobs, others), #[trigger] others[k].0) by {
            if k < others.len() - 1 {
                assert(rest[k] == others[k]);
            }
        }
    }
}

/// Taking in jobs whose names are all there already changes nothing.
proof fn lemma_absorbed_present(jobs: Seq<JobDescView>, others: Seq<JobDescView>)
    requires
        forall|k: int| 0 <= k < others.len() ==> has_job_named(jobs, #[trigger] others[k].0),
    ensures
        absorbed(jobs, others) == jobs,
    decreases others.len(),
{
    if others.len() > 0 {
        let rest = others.drop_last();
        assert forall|k: int| 0 <= k < rest.len() implies has_job_named(jobs, #[trigger] rest[k].0) by {
            assert(rest[k] == others[k]);
        }
        lemma_absorbed_present(jobs, rest);
        assert(has_job_named(jobs, others[others.len() - 1].0));
    }
}

/// Taking in the same jobs a second time changes nothing: every name taken
/// in the first time is already there.
pub proof fn lemma_absorb_idempotent(jobs: Seq<JobDescView>, others: Seq<JobDescView>)
    ensures
        absorbed(absorbed(jobs, others), others) == absorbed(jobs, others),
{
    lemma_absorbed_names(jobs, others);
    lemma_absorbed_present(absorbed(jobs, others), others);
}

/// `Payload::absorb` of the same payload a second time changes nothing: when
/// `once` is `payload` after absorbing `other`, and `twice` is `once` after
/// absorbing `other` again (each as `absorb` ensures), the two hold the same
/// jobs, groups, constraints, display, environment and extra files.
pub proof fn lemma_absorb_same_payload_twice(payload: Payload, other: Payload, once: Payload, twice: Payload)
    requires
        desc_views(once.ci.jobs@) == absorbed(desc_views(payload.ci.jobs@), desc_views(other.ci.jobs@)),
        desc_views(twice.ci.jobs@) == absorbed(desc_views(once.ci.jobs@), desc_views(other.ci.jobs@)),
        twice.ci.groups == once.ci.groups,
        twice.ci.constraints == once.ci.constraints,
        twice.display == once.display,
        twice.env == once.env,
        twice.extra_files == once.extra_files,
    ensures
        desc_views(twice.ci.jobs@) == desc_views(once.ci.jobs@),
        twice.ci.groups == once.ci.groups,
        twice.ci.constraints == once.ci.constraints,
        twice.display == once.display,
        twice.env == once.env,
        twice.extra_files == once.extra_files,
{
    lemma_absorb_idempotent(desc_views(payload.ci.jobs@), desc_views(other.ci.jobs@));
}

impl Payload {
    /// Takes in the jobs of `other`: each one whose name is not among the
    /// jobs yet comes last.
    pub fn absorb(&mut self, other: &Payload)
        ensures
            desc_views(final(self).ci.jobs@) == absorbed(desc_views(old(self).ci.jobs@), desc_views(other.ci.jobs@)),
            final(self).ci.groups == old(self).ci.groups,
            final(self).ci.constraints == old(self).ci.constraints,
            final(self).env == old(self).env,
            final(self).extra_files == old(self).extra_files,
            final(self).display == old(self).display,
    {
        let ghost start = desc_views(self.ci.jobs@);
        let ghost others = desc_views(other.ci.jobs@);
        let mut i: usize = 0;
        while i < other.ci.jobs.len()
            invariant
                i <= other.ci.jobs.len(),
                others == desc_views(other.ci.jobs@),
                desc_views(self.ci.jobs@) == absorbed(start, others.take(i as int)),
                self.ci.groups == old(self).ci.groups,
                self.ci.constraints == old(self).ci.constraints,
                self.env == old(self).env,
                self.extra_files == old(self).extra_files,
                self.display == old(self).display,
            decreases other.ci.jobs.len() - i,
        {
            let new_job = &other.ci.jobs[i];
            let ghost before = self.ci.jobs@;
            proof {
                assert(others.take(i + 1).drop_last() =~= others.take(i as int));
                assert(others.take(i + 1).last() == new_job@);
            }
            let mut known = false;
            let mut k: usize = 0;
            while k < self.ci.jobs.len()
                invariant
                    k <= self.ci.jobs.len(),
                    self.ci.jobs@ == before,
                    known == exists|j: int| 0 <= j < k && #[trigger] desc_views(before)[j].0 == new_job.name@,
                decreases self.ci.jobs.len() - k,
            {
                if self.ci.jobs[k].same_job(new_job) {
                    known = true;
                }
                proof {
                    assert(desc_views(before)[k as int].0 == before[k as int].name@);
                }
                k = k + 1;
            }
            if !known {
                self.ci.jobs.push(new_job.clone());
                proof {
                    assert(desc_views(self.ci.jobs@) =~= desc_views(before).push(new_job@));
                }
            }
            i = i + 1;
        }
        assert(others.take(other.ci.jobs.len() as int) =~= others);
    }
}

/// Loads what a configuration file gives into a payload.
pub trait Loader {
    fn load(&self, payload: &mut Payload);
}

/// Reads the text of configuration files in one format: the version it
/// declares, and the file as version 1, or as the latest version when it
/// declares a later minor version of 1.
pub trait FormatParser {
    /// Whether reading the version of `text` may give `found`: what an
    /// implementation tells of its format. Nothing is known of it by default.
    open spec fn gives_version(&self, text: Seq<char>, found: Result<Version, String>) -> bool {
        true
    }

    /// Whether reading `text` as version 1 may give `loaded`. Nothing is
    /// known of it by default.
    open spec fn gives_version1(&self, text: Seq<char>, loaded: Result<Box<dyn Loader>, String>) -> bool {
        true
    }

    /// Whether reading `text` as the latest version, when it declares
    /// `requested`, may give `loaded`. Nothing is known of it by default.
    open spec fn gives_latest(&self, text: Seq<char>, requested: Seq<char>, loaded: Result<Box<dyn Loader>, String>) -> bool {
        true
    }

    /// The version that `text` declares.
    fn version(&self, text: &str) -> (r: Result<Version, String>)
        ensures
            self.gives_version(text@, r);

    /// The file `text` read as version 1.
    fn version1(&self, text: &str) -> (r: Result<Box<dyn Loader>, String>)
        ensures
            self.gives_version1(text@, r);

    /// The file `text` read as the latest version, when it declares
    /// `requested_version`.
    fn latest_with_warning(&self, text: &str, requested_version: &str) -> (r: Result<Box<dyn Loader>, String>)
        ensures
            self.gives_latest(text@, requested_version@, r);
}

/// What the parser found of a version, by its characters.
pub open spec fn found_view(found: Result<Version, String>) -> Result<Seq<char>, Seq<char>> {
    match found {
        Ok(x) => Ok(x.version@),
        Err(w) => Err(w@),
    }
}

/// `parser` may give `loaded` when it reads `text` the way `format` says,
/// for the declared version `version`: as version 1, or as the latest
/// version with `version` requested.
pub open spec fn loads_as<P: FormatParser>(
    parser: &P,
    format: Format,
    text: Seq<char>,
    version: Seq<char>,
    loaded: Result<Box<dyn Loader>, String>,
) -> bool {
    match format {
        Format::Version1 => parser.gives_version1(text, loaded),
        Format::LatestWithWarning => parser.gives_latest(text, version, loaded),
    }
}

/// `r` is what `parse` gives when the parser found `found` of the version
/// of `text`: the error that `read_as` tells, or else what reading the file
/// the way it says gave (see `loads_as`, `version_result`).
pub open spec fn parse_outcome<P: FormatParser>(
    parser: &P,
    text: Seq<char>,
    found: Result<Version, String>,
    r: Result<Box<dyn Loader>, Error>,
) -> bool {
    let read = read_as(found_view(found));
    if read is Err {
        r matches Err(x) && Err::<(Format, Seq<char>), ErrorView>(x@) == read
    } else {
        let how = read->Ok_0;
        exists|loaded: Result<Box<dyn Loader>, String>|
            #[trigger] loads_as(parser, how.0, text, how.1, loaded) && version_result(how.1, loaded, r)
    }
}

/// `r` is what the parser's reading `loaded` of a file of version `version`
/// gives (see `with_version`): a loader when the parser gave one (the one it
/// gave, which Verus cannot tell apart from another behind `dyn Loader`), or
/// the parser's error told with the version.
pub open spec fn version_result(version: Seq<char>, loaded: Result<Box<dyn Loader>, String>, r: Result<Box<dyn Loader>, Error>) -> bool {
    match loaded {
        Ok(_) => r is Ok,
        Err(why) => r matches Err(e) && e@ == ErrorView::ParseError(version, why@),
    }
}

/// The way to read a file, and the version it declares, from what was found
/// of its version: without a version, the error that says so; else the way
/// that `version_format` gives.
pub open spec fn read_as(found: Result<Seq<char>, Seq<char>>) -> Result<(Format, Seq<char>), ErrorView> {
    match found {
        Err(why) => Err(ErrorView::NoVersion(LATEST@, why)),
        Ok(v) => match format_of(v, version_match(v)) {
            Ok(f) => Ok((f, v)),
            Err(e) => Err(e),
        },
    }
}

/// The way to read a file, and the version it declares, from what the
/// parser found of its version (see `read_as`).
pub fn read_version(found: Result<Version, String>) -> (r: Result<(Format, String), Error>)
    ensures
        match r {
            Ok((f, v)) => read_as(found_view(found)) == Ok::<(Format, Seq<char>), ErrorView>((f, v@)),
            Err(e) => read_as(found_view(found)) == Err::<(Format, Seq<char>), ErrorView>(e@),
        },
{
    match found {
        Err(why) => Err(Error::NoVersion(LATEST, why)),
        Ok(version) => match version_format(version.version.as_str()) {
            Ok(f) => Ok((f, version.version)),
            Err(e) => Err(e),
        },
    }
}

/// What the parser made of a file, read as the version `version`: its loader,
/// or its error told with the version.
pub fn with_version(version: String, loaded: Result<Box<dyn Loader>, String>) -> (r: Result<Box<dyn Loader>, Error>)
    ensures
        version_result(version@, loaded, r),
{
    match loaded {
        Ok(loader) => Ok(loader),
        Err(parse_error) => Err(Error::ParseError(version, parse_error)),
    }
}

/// Reads the text of a configuration file with `parser`: its version first
/// (`read_version`), then the file as that version says (`with_version`).
/// Without a version, the error says so with the latest version; a version
/// that cannot be read is told with the latest version; an error of the
/// parser on the file is told with a version that can be read. What the
/// parser gives is the parser's to tell: the text goes to it whole, and the
/// version read decides how the file is read.
pub fn parse<P: FormatParser>(parser: &P, content: &str) -> (r: Result<Box<dyn Loader>, Error>)
    ensures
        exists|found: Result<Version, String>|
            #[trigger] parser.gives_version(content@, found) && parse_outcome(parser, content@, found, r),
        r matches Err(e) ==> (e is NoVersion || e is BadVersion || e is ParseError),
        r matches Err(Error::NoVersion(latest, _)) ==> latest@ == LATEST@,
        r matches Err(Error::BadVersion(v, latest)) ==> latest@ == LATEST@
            && format_of(v@, version_match(v@)) == Err::<Format, ErrorView>(ErrorView::BadVersion(v@, LATEST@)),
        r matches Err(Error::ParseError(v, _)) ==> format_of(v@, version_match(v@)) is Ok,
{
    let found = parser.version(content);
    let ghost given = found;
    let (format, version) = match read_version(found) {
        Ok(read) => read,
        Err(e) => {
            let r: Result<Box<dyn Loader>, Error> = Err(e);
            assert(parse_outcome(parser, content@, given, r));
            return r;
        },
    };
    let loaded = match format {
        Format::Version1 => parser.version1(content),
        Format::LatestWithWarning => parser.latest_with_warning(content, version.as_str()),
    };
    let ghost read = loaded;
    let ghost v = version@;
    let ghost how = format;
    let r = with_version(version, loaded);
    proof {
        let found_read = read_as(found_view(given))->Ok_0;
        assert(found_read == (how, v));
        assert(loads_as(parser, found_read.0, content@, found_read.1, read));
        assert(parse_outcome(parser, content@, given, r));
    }
    r
}

} // verus!
