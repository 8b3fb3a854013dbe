//! Version 1 of the configuration files: what such a file holds, and what
//! it gives once loaded.
use vstd::prelude::*;
use crate::ci::config::{JobDesc, JobDescView, container_view};
use crate::ci::display::{CiDisplayConfig, FinalDisplayMode, Running as RunningDisplay};
use crate::ci::job::container_configuration::{DockerContainer, DockerModel};
use crate::ci::job::dag::constraint_views;
use crate::ci::job::opt_view;
use crate::config::{Loader, Payload, desc_views};
use crate::names::names_view;
use crate::text::{copy_str, copy_strings};

verus! {

/// The container of a job as the file gives it: an image with its
/// variables, volumes, user and working directory.
#[derive(Debug)]
pub struct ContainerReference {
    pub image: String,
    pub env: Vec<String>,
    pub volumes: Vec<String>,
    pub user: String,
    pub workdir: String,
}

impl ContainerReference {
    /// What the reference is made of.
    pub open spec fn model(&self) -> DockerModel {
        (self.image@, names_view(self.env@), names_view(self.volumes@), self.user@, self.workdir@)
    }

    /// The container of an image given by its name alone: run as the calling
    /// user, in the current directory, which is mounted.
    pub fn from_image(s: &str) -> (r: Self)
        ensures
            r.model() == (s@, Seq::<Seq<char>>::empty(), seq!["$PWD:$PWD:rw"@], "$USER_ID:$GROUP_ID"@, "$PWD"@),
    {
        let mut volumes: Vec<String> = Vec::new();
        volumes.push(copy_str("$PWD:$PWD:rw"));
        let r = Self {
            image: copy_str(s),
            env: Vec::new(),
            volumes,
            user: copy_str("$USER_ID:$GROUP_ID"),
            workdir: copy_str("$PWD"),
        };
        assert(names_view(r.env@) =~= Seq::<Seq<char>>::empty());
        assert(names_view(r.volumes@) =~= seq!["$PWD:$PWD:rw"@]);
        r
    }
}

/// A job as the file describes it.
#[derive(Debug)]
pub struct FullJobDesc {
    pub script: Vec<String>,
    pub container_reference: Option<ContainerReference>,
    pub group: Option<String>,
    pub skip_if: Option<String>,
}

/// The constraints of the file: each job with the jobs it blocks, and each
/// job with the jobs it needs.
#[derive(Debug)]
pub struct Constraints {
    pub blocks: Option<Vec<(String, Vec<String>)>>,
    pub needs: Option<Vec<(String, Vec<String>)>>,
}

/// The spinner of the file: its frames and the ticks that each lasts.
#[derive(Debug)]
pub struct Spinner {
    pub frames: Vec<String>,
    pub per_frames: usize,
}

/// What is shown while the run goes on.
#[derive(Clone, Copy, Debug, PartialEq, Eq, Structural)]
pub enum DisplayMode {
    Silent,
    Sequence,
    Summary,
}

impl DisplayMode {
    /// The running display of the mode.
    pub fn running(self) -> (r: RunningDisplay)
        ensures
            r == match self {
                DisplayMode::Silent => RunningDisplay::Silent,
                DisplayMode::Sequence => RunningDisplay::Sequence,
                DisplayMode::Summary => RunningDisplay::Summary,
            },
    {
        match self {
            DisplayMode::Silent => RunningDisplay::Silent,
            DisplayMode::Sequence => RunningDisplay::Sequence,
            DisplayMode::Summary => RunningDisplay::Summary,
        }
    }

    /// The mode of a running display.
    pub fn from_running(mode: RunningDisplay) -> (r: DisplayMode)
        ensures
            r.running_spec() == mode,
    {
        match mode {
            RunningDisplay::Silent => DisplayMode::Silent,
            RunningDisplay::Sequence => DisplayMode::Sequence,
            RunningDisplay::Summary => DisplayMode::Summary,
        }
    }

    /// The running display of the mode.
    pub open spec fn running_spec(self) -> RunningDisplay {
        match self {
            DisplayMode::Silent => RunningDisplay::Silent,
            DisplayMode::Sequence => RunningDisplay::Sequence,
            DisplayMode::Summary => RunningDisplay::Summary,
        }
    }
}

/// What is shown once the run is over.
#[derive(Clone, Copy, Debug, PartialEq, Eq, Structural)]
pub enum FinalDisplay {
    Full,
    Silent,
    Interactive,
}

impl FinalDisplay {
    /// The final display of the mode.
    pub open spec fn mode_spec(self) -> FinalDisplayMode {
        match self {
            FinalDisplay::Full => FinalDisplayMode::Full,
            FinalDisplay::Silent => FinalDisplayMode::Silent,
            FinalDisplay::Interactive => FinalDisplayMode::Interactive,
        }
    }

    /// The final display of the mode.
    pub fn mode(self) -> (r: FinalDisplayMode)
        ensures
            r == self.mode_spec(),
    {
        match self {
            FinalDisplay::Full => FinalDisplayMode::Full,
            FinalDisplay::Silent => FinalDisplayMode::Silent,
            FinalDisplay::Interactive => FinalDisplayMode::Interactive,
        }
    }

    /// The mode of a final display.
    pub fn from_mode(mode: FinalDisplayMode) -> (r: FinalDisplay)
        ensures
            r.mode_spec() == mode,
    {
        match mode {
            FinalDisplayMode::Full => FinalDisplay::Full,
            FinalDisplayMode::Silent => FinalDisplay::Silent,
            FinalDisplayMode::Interactive => FinalDisplay::Interactive,
        }
    }
}

/// The display settings of the file, each one optional.
#[derive(Debug)]
pub struct Display {
    pub mode: Option<DisplayMode>,
    pub final_item: Option<FinalDisplay>,
    pub ok: Option<String>,
    pub ko: Option<String>,
    pub cancelled: Option<String>,
    pub spinner: Option<Spinner>,
}

/// A configuration file of version 1: its version, its jobs by name, in the
/// order of the file, and its optional parts.
#[derive(Debug)]
pub struct Version1 {
    pub version: String,
    pub jobs: Vec<(String, FullJobDesc)>,
    pub groups: Option<Vec<String>>,
    pub constraints: Option<Constraints>,
    pub display: Option<Display>,
    pub env: Option<String>,
    pub extra_files: Option<Vec<String>>,
}

/// The job that a named description of the file stands for.
pub open spec fn loaded_job(name: Seq<char>, d: FullJobDesc) -> JobDescView {
    (
        name,
        names_view(d.script@),
        match d.container_reference {
            Some(c) => Some(c.model()),
            None => None,
        },
        match d.group {
            Some(g) => seq![g@],
            None => Seq::empty(),
        },
        opt_view(d.skip_if),
    )
}

/// The jobs that the named descriptions stand for, in order.
pub open spec fn loaded_jobs(jobs: Seq<(String, FullJobDesc)>) -> Seq<JobDescView> {
    jobs.map_values(|j: (String, FullJobDesc)| loaded_job(j.0@, j.1))
}

/// The constraints of a list of jobs with the jobs they block: each job
/// blocks each of its jobs, in order.
pub open spec fn blocks_pairs(blocks: Seq<(String, Vec<String>)>) -> Seq<(Seq<char>, Seq<char>)>
    decreases blocks.len(),
{
    if blocks.len() == 0 {
        Seq::empty()
    } else {
        blocks_pairs(blocks.drop_last()) + names_view(blocks.last().1@).map_values(|b: Seq<char>| (blocks.last().0@, b))
    }
}

/// The constraints of a list of jobs with the jobs they need: each job is
/// blocked by each of its jobs, in order.
pub open spec fn needs_pairs(needs: Seq<(String, Vec<String>)>) -> Seq<(Seq<char>, Seq<char>)>
    decreases needs.len(),
{
    if needs.len() == 0 {
        Seq::empty()
    } else {
        needs_pairs(needs.drop_last()) + names_view(needs.last().1@).map_values(|b: Seq<char>| (b, needs.last().0@))
    }
}

/// The constraints of the file: those of `blocks`, then those of `needs`.
pub open spec fn file_constraints(c: Option<Constraints>) -> Seq<(Seq<char>, Seq<char>)> {
    match c {
        None => Seq::empty(),
        Some(c) => (match c.blocks {
            Some(b) => blocks_pairs(b@),
            None => Seq::empty(),
        }) + (match c.needs {
            Some(n) => needs_pairs(n@),
            None => Seq::empty(),
        }),
    }
}

/// The constraints of the pairs of `list`, as `pairs` makes them.
pub(crate) fn push_pairs(target: &mut Vec<(String, String)>, list: &Vec<(String, Vec<String>)>, blocks: bool)
    ensures
        constraint_views(final(target)@) == constraint_views(old(target)@)
            + if blocks { blocks_pairs(list@) } else { needs_pairs(list@) },
{
    let ghost start = constraint_views(target@);
    let mut i: usize = 0;
    while i < list.len()
        invariant
            i <= list.len(),
            constraint_views(target@) == start + if blocks { blocks_pairs(list@.take(i as int)) } else { needs_pairs(list@.take(i as int)) },
        decreases list.len() - i,
    {
        let ghost mid = constraint_views(target@);
        let key = &list[i].0;
        let others = &list[i].1;
        let mut k: usize = 0;
        while k < others.len()
            invariant
                k <= others.len(),
                constraint_views(target@) == mid + names_view(others@).take(k as int).map_values(|b: Seq<char>|
                    if blocks { (key@, b) } else { (b, key@) }),
            decreases others.len() - k,
        {
            let ghost prev = target@;
            if blocks {
                target.push((key.clone(), others[k].clone()));
            } else {
                target.push((others[k].clone(), key.clone()));
            }
            proof {
                assert(constraint_views(target@) =~= constraint_views(prev).push(
                    if blocks { (key@, others@[k as int]@) } else { (others@[k as int]@, key@) }));
                assert(names_view(others@).take(k + 1) =~= names_view(others@).take(k as int).push(others@[k as int]@));
            }
            k = k + 1;
        }
        proof {
            assert(names_view(others@).take(others.len() as int) =~= names_view(others@));
            assert(list@.take(i + 1).drop_last() =~= list@.take(i as int));
            assert(list@.take(i + 1).last() == list@[i as int]);
        }
        i = i + 1;
    }
    assert(list@.take(list.len() as int) =~= list@);
}

/// The display settings once the settings of the file are taken in.
pub open spec fn displayed(before: CiDisplayConfig, d: Option<Display>, after: CiDisplayConfig) -> bool {
    &&& after.ok@ == match d {
        Some(d) => match d.ok { Some(s) => s@, None => before.ok@ },
        None => before.ok@,
    }
    &&& after.ko@ == match d {
        Some(d) => match d.ko { Some(s) => s@, None => before.ko@ },
        None => before.ko@,
    }
    &&& after.cancelled@ == match d {
        Some(d) => match d.cancelled { Some(s) => s@, None => before.cancelled@ },
        None => before.cancelled@,
    }
    &&& after.running_display == match d {
        Some(d) => match d.mode { Some(m) => m.running_spec(), None => before.running_display },
        None => before.running_display,
    }
    &&& after.final_display == match d {
        Some(d) => match d.final_item { Some(m) => m.mode_spec(), None => before.final_display },
        None => before.final_display,
    }
    &&& names_view(after.spinner.0@) == match d {
        Some(d) => match d.spinner { Some(s) => names_view(s.frames@), None => names_view(before.spinner.0@) },
        None => names_view(before.spinner.0@),
    }
    &&& after.spinner.1 == match d {
        Some(d) => match d.spinner { Some(s) => s.per_frames, None => before.spinner.1 },
        None => before.spinner.1,
    }
}

impl Version1 {
    fn load_jobs(&self, jobs: &mut Vec<JobDesc>)
        ensures
            desc_views(final(jobs)@) == desc_views(old(jobs)@) + loaded_jobs(self.jobs@),
    {
        let ghost start = desc_views(jobs@);
        let mut i: usize = 0;
        while i < self.jobs.len()
            invariant
                i <= self.jobs.len(),
                desc_views(jobs@) == start + loaded_jobs(self.jobs@.take(i as int)),
            decreases self.jobs.len() - i,
        {
            let name = &self.jobs[i].0;
            let full_desc = &self.jobs[i].1;
            let image = match &full_desc.container_reference {
                Some(c) => Some(DockerContainer::with_env(
                    c.image.as_str(),
                    c.user.as_str(),
                    c.workdir.as_str(),
                    c.volumes.as_slice(),
                    c.env.as_slice(),
                )),
                None => None,
            };
            let mut group: Vec<String> = Vec::new();
            match &full_desc.group {
                Some(g) => group.push(g.clone()),
                None => {},
            }
            let desc = JobDesc {
                name: name.clone(),
                script: copy_strings(full_desc.script.as_slice()),
                image,
                group,
                skip_if: match &full_desc.skip_if {
                    Some(s) => Some(s.clone()),
                    None => None,
                },
            };
            proof {
                assert(names_view(desc.group@) =~= match full_desc.group {
                    Some(g) => seq![g@],
                    None => Seq::<Seq<char>>::empty(),
                });
                assert(desc@ == loaded_job(name@, *full_desc));
            }
            let ghost before = jobs@;
            jobs.push(desc);
            proof {
                assert(desc_views(jobs@) =~= desc_views(before).push(loaded_job(name@, *full_desc)));
                assert(loaded_jobs(self.jobs@.take(i + 1)) =~= loaded_jobs(self.jobs@.take(i as int)).push(loaded_job(name@, *full_desc)));
            }
            i = i + 1;
        }
        assert(self.jobs@.take(self.jobs.len() as int) =~= self.jobs@);
    }

    fn load_constraints(&self, constraints: &mut Vec<(String, String)>)
        ensures
            constraint_views(final(constraints)@) == constraint_views(old(constraints)@) + file_constraints(self.constraints),
    {
        let ghost cs0 = constraint_views(constraints@);
        if let Some(constraint) = &self.constraints {
            if let Some(blocks) = &constraint.blocks {
                push_pairs(constraints, blocks, true);
            }
            if let Some(needs) = &constraint.needs {
                push_pairs(constraints, needs, false);
            }
            proof {
                assert(constraint_views(constraints@) =~= cs0 + file_constraints(self.constraints));
            }
        } else {
            assert(constraint_views(constraints@) =~= cs0 + file_constraints(self.constraints));
        }
    }

    fn load_display(&self, config: &mut CiDisplayConfig)
        ensures
            displayed(*old(config), self.display, *final(config)),
    {
        if let Some(display) = &self.display {
            if let Some(ok) = &display.ok {
                config.ok = ok.clone();
            }
            if let Some(ko) = &display.ko {
                config.ko = ko.clone();
            }
            if let Some(cancelled) = &display.cancelled {
                config.cancelled = cancelled.clone();
            }
            if let Some(spinner) = &display.spinner {
                config.spinner = (copy_strings(spinner.frames.as_slice()), spinner.per_frames);
            }
            if let Some(mode) = &display.mode {
                config.running_display = mode.running();
            }
            if let Some(final_display) = &display.final_item {
                config.final_display = final_display.mode();
            }
        }
    }

    /// Loads the file into `payload`: its jobs come after those there; its
    /// groups, if any, replace those there; its constraints come after those
    /// there; each display setting it gives replaces the one there; its extra
    /// files, if any, replace those there; its environment replaces the one
    /// there.
    pub fn load_into(&self, payload: &mut Payload)
        ensures
            desc_views(final(payload).ci.jobs@) == desc_views(old(payload).ci.jobs@) + loaded_jobs(self.jobs@),
            names_view(final(payload).ci.groups@) == match self.groups {
                Some(g) => names_view(g@),
                None => names_view(old(payload).ci.groups@),
            },
            constraint_views(final(payload).ci.constraints@) == constraint_views(old(payload).ci.constraints@)
                + file_constraints(self.constraints),
            opt_view(final(payload).env) == opt_view(self.env),
            names_view(final(payload).extra_files@) == match self.extra_files {
                Some(f) => names_view(f@),
                None => names_view(old(payload).extra_files@),
            },
            displayed(old(payload).display, self.display, final(payload).display),
    {
        self.load_jobs(&mut payload.ci.jobs);
        if let Some(groups) = &self.groups {
            payload.ci.groups = copy_strings(groups.as_slice());
        }
        self.load_constraints(&mut payload.ci.constraints);
        self.load_display(&mut payload.display);
        if let Some(files) = &self.extra_files {
            payload.extra_files = copy_strings(files.as_slice());
        }
        payload.env = match &self.env {
            Some(e) => Some(e.clone()),
            None => None,
        };
    }
}

impl Loader for Version1 {
    /// Loads the file into `payload` (see `load_into`).
    fn load(&self, payload: &mut Payload)
        ensures
            desc_views(final(payload).ci.jobs@) == desc_views(old(payload).ci.jobs@) + loaded_jobs(self.jobs@),
            names_view(final(payload).ci.groups@) == match self.groups {
                Some(g) => names_view(g@),
                None => names_view(old(payload).ci.groups@),
            },
            constraint_views(final(payload).ci.constraints@) == constraint_views(old(payload).ci.constraints@)
                + file_constraints(self.constraints),
            opt_view(final(payload).env) == opt_view(self.env),
            names_view(final(payload).extra_files@) == match self.extra_files {
                Some(f) => names_view(f@),
                None => names_view(old(payload).extra_files@),
            },
            displayed(old(payload).display, self.display, final(payload).display),
    {
        self.load_into(payload)
    }
}

} // verus!
