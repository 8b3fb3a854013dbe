//! Version 0.y of the configuration files: jobs with their instructions, an
//! image and a group; the groups in order; the constraints; the display.
use vstd::prelude::*;
use crate::ci::config::{JobDesc, JobDescView};
use crate::ci::display::{CiDisplayConfig, Running};
use crate::ci::job::container_configuration::{DockerContainer, DockerModel};
use crate::ci::job::dag::constraint_views;
use crate::config::instructions::InstructionCompiler;
use crate::config::instructions::whitespaces::single_spaced;
use crate::config::versions::version_1::{Constraints, Spinner, file_constraints, push_pairs};
use crate::config::{Loader, Payload, desc_views};
use crate::names::names_view;
use crate::text::copy_strings;

verus! {

/// A job as the file describes it: its instructions, the image it runs in,
/// if any, and its group, if any.
#[derive(Debug)]
pub struct FullJobDesc {
    pub script: Vec<String>,
    pub image: Option<String>,
    pub group: Option<String>,
}

/// What the display may show of the jobs.
#[derive(Debug)]
pub enum Verbose {
    All,
    Process,
    Failed,
    Result,
}

/// How the run is shown while it goes on.
#[derive(Clone, Copy, Debug)]
pub enum DisplayMode {
    Silent,
    Sequence,
}

/// The display settings of the file.
#[derive(Debug)]
pub struct Display {
    pub mode: Option<DisplayMode>,
    pub ok: Option<String>,
    pub ko: Option<String>,
    pub cancelled: Option<String>,
    pub display: Option<Vec<Verbose>>,
    pub spinner: Option<Spinner>,
}

/// A file of version 0.y.
#[derive(Debug)]
pub struct Version0y {
    pub version: String,
    pub jobs: Vec<(String, FullJobDesc)>,
    pub groups: Option<Vec<String>>,
    pub constraints: Option<Constraints>,
    pub display: Option<Display>,
}

/// The container of an image given by its name alone: run as the calling
/// user, in the current directory, which is mounted.
pub open spec fn image_container(image: Seq<char>) -> DockerModel {
    (image, Seq::empty(), seq!["$PWD:$PWD:rw"@], "$USER_ID:$GROUP_ID"@, "$PWD"@)
}

/// The job that a named description stands for, each of its instructions
/// compiled by `compile`; it is never skipped.
pub open spec fn compiled_job(compile: spec_fn(Seq<char>) -> Seq<char>, name: Seq<char>, d: FullJobDesc) -> JobDescView {
    (
        name,
        names_view(d.script@).map_values(compile),
        match d.image {
            Some(i) => Some(image_container(i@)),
            None => None,
        },
        match d.group {
            Some(g) => seq![g@],
            None => Seq::empty(),
        },
        None,
    )
}

/// The jobs of the file, in order.
pub open spec fn compiled_jobs(compile: spec_fn(Seq<char>) -> Seq<char>, jobs: Seq<(String, FullJobDesc)>) -> Seq<JobDescView> {
    jobs.map_values(|j: (String, FullJobDesc)| compiled_job(compile, j.0@, j.1))
}

/// The running display of a mode.
pub open spec fn running_of(mode: DisplayMode) -> Running {
    match mode {
        DisplayMode::Silent => Running::Silent,
        DisplayMode::Sequence => Running::Sequence,
    }
}

/// The display settings once those of the file are taken in; the final
/// display is kept.
pub open spec fn shown(before: CiDisplayConfig, d: Option<Display>, after: CiDisplayConfig) -> bool {
    &&& after.ok@ == match d {
        Some(d) => match d.ok { Some(s) => s@, None => before.ok@ },
        None => before.ok@,
    }
    &&& after.ko@ == match d {
        Some(d) => match d.ko { Some(s) => s@, None => before.ko@ },
        None => before.ko@,
    }
    &&& after.cancelled@ == match d {
        Some(d) => match d.cancelled { Some(s) => s@, None => before.cancelled@ },
        None => before.cancelled@,
    }
    &&& names_view(after.spinner.0@) == match d {
        Some(d) => match d.spinner { Some(s) => names_view(s.frames@), None => names_view(before.spinner.0@) },
        None => names_view(before.spinner.0@),
    }
    &&& after.spinner.1 == match d {
        Some(d) => match d.spinner { Some(s) => s.per_frames, None => before.spinner.1 },
        None => before.spinner.1,
    }
    &&& after.running_display == match d {
        Some(d) => match d.mode { Some(m) => running_of(m), None => before.running_display },
        None => before.running_display,
    }
    &&& after.final_display == before.final_display
}

/// The instructions, each compiled by `compiler`.
fn compile_all(compiler: &InstructionCompiler, script: &Vec<String>) -> (r: Vec<String>)
    ensures
        names_view(r@) == names_view(script@).map_values(|i: Seq<char>| compiler.compiled_by(i)),
{
    let mut r: Vec<String> = Vec::new();
    let mut i: usize = 0;
    while i < script.len()
        invariant
            i <= script.len(),
            names_view(r@) == names_view(script@).take(i as int).map_values(|x: Seq<char>| compiler.compiled_by(x)),
        decreases script.len() - i,
    {
        let ghost before = r@;
        r.push(compiler.compile(script[i].as_str()));
        proof {
            assert(names_view(r@) =~= names_view(before).push(compiler.compiled_by(script@[i as int]@)));
            assert(names_view(script@).take(i + 1) =~= names_view(script@).take(i as int).push(script@[i as int]@));
        }
        i = i + 1;
    }
    assert(names_view(script@).take(script.len() as int) =~= names_view(script@));
    r
}

impl Version0y {
    fn load_jobs(&self, compiler: &InstructionCompiler, jobs: &mut Vec<JobDesc>)
        ensures
            desc_views(final(jobs)@) == desc_views(old(jobs)@) + compiled_jobs(|i: Seq<char>| compiler.compiled_by(i), self.jobs@),
    {
        let ghost start = desc_views(jobs@);
        let mut i: usize = 0;
        while i < self.jobs.len()
            invariant
                i <= self.jobs.len(),
                desc_views(jobs@) == start + compiled_jobs(|i: Seq<char>| compiler.compiled_by(i), self.jobs@.take(i as int)),
            decreases self.jobs.len() - i,
        {
            let name = &self.jobs[i].0;
            let full_desc = &self.jobs[i].1;
            let image = match &full_desc.image {
                Some(image) => {
                    let volumes: Vec<String> = vec![crate::text::copy_str("$PWD:$PWD:rw")];
                    Some(DockerContainer::new(image.as_str(), "$USER_ID:$GROUP_ID", "$PWD", volumes.as_slice()))
                },
                None => None,
            };
            let mut group: Vec<String> = Vec::new();
            match &full_desc.group {
                Some(g) => group.push(g.clone()),
                None => {},
            }
            let desc = JobDesc {
                name: name.clone(),
                script: compile_all(compiler, &full_desc.script),
                image,
                group,
                skip_if: None,
            };
            proof {
                reveal_strlit("$PWD:$PWD:rw");
                assert(names_view(desc.group@) =~= match full_desc.group {
                    Some(g) => seq![g@],
                    None => Seq::<Seq<char>>::empty(),
                });
                assert(desc@ == compiled_job(|i: Seq<char>| compiler.compiled_by(i), name@, *full_desc));
            }
            let ghost before = jobs@;
            jobs.push(desc);
            proof {
                assert(desc_views(jobs@) =~= desc_views(before).push(desc@));
                assert(compiled_jobs(|i: Seq<char>| compiler.compiled_by(i), self.jobs@.take(i + 1))
                    =~= compiled_jobs(|i: Seq<char>| compiler.compiled_by(i), self.jobs@.take(i as int)).push(desc@));
            }
            i = i + 1;
        }
        assert(self.jobs@.take(self.jobs.len() as int) =~= self.jobs@);
    }

    fn load_display(&self, config: &mut CiDisplayConfig)
        ensures
            shown(*old(config), self.display, *final(config)),
    {
        if let Some(display) = &self.display {
            if let Some(ok) = &display.ok {
                config.ok = ok.clone();
            }
            if let Some(ko) = &display.ko {
                config.ko = ko.clone();
            }
            if let Some(cancelled) = &display.cancelled {
                config.cancelled = cancelled.clone();
            }
            if let Some(spinner) = &display.spinner {
                config.spinner = (copy_strings(spinner.frames.as_slice()), spinner.per_frames);
            }
            if let Some(mode) = &display.mode {
                config.running_display = match mode {
                    DisplayMode::Silent => Running::Silent,
                    DisplayMode::Sequence => Running::Sequence,
                };
            }
        }
    }

    /// Loads the file into `payload`, its instructions compiled by
    /// `compiler`: its jobs come after those there; its groups, if any,
    /// replace those there; its constraints (what each job blocks, then what
    /// each job needs) come after those there; each display setting it gives
    /// replaces the one there. The environment and the extra files stay.
    pub fn load_with(&self, compiler: &InstructionCompiler, payload: &mut Payload)
        ensures
            desc_views(final(payload).ci.jobs@) == desc_views(old(payload).ci.jobs@) + compiled_jobs(|i: Seq<char>| compiler.compiled_by(i), self.jobs@),
            names_view(final(payload).ci.groups@) == match self.groups {
                Some(g) => names_view(g@),
                None => names_view(old(payload).ci.groups@),
            },
            constraint_views(final(payload).ci.constraints@) == constraint_views(old(payload).ci.constraints@)
                + file_constraints(self.constraints),
            shown(old(payload).display, self.display, final(payload).display),
            final(payload).env == old(payload).env,
            final(payload).extra_files == old(payload).extra_files,
    {
        self.load_jobs(compiler, &mut payload.ci.jobs);
        if let Some(groups) = &self.groups {
            payload.ci.groups = copy_strings(groups.as_slice());
        }
        let ghost cs0 = constraint_views(payload.ci.constraints@);
        if let Some(constraint) = &self.constraints {
            if let Some(blocks) = &constraint.blocks {
                push_pairs(&mut payload.ci.constraints, blocks, true);
            }
            if let Some(needs) = &constraint.needs {
                push_pairs(&mut payload.ci.constraints, needs, false);
            }
            assert(constraint_views(payload.ci.constraints@) =~= cs0 + file_constraints(self.constraints));
        } else {
            assert(constraint_views(payload.ci.constraints@) =~= cs0 + file_constraints(self.constraints));
        }
        self.load_display(&mut payload.display);
    }

    /// Loads the file into `payload` (see `load_with`) with the compiler of
    /// one pass, the one that single-spaces the words of each instruction.
    pub fn load_into(&self, payload: &mut Payload)
        ensures
            desc_views(final(payload).ci.jobs@) == desc_views(old(payload).ci.jobs@)
                + compiled_jobs(|i: Seq<char>| single_spaced(i), self.jobs@),
            names_view(final(payload).ci.groups@) == match self.groups {
                Some(g) => names_view(g@),
                None => names_view(old(payload).ci.groups@),
            },
            constraint_views(final(payload).ci.constraints@) == constraint_views(old(payload).ci.constraints@)
                + file_constraints(self.constraints),
            shown(old(payload).display, self.display, final(payload).display),
            final(payload).env == old(payload).env,
            final(payload).extra_files == old(payload).extra_files,
    {
        let compiler = InstructionCompiler::default();
        self.load_with(&compiler, payload);
        assert((|i: Seq<char>| compiler.compiled_by(i)) =~= (|i: Seq<char>| single_spaced(i)));
    }
}

impl Loader for Version0y {
    /// Loads the file into `payload` (see `load_into`).
    fn load(&self, payload: &mut Payload)
        ensures
            desc_views(final(payload).ci.jobs@) == desc_views(old(payload).ci.jobs@)
                + compiled_jobs(|i: Seq<char>| single_spaced(i), self.jobs@),
            names_view(final(payload).ci.groups@) == match self.groups {
                Some(g) => names_view(g@),
                None => names_view(old(payload).ci.groups@),
            },
            constraint_views(final(payload).ci.constraints@) == constraint_views(old(payload).ci.constraints@)
                + file_constraints(self.constraints),
            shown(old(payload).display, self.display, final(payload).display),
            final(payload).env == old(payload).env,
            final(payload).extra_files == old(payload).extra_files,
    {
        self.load_into(payload)
    }
}

} // verus!
