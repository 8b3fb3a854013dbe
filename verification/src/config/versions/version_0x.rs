//! Version 0.x of the configuration files: jobs as lists of instructions,
//! what each job blocks, and the look of the display.
use vstd::prelude::*;
use crate::ci::config::{JobDesc, JobDescView};
use crate::ci::display::CiDisplayConfig;
use crate::ci::job::dag::constraint_views;
use crate::config::versions::version_1::{blocks_pairs, push_pairs};
use crate::config::{Loader, Payload, desc_views};
use crate::names::names_view;
use crate::text::copy_strings;

verus! {

/// The frames of the spinner, and how many ticks each lasts.
#[derive(Debug)]
pub struct CiSpinner {
    pub frames: Vec<String>,
    pub per_frames: usize,
}

/// The marks of a job that succeeded, failed, or was cancelled.
#[derive(Debug)]
pub struct CiIcons {
    pub ok: Option<String>,
    pub ko: Option<String>,
    pub cancelled: Option<String>,
}

/// A file of version 0.x: the instructions of each job, by name; for some
/// jobs, the jobs they block; the spinner and the marks.
#[derive(Debug)]
pub struct Version0x {
    pub version: String,
    pub jobs: Vec<(String, Vec<String>)>,
    pub constraints: Option<Vec<(String, Vec<String>)>>,
    pub ci_spinner: Option<CiSpinner>,
    pub ci_icons: Option<CiIcons>,
}

/// The job of a name and its instructions: no container, no group, never
/// skipped.
pub open spec fn plain_job(name: Seq<char>, script: Seq<Seq<char>>) -> JobDescView {
    (name, script, None, Seq::empty(), None)
}

/// The jobs of the file, in order.
pub open spec fn plain_jobs(jobs: Seq<(String, Vec<String>)>) -> Seq<JobDescView> {
    jobs.map_values(|j: (String, Vec<String>)| plain_job(j.0@, names_view(j.1@)))
}

/// The constraints of the file: each job blocks each of the jobs listed
/// with it.
pub open spec fn blocking(c: Option<Vec<(String, Vec<String>)>>) -> Seq<(Seq<char>, Seq<char>)> {
    match c {
        Some(list) => blocks_pairs(list@),
        None => Seq::empty(),
    }
}

/// The display settings once the spinner and the marks of the file are
/// taken in; the modes are kept.
pub open spec fn styled(before: CiDisplayConfig, spinner: Option<CiSpinner>, icons: Option<CiIcons>, after: CiDisplayConfig) -> bool {
    &&& names_view(after.spinner.0@) == match spinner {
        Some(s) => names_view(s.frames@),
        None => names_view(before.spinner.0@),
    }
    &&& after.spinner.1 == match spinner {
        Some(s) => s.per_frames,
        None => before.spinner.1,
    }
    &&& after.ok@ == match icons {
        Some(i) => match i.ok { Some(s) => s@, None => before.ok@ },
        None => before.ok@,
    }
    &&& after.ko@ == match icons {
        Some(i) => match i.ko { Some(s) => s@, None => before.ko@ },
        None => before.ko@,
    }
    &&& after.cancelled@ == match icons {
        Some(i) => match i.cancelled { Some(s) => s@, None => before.cancelled@ },
        None => before.cancelled@,
    }
    &&& after.running_display == before.running_display
    &&& after.final_display == before.final_display
}

impl Version0x {
    fn load_jobs(&self, jobs: &mut Vec<JobDesc>)
        ensures
            desc_views(final(jobs)@) == desc_views(old(jobs)@) + plain_jobs(self.jobs@),
    {
        let ghost start = desc_views(jobs@);
        let mut i: usize = 0;
        while i < self.jobs.len()
            invariant
                i <= self.jobs.len(),
                desc_views(jobs@) == start + plain_jobs(self.jobs@.take(i as int)),
            decreases self.jobs.len() - i,
        {
            let desc = JobDesc {
                name: self.jobs[i].0.clone(),
                script: copy_strings(self.jobs[i].1.as_slice()),
                image: None,
                group: Vec::new(),
                skip_if: None,
            };
            proof {
                assert(names_view(desc.group@) =~= Seq::<Seq<char>>::empty());
                assert(desc@ == plain_job(self.jobs@[i as int].0@, names_view(self.jobs@[i as int].1@)));
            }
            let ghost before = jobs@;
            jobs.push(desc);
            proof {
                assert(desc_views(jobs@) =~= desc_views(before).push(desc@));
                assert(plain_jobs(self.jobs@.take(i + 1)) =~= plain_jobs(self.jobs@.take(i as int)).push(desc@));
            }
            i = i + 1;
        }
        assert(self.jobs@.take(self.jobs.len() as int) =~= self.jobs@);
    }

    fn load_style(&self, config: &mut CiDisplayConfig)
        ensures
            styled(*old(config), self.ci_spinner, self.ci_icons, *final(config)),
    {
        if let Some(spinner) = &self.ci_spinner {
            config.spinner = (copy_strings(spinner.frames.as_slice()), spinner.per_frames);
        }
        if let Some(icons) = &self.ci_icons {
            if let Some(ok) = &icons.ok {
                config.ok = ok.clone();
            }
            if let Some(ko) = &icons.ko {
                config.ko = ko.clone();
            }
            if let Some(cancelled) = &icons.cancelled {
                config.cancelled = cancelled.clone();
            }
        }
    }

    /// Loads the file into `payload`: its jobs come after those there, with
    /// no container, group or condition; each job blocks the jobs listed
    /// with it, after the constraints there; its spinner and marks replace
    /// those there. The groups, the environment and the extra files stay.
    pub fn load_into(&self, payload: &mut Payload)
        ensures
            desc_views(final(payload).ci.jobs@) == desc_views(old(payload).ci.jobs@) + plain_jobs(self.jobs@),
            final(payload).ci.groups == old(payload).ci.groups,
            constraint_views(final(payload).ci.constraints@) == constraint_views(old(payload).ci.constraints@)
                + blocking(self.constraints),
            styled(old(payload).display, self.ci_spinner, self.ci_icons, final(payload).display),
            final(payload).env == old(payload).env,
            final(payload).extra_files == old(payload).extra_files,
    {
        self.load_jobs(&mut payload.ci.jobs);
        let ghost cs0 = constraint_views(payload.ci.constraints@);
        if let Some(constraint) = &self.constraints {
            push_pairs(&mut payload.ci.constraints, constraint, true);
        } else {
            assert(constraint_views(payload.ci.constraints@) =~= cs0 + blocking(self.constraints));
        }
        self.load_style(&mut payload.display);
    }
}

impl Loader for Version0x {
    /// Loads the file into `payload` (see `load_into`).
    fn load(&self, payload: &mut Payload)
        ensures
            desc_views(final(payload).ci.jobs@) == desc_views(old(payload).ci.jobs@) + plain_jobs(self.jobs@),
            final(payload).ci.groups == old(payload).ci.groups,
            constraint_views(final(payload).ci.constraints@) == constraint_views(old(payload).ci.constraints@)
                + blocking(self.constraints),
            styled(old(payload).display, self.ci_spinner, self.ci_icons, final(payload).display),
            final(payload).env == old(payload).env,
            final(payload).extra_files == old(payload).extra_files,
    {
        self.load_into(payload)
    }
}

} // verus!
