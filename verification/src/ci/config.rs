//! What a run is configured with: the jobs as described, their groups and
//! constraints, and the options of the command line.
use vstd::prelude::*;
use crate::ci::job::Job;
use crate::ci::job::container_configuration::{ContainerConfiguration, DockerContainer, DockerModel};
use crate::ci::job::{JobModel, opt_view};
use crate::names::names_view;
use crate::text::copy_strings;

verus! {

/// A job as the configuration describes it: its name, its script, its
/// container if it has one, its groups (the first one counts) and the
/// condition under which it is skipped.
#[derive(Debug, Default)]
pub struct JobDesc {
    pub name: String,
    pub script: Vec<String>,
    pub image: Option<DockerContainer>,
    pub group: Vec<String>,
    pub skip_if: Option<String>,
}

/// What a job description is made of.
pub type JobDescView = (Seq<char>, Seq<Seq<char>>, Option<DockerModel>, Seq<Seq<char>>, Option<Seq<char>>);

impl View for JobDesc {
    type V = JobDescView;

    open spec fn view(&self) -> JobDescView {
        (self.name@, names_view(self.script@), container_view(self.image), names_view(self.group@), opt_view(self.skip_if))
    }
}

impl Clone for JobDesc {
    fn clone(&self) -> (r: Self)
        ensures
            r@ == self@,
    {
        JobDesc {
            name: self.name.clone(),
            script: copy_strings(self.script.as_slice()),
            image: match &self.image {
                Some(c) => Some(c.clone()),
                None => None,
            },
            group: copy_strings(self.group.as_slice()),
            skip_if: match &self.skip_if {
                Some(s) => Some(s.clone()),
                None => None,
            },
        }
    }
}

/// The model of an optional container.
pub open spec fn container_view(c: Option<DockerContainer>) -> Option<DockerModel> {
    match c {
        Some(c) => Some(c@),
        None => None,
    }
}

/// The job that a description stands for.
pub open spec fn desc_job(d: JobDescView) -> JobModel {
    (
        d.0,
        if d.3.len() > 0 { Some(d.3[0]) } else { None },
        d.2,
        d.1,
        d.4,
    )
}

impl JobDesc {
    /// The job that the description stands for.
    pub fn into_job(self) -> (r: Job)
        ensures
            r@ == desc_job(self@),
    {
        let group = if self.group.len() > 0 {
            Some(self.group[0].clone())
        } else {
            None
        };
        match self.image {
            None => Job::long(self.name, self.script, group, self.skip_if),
            Some(container) => Job::new(self.name, self.script, ContainerConfiguration::Container(container), group, self.skip_if),
        }
    }

    /// Whether two descriptions are of the same job: they have the same name.
    pub fn same_job(&self, other: &JobDesc) -> (r: bool)
        ensures
            r == (self.name@ == other.name@),
    {
        crate::text::str_eq(self.name.as_str(), other.name.as_str())
    }
}

/// The options of the command line: the one job (or `group:` and a group)
/// to run, and whether to leave the terminal alone.
#[derive(Debug, Default)]
pub struct CliOption {
    pub job: Option<String>,
    pub no_tty: bool,
}

/// What the configuration takes from the command line: the one job (or
/// `group:` and a group) to run.
#[derive(Debug, Default)]
pub struct CliConfig {
    pub job: Option<String>,
}

impl Clone for CliConfig {
    fn clone(&self) -> (r: Self)
        ensures
            opt_view(r.job) == opt_view(self.job),
    {
        CliConfig {
            job: match &self.job {
                Some(j) => Some(j.clone()),
                None => None,
            },
        }
    }
}

/// The configuration of a run: the jobs, the groups in order, and the
/// constraints between jobs (blocking, blocked).
#[derive(Debug, Default)]
pub struct Config {
    pub jobs: Vec<JobDesc>,
    pub groups: Vec<String>,
    pub constraints: Vec<(String, String)>,
}

/// The names of the jobs of `config`, in order.
pub open spec fn job_names_of(config: &Config) -> Seq<Seq<char>> {
    config.jobs@.map_values(|d: JobDesc| d.name@)
}

/// The lines that list a configuration: the names of its jobs in ascending
/// order, then each group after `group:`, in order.
pub fn listing(config: &Config) -> (r: Vec<String>)
    ensures
        r@.len() == config.jobs@.len() + config.groups@.len(),
        crate::names::ascending(names_view(r@).take(config.jobs@.len() as int)),
        names_view(r@).take(config.jobs@.len() as int).to_multiset() == job_names_of(config).to_multiset(),
        forall|k: int| 0 <= k < config.groups@.len() ==> #[trigger] names_view(r@)[config.jobs@.len() + k]
            == "group:"@ + config.groups@[k]@,
{
    let mut names: Vec<String> = Vec::new();
    let mut i: usize = 0;
    while i < config.jobs.len()
        invariant
            i <= config.jobs.len(),
            names_view(names@) == job_names_of(config).take(i as int),
        decreases config.jobs.len() - i,
    {
        names.push(config.jobs[i].name.clone());
        proof {
            assert(job_names_of(config).take(i + 1) =~= job_names_of(config).take(i as int).push(config.jobs@[i as int].name@));
            assert(names_view(names@) =~= job_names_of(config).take(i + 1));
        }
        i = i + 1;
    }
    assert(job_names_of(config).take(config.jobs.len() as int) =~= job_names_of(config));
    let mut r = crate::names::sorted(&names);
    let ghost sorted_part = names_view(r@);
    proof {
        vstd::seq_lib::to_multiset_len(names_view(r@));
        vstd::seq_lib::to_multiset_len(names_view(names@));
        assert(names_view(r@).take(config.jobs@.len() as int) =~= sorted_part);
    }
    let mut k: usize = 0;
    while k < config.groups.len()
        invariant
            k <= config.groups.len(),
            sorted_part.len() == config.jobs@.len(),
            r@.len() == config.jobs@.len() + k,
            names_view(r@).take(config.jobs@.len() as int) == sorted_part,
            forall|m: int| 0 <= m < k ==> #[trigger] names_view(r@)[config.jobs@.len() + m] == "group:"@ + config.groups@[m]@,
        decreases config.groups.len() - k,
    {
        let mut line = crate::text::copy_str("group:");
        line.append(config.groups[k].as_str());
        let ghost before = names_view(r@);
        r.push(line);
        proof {
            reveal_strlit("group:");
            assert(names_view(r@) =~= before.push(line@));
            assert(names_view(r@).take(config.jobs@.len() as int) =~= before.take(config.jobs@.len() as int));
        }
        k = k + 1;
    }
    r
}

} // verus!
