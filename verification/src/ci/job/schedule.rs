//! The decisions of a run: which jobs and constraints it takes, what is
//! first reported of each job, and what follows the end of a job.
use vstd::prelude::*;
use crate::ci::config::{CliOption, Config, JobDescView, desc_job};
use crate::ci::job::{Job, JobModel, Progress, opt_view};
use crate::ci::job::inspection::{JobProgress, JobProgressTracker, tracked_steps, with_step};
use crate::ci::job::dag::{
    Dag, JobEnumeration, JobResult, JobState, JobStateView, after_event, constraint_views, enumeration_of,
    state_named, watcher_names,
};
use crate::names::names_view;
use crate::text::copy_strings;
use vstd::string::StrSliceExecFns;

verus! {

/// The prefix that names a group in place of a job.
pub open spec fn group_prefix() -> Seq<char> {
    "group:"@
}

/// Whether the run of `filter` (a job's name, or `group:` and a group) takes
/// the job described by `d`; every job is taken without a filter.
pub open spec fn takes(filter: Option<Seq<char>>, d: JobDescView) -> bool {
    match filter {
        None => true,
        Some(f) => if f.len() >= 6 && f.take(6) == group_prefix() {
            d.3.len() > 0 && d.3[0] == f.skip(6)
        } else {
            d.0 == f
        },
    }
}

/// The jobs that the run of `filter` takes, in order.
pub open spec fn taken_jobs(filter: Option<Seq<char>>, descs: Seq<JobDescView>) -> Seq<JobModel>
    decreases descs.len(),
{
    if descs.len() == 0 {
        Seq::empty()
    } else {
        let r = taken_jobs(filter, descs.drop_last());
        if takes(filter, descs.last()) {
            r.push(desc_job(descs.last()))
        } else {
            r
        }
    }
}

/// A filter that names a job, not a group, takes exactly the jobs of that
/// name: every job taken bears the name of the filter, and every job that
/// bears it is taken; a group filter takes exactly the jobs whose first group
/// is that group; no filter takes every job.
pub proof fn lemma_filter_takes_exactly(filter: Seq<char>, descs: Seq<JobDescView>)
    ensures
        !(filter.len() >= 6 && filter.take(6) == "group:"@) ==> {
            &&& forall|k: int| 0 <= k < taken_jobs(Some(filter), descs).len()
                ==> (#[trigger] taken_jobs(Some(filter), descs)[k]).0 == filter
            &&& forall|j: int| 0 <= j < descs.len() && (#[trigger] descs[j]).0 == filter
                ==> taken_jobs(Some(filter), descs).contains(desc_job(descs[j]))
        },
        filter.len() >= 6 && filter.take(6) == "group:"@ ==> {
            &&& forall|k: int| 0 <= k < taken_jobs(Some(filter), descs).len()
                ==> (#[trigger] taken_jobs(Some(filter), descs)[k]).1 == Some(filter.skip(6))
            &&& forall|j: int| 0 <= j < descs.len() && (#[trigger] descs[j]).3.len() > 0 && descs[j].3[0] == filter.skip(6)
                ==> taken_jobs(Some(filter), descs).contains(desc_job(descs[j]))
        },
        taken_jobs(None, descs).len() == descs.len(),
    decreases descs.len(),
{
    if descs.len() > 0 {
        let rest = descs.drop_last();
        lemma_filter_takes_exactly(filter, rest);
        let before = taken_jobs(Some(filter), rest);
        let now = taken_jobs(Some(filter), descs);
        let last = descs.last();
        assert(group_prefix() == "group:"@);
        if takes(Some(filter), last) {
            assert(now == before.push(desc_job(last)));
            assert(now[before.len() as int] == desc_job(last));
        } else {
            assert(now == before);
        }
        assert forall|j: int| 0 <= j < descs.len() && (#[trigger] descs[j]).0 == filter
            && !(filter.len() >= 6 && filter.take(6) == "group:"@)
            implies now.contains(desc_job(descs[j])) by {
            if j < descs.len() - 1 {
                assert(rest[j] == descs[j]);
                let k = choose|k: int| 0 <= k < before.len() && before[k] == desc_job(rest[j]);
                assert(now[k] == before[k]);
            } else {
                assert(now[before.len() as int] == desc_job(descs[j]));
            }
        }
        assert forall|j: int| 0 <= j < descs.len() && (#[trigger] descs[j]).3.len() > 0 && descs[j].3[0] == filter.skip(6)
            && filter.len() >= 6 && filter.take(6) == "group:"@
            implies now.contains(desc_job(descs[j])) by {
            if j < descs.len() - 1 {
                assert(rest[j] == descs[j]);
                let k = choose|k: int| 0 <= k < before.len() && before[k] == desc_job(rest[j]);
                assert(now[k] == before[k]);
            } else {
                assert(now[before.len() as int] == desc_job(descs[j]));
            }
        }
        lemma_filter_takes_exactly(filter, rest);
    }
}

/// Whether `s` starts with `prefix`; the rest of `s` when it does.
fn strip_prefix(s: &str, prefix: &str) -> (r: Option<String>)
    ensures
        match r {
            Some(rest) => s@.len() >= prefix@.len() && s@.take(prefix@.len() as int) == prefix@
                && rest@ == s@.skip(prefix@.len() as int),
            None => !(s@.len() >= prefix@.len() && s@.take(prefix@.len() as int) == prefix@),
        },
{
    let a = crate::text::chars_of(s);
    let b = crate::text::chars_of(prefix);
    if a.len() < b.len() {
        return None;
    }
    let mut i: usize = 0;
    while i < b.len()
        invariant
            i <= b.len(),
            b.len() <= a.len(),
            a@ == s@,
            b@ == prefix@,
            forall|j: int| 0 <= j < i ==> a@[j] == b@[j],
        decreases b.len() - i,
    {
        if a[i] != b[i] {
            proof {
                assert(s@.take(prefix@.len() as int)[i as int] != prefix@[i as int]);
            }
            return None;
        }
        i = i + 1;
    }
    assert(s@.take(prefix@.len() as int) =~= prefix@);
    let rest = s.substring_char(b.len(), a.len()).to_owned();
    assert(s@.subrange(prefix@.len() as int, s@.len() as int) =~= s@.skip(prefix@.len() as int));
    Some(rest)
}

/// The jobs that a run takes: every job without a filter; the jobs whose
/// (first) group is `g` for the filter `group:g`; else the job of that name.
pub fn select_jobs(cli_option: &CliOption, config: &Config) -> (r: Vec<Job>)
    ensures
        r@.map_values(|j: Job| j@) == taken_jobs(
            opt_view(cli_option.job),
            config.jobs@.map_values(|d: crate::ci::config::JobDesc| d@),
        ),
{
    let ghost filter = opt_view(cli_option.job);
    let ghost descs = config.jobs@.map_values(|d: crate::ci::config::JobDesc| d@);
    let group = match &cli_option.job {
        Some(f) => strip_prefix(f.as_str(), "group:"),
        None => None,
    };
    proof {
        reveal_strlit("group:");
    }
    let mut r: Vec<Job> = Vec::new();
    let mut i: usize = 0;
    while i < config.jobs.len()
        invariant
            i <= config.jobs.len(),
            filter == opt_view(cli_option.job),
            descs == config.jobs@.map_values(|d: crate::ci::config::JobDesc| d@),
            group_prefix().len() == 6,
            match group {
                Some(g) => filter is Some && filter.unwrap().len() >= 6 && filter.unwrap().take(6) == group_prefix()
                    && g@ == filter.unwrap().skip(6),
                None => filter is None || !(filter.unwrap().len() >= 6 && filter.unwrap().take(6) == group_prefix()),
            },
            r@.map_values(|j: Job| j@) == taken_jobs(filter, descs.take(i as int)),
        decreases config.jobs.len() - i,
    {
        let desc = &config.jobs[i];
        let take = match &cli_option.job {
            None => true,
            Some(f) => match &group {
                Some(g) => desc.group.len() > 0 && crate::text::str_eq(desc.group[0].as_str(), g.as_str()),
                None => crate::text::str_eq(f.as_str(), desc.name.as_str()),
            },
        };
        proof {
            assert(descs.take(i + 1).drop_last() =~= descs.take(i as int));
            assert(descs.take(i + 1).last() == desc@);
            assert(take == takes(filter, desc@));
        }
        let ghost before = r@;
        if take {
            r.push(desc.clone().into_job());
            proof {
                assert(r@.map_values(|j: Job| j@) =~= before.map_values(|j: Job| j@).push(desc_job(desc@)));
            }
        }
        i = i + 1;
    }
    assert(descs.take(config.jobs.len() as int) =~= descs);
    r
}

/// The constraints that a run takes: all of them without a filter, none with one.
pub fn select_constraints(cli_option: &CliOption, config: &Config) -> (r: Vec<(String, String)>)
    ensures
        cli_option.job is None ==> constraint_views(r@) == constraint_views(config.constraints@),
        cli_option.job is Some ==> r@.len() == 0,
{
    match &cli_option.job {
        None => {
            let mut r: Vec<(String, String)> = Vec::new();
            let mut i: usize = 0;
            while i < config.constraints.len()
                invariant
                    i <= config.constraints.len(),
                    constraint_views(r@) == constraint_views(config.constraints@).take(i as int),
                decreases config.constraints.len() - i,
            {
                let ghost before = r@;
                r.push((config.constraints[i].0.clone(), config.constraints[i].1.clone()));
                proof {
                    assert(constraint_views(r@) =~= constraint_views(before).push(constraint_views(config.constraints@)[i as int]));
                    assert(constraint_views(config.constraints@).take(i + 1) =~= constraint_views(config.constraints@).take(i as int).push(constraint_views(config.constraints@)[i as int]));
                }
                i = i + 1;
            }
            assert(constraint_views(config.constraints@).take(config.constraints.len() as int) =~= constraint_views(config.constraints@));
            r
        },
        Some(_) => Vec::new(),
    }
}

/// What is first reported of a job before any job runs: available when it
/// is pending, blocked by the jobs that block it otherwise.
pub fn initial_progress(job: &JobEnumeration) -> (r: Progress)
    requires
        job@.1 is Pending || job@.1 is Blocked,
    ensures
        job@.1 is Pending ==> r == Progress::Available,
        job@.1 is Blocked ==> (r matches Progress::Blocked(v) && names_view(v@) == job@.2),
{
    match &job.state {
        JobState::Pending => Progress::Available,
        _ => Progress::Blocked(copy_strings(job.block.as_slice())),
    }
}

/// Takes note that the job `name`, handed out earlier, ended with `success`;
/// gives, after a failure, the names of the jobs that are cancelled.
pub fn settle(jobs: &mut Dag, name: &str, success: bool) -> (cancelled: Vec<String>)
    requires
        old(jobs).wf(),
        watcher_names(old(jobs).entries()).contains(name@),
        state_named(old(jobs).entries(), name@) is Started,
    ensures
        final(jobs).wf(),
        final(jobs).entries() == after_event(old(jobs).entries(), name@,
            if success { JobResult::Success } else { JobResult::Failure }),
        success ==> cancelled@.len() == 0,
        !success ==> forall|x: Seq<char>| names_view(cancelled@).contains(x) <==> exists|m: int|
            0 <= m < final(jobs).entries().len() && #[trigger] final(jobs).entries()[m].0.0 == x
            && final(jobs).entries()[m].1 is Cancelled,
{
    let result = if success { JobResult::Success } else { JobResult::Failure };
    jobs.record_event(name, result);
    let mut cancelled: Vec<String> = Vec::new();
    if !success {
        let all = jobs.enumerate();
        let ghost e = jobs.entries();
        let mut i: usize = 0;
        while i < all.len()
            invariant
                i <= all.len(),
                e == jobs.entries(),
                crate::ci::job::dag::same_jobs(crate::ci::job::dag::enumeration_views(all@), e),
                forall|x: Seq<char>| names_view(cancelled@).contains(x) <==> exists|k: int|
                    0 <= k < i && #[trigger] all@[k]@.0 == x && all@[k]@.1 is Cancelled,
            decreases all.len() - i,
        {
            let ghost before = cancelled@;
            if matches!(all[i].state, JobState::Cancelled(_)) {
                cancelled.push(all[i].name.clone());
            }
            proof {
                assert forall|x: Seq<char>| names_view(cancelled@).contains(x) <==> exists|k: int|
                    0 <= k < i + 1 && #[trigger] all@[k]@.0 == x && all@[k]@.1 is Cancelled by {
                    if names_view(cancelled@).contains(x) {
                        let j = choose|j: int| 0 <= j < names_view(cancelled@).len() && names_view(cancelled@)[j] == x;
                        if j < before.len() {
                            assert(names_view(before)[j] == x);
                            assert(names_view(before).contains(x));
                        } else {
                            assert(all@[i as int]@.0 == x);
                        }
                    }
                    if exists|k: int| 0 <= k < i + 1 && #[trigger] all@[k]@.0 == x && all@[k]@.1 is Cancelled {
                        let k = choose|k: int| 0 <= k < i + 1 && #[trigger] all@[k]@.0 == x && all@[k]@.1 is Cancelled;
                        if k < i {
                            assert(names_view(before).contains(x));
                            let j = choose|j: int| 0 <= j < names_view(before).len() && names_view(before)[j] == x;
                            assert(names_view(cancelled@)[j] == x);
                        } else {
                            assert(names_view(cancelled@)[before.len() as int] == x);
                        }
                    }
                }
            }
            i = i + 1;
        }
        proof {
            let v = crate::ci::job::dag::enumeration_views(all@);
            assert forall|x: Seq<char>| names_view(cancelled@).contains(x) <==> exists|m: int|
                0 <= m < e.len() && #[trigger] e[m].0.0 == x && e[m].1 is Cancelled by {
                if names_view(cancelled@).contains(x) {
                    let k = choose|k: int| 0 <= k < all@.len() && #[trigger] all@[k]@.0 == x && all@[k]@.1 is Cancelled;
                    assert(crate::ci::job::dag::is_query_of_some(v[k], e));
                    let m = choose|m: int| 0 <= m < e.len() && v[k] == enumeration_of(#[trigger] e[m]);
                    assert(e[m].0.0 == x);
                }
                if exists|m: int| 0 <= m < e.len() && #[trigger] e[m].0.0 == x && e[m].1 is Cancelled {
                    let m = choose|m: int| 0 <= m < e.len() && #[trigger] e[m].0.0 == x && e[m].1 is Cancelled;
                    assert(crate::ci::job::dag::has_query(v, e[m]));
                    let k = choose|k: int| 0 <= k < v.len() && #[trigger] v[k] == enumeration_of(e[m]);
                    assert(all@[k]@.0 == x);
                }
            }
        }
    }
    cancelled
}

/// The steps once each job of `names` is recorded as cancelled, in order.
pub open spec fn with_cancels(steps: Seq<(Seq<char>, Seq<Progress>)>, names: Seq<Seq<char>>) -> Seq<(Seq<char>, Seq<Progress>)>
    decreases names.len(),
{
    if names.len() == 0 {
        steps
    } else {
        with_step(with_cancels(steps, names.drop_last()), names.last(), Progress::Cancelled)
    }
}

/// Takes in a step that a job reported: the end of a job is noted in the
/// jobs (see `settle`); the step is recorded; after a failure, each job that
/// stands cancelled is recorded as cancelled.
pub fn take_progress(jobs: &mut Dag, tracker: &mut JobProgressTracker, progress: JobProgress)
    requires
        old(jobs).wf(),
        old(tracker).wf(),
        progress.progress_view() is Terminated ==> watcher_names(old(jobs).entries()).contains(progress.name_view())
            && state_named(old(jobs).entries(), progress.name_view()) is Started,
    ensures
        final(jobs).wf(),
        final(tracker).wf(),
        final(tracker).has_failed == (old(tracker).has_failed || progress.progress_view().is_failure()),
        final(tracker).end_time == old(tracker).end_time,
        match progress.progress_view() {
            Progress::Terminated(true) => {
                &&& final(jobs).entries() == after_event(old(jobs).entries(), progress.name_view(), JobResult::Success)
                &&& tracked_steps(final(tracker).states) == with_step(tracked_steps(old(tracker).states),
                    progress.name_view(), progress.progress_view())
            },
            Progress::Terminated(false) => {
                &&& final(jobs).entries() == after_event(old(jobs).entries(), progress.name_view(), JobResult::Failure)
                &&& exists|c: Seq<Seq<char>>| {
                    &&& (forall|x: Seq<char>| c.contains(x) <==> exists|m: int| 0 <= m < final(jobs).entries().len()
                        && #[trigger] final(jobs).entries()[m].0.0 == x && final(jobs).entries()[m].1 is Cancelled)
                    &&& tracked_steps(final(tracker).states) == with_cancels(with_step(tracked_steps(old(tracker).states),
                        progress.name_view(), progress.progress_view()), c)
                }
            },
            _ => {
                &&& final(jobs).entries() == old(jobs).entries()
                &&& tracked_steps(final(tracker).states) == with_step(tracked_steps(old(tracker).states),
                    progress.name_view(), progress.progress_view())
            },
        },
{
    let terminated = match progress.step() {
        Progress::Terminated(success) => Some(*success),
        _ => None,
    };
    let cancel_list = match terminated {
        Some(success) => settle(jobs, progress.name(), success),
        None => Vec::new(),
    };
    let ghost start = with_step(tracked_steps(tracker.states), progress.name_view(), progress.progress_view());
    tracker.record(progress);
    let ghost c = names_view(cancel_list@);
    let ghost failed = tracker.has_failed;
    let mut i: usize = 0;
    while i < cancel_list.len()
        invariant
            i <= cancel_list.len(),
            c == names_view(cancel_list@),
            tracker.wf(),
            tracker.has_failed == failed,
            tracker.end_time == old(tracker).end_time,
            tracked_steps(tracker.states) == with_cancels(start, c.take(i as int)),
        decreases cancel_list.len() - i,
    {
        tracker.record(JobProgress::cancel(cancel_list[i].clone()));
        proof {
            assert(c.take(i + 1).drop_last() =~= c.take(i as int));
            assert(c.take(i + 1).last() == cancel_list@[i as int]@);
        }
        i = i + 1;
    }
    assert(c.take(cancel_list.len() as int) =~= c);
}

/// The first step reported of a job, by where it stands before any job
/// runs: available when pending, blocked by the jobs that block it otherwise.
pub open spec fn first_step(job: crate::ci::job::dag::EnumerationView, p: Progress) -> bool {
    &&& job.1 is Pending ==> p == Progress::Available
    &&& job.1 is Blocked ==> (p matches Progress::Blocked(v) && names_view(v@) == job.2)
}

/// The tracker of a run before any job runs: each job, in the order given,
/// with its first step (see `initial_progress`).
pub fn initial_tracker(all: &Vec<JobEnumeration>) -> (r: JobProgressTracker)
    requires
        forall|k: int| 0 <= k < all@.len() ==> (#[trigger] all@[k])@.1 is Pending || all@[k]@.1 is Blocked,
        forall|i: int, j: int| 0 <= i < j < all@.len() ==> (#[trigger] all@[i])@.0 != (#[trigger] all@[j])@.0,
    ensures
        r.wf(),
        !r.has_failed,
        r.end_time is None,
        crate::ci::job::inspection::tracked_names(tracked_steps(r.states)) == all@.map_values(|q: JobEnumeration| q@.0),
        forall|k: int| 0 <= k < all@.len() ==> (#[trigger] tracked_steps(r.states)[k]).1.len() == 1
            && first_step(all@[k]@, tracked_steps(r.states)[k].1[0]),
{
    let mut tracker = JobProgressTracker::new();
    let mut i: usize = 0;
    while i < all.len()
        invariant
            i <= all.len(),
            forall|k: int| 0 <= k < all@.len() ==> (#[trigger] all@[k])@.1 is Pending || all@[k]@.1 is Blocked,
            forall|a: int, b: int| 0 <= a < b < all@.len() ==> (#[trigger] all@[a])@.0 != (#[trigger] all@[b])@.0,
            tracker.wf(),
            !tracker.has_failed,
            tracker.end_time is None,
            crate::ci::job::inspection::tracked_names(tracked_steps(tracker.states))
                == all@.take(i as int).map_values(|q: JobEnumeration| q@.0),
            forall|k: int| 0 <= k < i ==> (#[trigger] tracked_steps(tracker.states)[k]).1.len() == 1
                && first_step(all@[k]@, tracked_steps(tracker.states)[k].1[0]),
        decreases all.len() - i,
    {
        let ghost before = tracked_steps(tracker.states);
        let step = JobProgress::new(all[i].name.as_str(), initial_progress(&all[i]));
        proof {
            let names = crate::ci::job::inspection::tracked_names(before);
            if names.contains(all@[i as int]@.0) {
                let k = choose|k: int| 0 <= k < names.len() && names[k] == all@[i as int]@.0;
                assert(all@.take(i as int)[k] == all@[k]);
            }
        }
        tracker.record(step);
        proof {
            assert(all@.take(i + 1).map_values(|q: JobEnumeration| q@.0)
                =~= all@.take(i as int).map_values(|q: JobEnumeration| q@.0).push(all@[i as int]@.0));
        }
        i = i + 1;
    }
    assert(all@.take(all.len() as int) =~= all@);
    tracker
}

} // verus!
