//! Scheduling the files that the globs of a configuration match, the work on
//! one file, and the report of a run.

use crate::check::{check_file, check_outcome};
use crate::claims::{claim_outcome, claimed, share, Claims, Clash, Conflict, Pair};
use crate::config::Config;
use crate::fix::{fix_file, fixed_text};
use crate::format::Format;
use crate::lines::{eol, join_lines, lemma_join_push};
use crate::text::texts;
use std::sync::Arc;
use vstd::prelude::*;
use vstd::string::StringExecFns;

verus! {

/// Issues found
#[derive(Debug, Clone, PartialEq)]
pub struct Failure {
    pub errors: Vec<String>,
}

impl Default for Failure {
    fn default() -> (r: Failure)
        ensures
            r.errors@.len() == 0,
    {
        Failure { errors: Vec::new() }
    }
}

impl Failure {
    /// The report as text: each message on a line of its own.
    pub fn to_string(&self) -> (s: String)
        ensures
            s@ == join_lines(texts(self.errors@), false),
    {
        let mut s = String::new();
        let mut i: usize = 0;
        assert(texts(self.errors@).take(0) == Seq::<Seq<char>>::empty());
        while i < self.errors.len()
            invariant
                i <= self.errors@.len(),
                s@ == join_lines(texts(self.errors@).take(i as int), false),
            decreases self.errors@.len() - i,
        {
            proof {
                let list = texts(self.errors@);
                lemma_join_push(list.take(i as int), list[i as int], false);
                assert(list.take(i + 1) == list.take(i as int).push(list[i as int]));
                reveal_strlit("\n");
                assert("\n"@ =~= eol(false));
            }
            s.append(self.errors[i].as_str());
            s.append("\n");
            i += 1;
        }
        assert(texts(self.errors@).take(i as int) == texts(self.errors@));
        s
    }
}

/// One path that a glob brought.
#[derive(Debug, Clone, PartialEq, Eq)]
pub enum Match {
    /// A regular file, with its path.
    File(String),
    /// Something that is no regular file.
    Other,
    /// A path that could not be read, with the message of the error. The
    /// expansion of the glob ends here.
    Unreadable(String),
}

/// A `Match` with its texts as character sequences.
pub enum Found {
    File(Seq<char>),
    Other,
    Unreadable(Seq<char>),
}

impl View for Match {
    type V = Found;

    open spec fn view(&self) -> Found {
        match *self {
            Match::File(path) => Found::File(path@),
            Match::Other => Found::Other,
            Match::Unreadable(message) => Found::Unreadable(message@),
        }
    }
}

/// The matches as character sequences.
pub open spec fn match_views(matches: Seq<Match>) -> Seq<Found> {
    Seq::new(matches.len(), |i: int| matches[i]@)
}

/// A file to work on, with the holder and the license that its notice must
/// name.
#[derive(Debug, Clone, PartialEq, Eq)]
pub struct Job {
    pub path: String,
    pub holder: Arc<String>,
    pub license: Arc<String>,
}

/// The jobs as character sequences: path, holder and license.
pub open spec fn job_views(jobs: Seq<Job>) -> Seq<(Seq<char>, Seq<char>, Seq<char>)> {
    Seq::new(jobs.len(), |i: int| (jobs[i].path@, jobs[i].holder@, jobs[i].license@))
}

/// Why the expansion of a glob failed.
#[derive(Debug, Clone, PartialEq, Eq)]
pub enum Fault {
    /// The glob could not be expanded, or one of its paths could not be read.
    Expand(String),
    /// In fix mode, a file that the glob matched is claimed by an earlier glob
    /// for another holder or license.
    Conflict(Conflict),
}

/// A `Fault` with its texts as character sequences.
pub enum Flaw {
    Expand(Seq<char>),
    Conflict(Clash),
}

impl View for Fault {
    type V = Flaw;

    open spec fn view(&self) -> Flaw {
        match *self {
            Fault::Expand(message) => Flaw::Expand(message@),
            Fault::Conflict(conflict) => Flaw::Conflict(conflict@),
        }
    }
}

/// A glob and why its expansion failed.
#[derive(Debug, Clone, PartialEq, Eq)]
pub struct GlobError {
    pub glob: String,
    pub fault: Fault,
}

/// The errors as character sequences: the glob and the fault.
pub open spec fn error_views(errors: Seq<GlobError>) -> Seq<(Seq<char>, Flaw)> {
    Seq::new(errors.len(), |i: int| (errors[i].glob@, errors[i].fault@))
}

/// Why a run ended before any file was worked on: the globs whose expansion
/// failed, in the order of the globs. There is at least one.
#[derive(Debug, Clone, PartialEq, Eq)]
pub struct RunnerError {
    pub errors: Vec<GlobError>,
}

/// What a run is to work on.
#[derive(Debug, Clone, PartialEq, Eq)]
pub struct Schedule {
    /// The files to work on, in the order of the globs and of their matches.
    pub jobs: Vec<Job>,
    /// The globs that matched no file.
    pub no_match_glob: Vec<String>,
}

/// How far the matches of one glob have been gone through.
pub struct Progress {
    /// The files claimed so far, by this glob and those before it.
    pub claims: Map<Seq<char>, Pair>,
    /// The jobs scheduled so far.
    pub jobs: Seq<(Seq<char>, Seq<char>, Seq<char>)>,
    /// Whether this glob has matched a file.
    pub matched: bool,
}

impl Progress {
    /// The progress after one more match of a glob with the given holder and
    /// license. What is no regular file is passed over. In check mode every
    /// file becomes a job. In fix mode a file that nobody claimed is claimed
    /// and becomes a job; one that the same holder and license claimed is
    /// passed over; one that another pair claimed is a conflict.
    pub open spec fn step(self, fix: bool, pair: Pair, found: Found) -> Result<Progress, Flaw> {
        match found {
            Found::Unreadable(message) => Err(Flaw::Expand(message)),
            Found::Other => Ok(self),
            Found::File(path) => if !fix {
                Ok(Progress { jobs: self.jobs.push((path, pair.0, pair.1)), matched: true, ..self })
            } else {
                match claim_outcome(self.claims, path, pair) {
                    Err(clash) => Err(Flaw::Conflict(clash)),
                    Ok(fresh) => if fresh {
                        Ok(
                            Progress {
                                claims: claimed(self.claims, path, pair),
                                jobs: self.jobs.push((path, pair.0, pair.1)),
                                matched: true,
                            },
                        )
                    } else {
                        Ok(Progress { matched: true, ..self })
                    },
                }
            },
        }
    }

    /// The progress after the given matches, up to the first that fails, and
    /// that failure if there is one.
    pub open spec fn run(self, fix: bool, pair: Pair, matches: Seq<Found>) -> (Progress, Option<Flaw>)
        decreases matches.len(),
    {
        if matches.len() == 0 {
            (self, None)
        } else {
            match self.step(fix, pair, matches[0]) {
                Err(flaw) => (self, Some(flaw)),
                Ok(next) => next.run(fix, pair, matches.drop_first()),
            }
        }
    }
}

/// Goes through the matches of one glob: schedules a job for each file that
/// is to be worked on, and in fix mode enters each in the table of claimed
/// paths. Returns whether the glob matched a file.
pub fn run_glob(
    glob: &str,
    holder: Arc<String>,
    license: Arc<String>,
    fix: bool,
    matches: &Vec<Match>,
    jobs: &mut Vec<Job>,
    path_map: &mut Claims,
) -> (r: Result<bool, GlobError>)
    requires
        old(path_map).wf(),
    ensures
        final(path_map).wf(),
        ({
            let start = Progress {
                claims: old(path_map)@,
                jobs: job_views(old(jobs)@),
                matched: false,
            };
            let end = start.run(fix, (holder@, license@), match_views(matches@));
            &&& final(path_map)@ == end.0.claims
            &&& job_views(final(jobs)@) == end.0.jobs
            &&& match r {
                Ok(matched) => end.1 is None && matched == end.0.matched,
                Err(e) => e.glob@ == glob@ && end.1 == Some(e.fault@),
            }
        }),
{
    let mut matched = false;
    let ghost pair = (holder@, license@);
    let ghost all = match_views(matches@);
    let ghost start = Progress { claims: path_map@, jobs: job_views(jobs@), matched: false };
    let mut i: usize = 0;
    assert(all.skip(0) == all);
    while i < matches.len()
        invariant
            i <= matches@.len(),
            all == match_views(matches@),
            pair == (holder@, license@),
            start == (Progress {
                claims: old(path_map)@,
                jobs: job_views(old(jobs)@),
                matched: false,
            }),
            path_map.wf(),
            start.run(fix, pair, all) == (Progress {
                claims: path_map@,
                jobs: job_views(jobs@),
                matched,
            }).run(fix, pair, all.skip(i as int)),
        decreases matches@.len() - i,
    {
        proof {
            let rest = all.skip(i as int);
            assert(rest[0] == matches@[i as int]@);
            assert(rest.drop_first() == all.skip(i + 1));
        }
        match &matches[i] {
            Match::Unreadable(message) => {
                return Err(
                    GlobError { glob: String::from_str(glob), fault: Fault::Expand(message.clone()) },
                );
            },
            Match::Other => {},
            Match::File(path) => {
                matched = true;
                // in fix mode, run additional check for if there are conflicts
                // in the config. Otherwise, the fix result is arbitrary
                let fresh = if fix {
                    match path_map.claim(path.clone(), share(&holder), share(&license)) {
                        Ok(fresh) => fresh,
                        Err(conflict) => {
                            return Err(
                                GlobError {
                                    glob: String::from_str(glob),
                                    fault: Fault::Conflict(conflict),
                                },
                            );
                        },
                    }
                } else {
                    true
                };
                // a file that an earlier job covers is skipped
                if fresh {
                    let ghost before = job_views(jobs@);
                    jobs.push(
                        Job { path: path.clone(), holder: share(&holder), license: share(&license) },
                    );
                    assert(job_views(jobs@) =~= before.push((path@, pair.0, pair.1)));
                }
            },
        }
        i += 1;
    }
    Ok(matched)
}

/// What the scheduling of a run has come to.
pub struct Plan {
    /// The files claimed so far.
    pub claims: Map<Seq<char>, Pair>,
    /// The jobs scheduled so far.
    pub jobs: Seq<(Seq<char>, Seq<char>, Seq<char>)>,
    /// The globs that matched no file.
    pub no_match: Seq<Seq<char>>,
    /// The globs whose expansion failed, each with its failure.
    pub errors: Seq<(Seq<char>, Flaw)>,
}

impl Plan {
    /// The plan before the first glob.
    pub open spec fn start() -> Plan {
        Plan { claims: Map::empty(), jobs: Seq::empty(), no_match: Seq::empty(), errors: Seq::empty() }
    }

    /// The plan after one more glob. A glob that could not be expanded is
    /// an error. The matches of the others are gone through: a failure among
    /// them is an error, and what was scheduled before it stays; a glob
    /// without failure that matched no file is noted.
    pub open spec fn step(
        self,
        fix: bool,
        entry: (Seq<char>, Seq<char>, Seq<char>),
        expansion: Result<Seq<Found>, Seq<char>>,
    ) -> Plan {
        match expansion {
            Err(message) => Plan { errors: self.errors.push((entry.0, Flaw::Expand(message))), ..self },
            Ok(matches) => {
                let end = (Progress { claims: self.claims, jobs: self.jobs, matched: false }).run(
                    fix,
                    (entry.1, entry.2),
                    matches,
                );
                Plan {
                    claims: end.0.claims,
                    jobs: end.0.jobs,
                    no_match: if end.1 is None && !end.0.matched {
                        self.no_match.push(entry.0)
                    } else {
                        self.no_match
                    },
                    errors: match end.1 {
                        Some(flaw) => self.errors.push((entry.0, flaw)),
                        None => self.errors,
                    },
                }
            },
        }
    }

    /// The plan after the given globs, each with its expansion.
    pub open spec fn run(
        self,
        fix: bool,
        entries: Seq<(Seq<char>, Seq<char>, Seq<char>)>,
        expansions: Seq<Result<Seq<Found>, Seq<char>>>,
    ) -> Plan
        decreases entries.len(),
    {
        if entries.len() == 0 || expansions.len() == 0 {
            self
        } else {
            self.step(fix, entries[0], expansions[0]).run(
                fix,
                entries.drop_first(),
                expansions.drop_first(),
            )
        }
    }
}

/// Whether every job works on a file that is claimed for the holder and the
/// license of the job, and no two jobs work on the same file.
pub open spec fn jobs_apart(
    claims: Map<Seq<char>, Pair>,
    jobs: Seq<(Seq<char>, Seq<char>, Seq<char>)>,
) -> bool {
    &&& forall|i: int|
        0 <= i < jobs.len() ==> claims.dom().contains((#[trigger] jobs[i]).0) && claims[jobs[i].0]
            == (jobs[i].1, jobs[i].2)
    &&& forall|i: int, j: int|
        0 <= i < j < jobs.len() ==> (#[trigger] jobs[i]).0 != (#[trigger] jobs[j]).0
}

/// In fix mode the matches of a glob leave the jobs apart.
proof fn lemma_progress_apart(progress: Progress, pair: Pair, matches: Seq<Found>)
    requires
        jobs_apart(progress.claims, progress.jobs),
    ensures
        jobs_apart(
            progress.run(true, pair, matches).0.claims,
            progress.run(true, pair, matches).0.jobs,
        ),
    decreases matches.len(),
{
    if matches.len() > 0 {
        match progress.step(true, pair, matches[0]) {
            Err(_) => {},
            Ok(next) => {
                assert(jobs_apart(next.claims, next.jobs)) by {
                    if next.jobs != progress.jobs {
                        let path = matches[0]->File_0;
                        assert(next.jobs == progress.jobs.push((path, pair.0, pair.1)));
                        assert forall|i: int| 0 <= i < next.jobs.len() implies next.claims.dom().contains(
                            (#[trigger] next.jobs[i]).0,
                        ) && next.claims[next.jobs[i].0] == (next.jobs[i].1, next.jobs[i].2) by {
                            if i < progress.jobs.len() {
                                assert(next.jobs[i] == progress.jobs[i]);
                            }
                        }
                        assert forall|i: int, j: int| 0 <= i < j < next.jobs.len() implies (
                        #[trigger] next.jobs[i]).0 != (#[trigger] next.jobs[j]).0 by {
                            assert(next.jobs[i] == progress.jobs[i]);
                            if j < progress.jobs.len() {
                                assert(next.jobs[j] == progress.jobs[j]);
                            }
                        }
                    }
                }
                lemma_progress_apart(next, pair, matches.drop_first());
            },
        }
    }
}

/// In fix mode the globs of a run leave the jobs apart.
proof fn lemma_plan_apart(
    plan: Plan,
    entries: Seq<(Seq<char>, Seq<char>, Seq<char>)>,
    expansions: Seq<Result<Seq<Found>, Seq<char>>>,
)
    requires
        jobs_apart(plan.claims, plan.jobs),
    ensures
        jobs_apart(
            plan.run(true, entries, expansions).claims,
            plan.run(true, entries, expansions).jobs,
        ),
    decreases entries.len(),
{
    if entries.len() > 0 && expansions.len() > 0 {
        if let Ok(matches) = expansions[0] {
            lemma_progress_apart(
                Progress { claims: plan.claims, jobs: plan.jobs, matched: false },
                (entries[0].1, entries[0].2),
                matches,
            );
        }
        lemma_plan_apart(
            plan.step(true, entries[0], expansions[0]),
            entries.drop_first(),
            expansions.drop_first(),
        );
    }
}

/// In fix mode no file is worked on twice: the jobs of a run have different
/// paths, whatever the globs matched.
pub proof fn lemma_fix_jobs_apart(
    entries: Seq<(Seq<char>, Seq<char>, Seq<char>)>,
    expansions: Seq<Result<Seq<Found>, Seq<char>>>,
)
    ensures
        ({
            let jobs = Plan::start().run(true, entries, expansions).jobs;
            forall|i: int, j: int|
                0 <= i < j < jobs.len() ==> (#[trigger] jobs[i]).0 != (#[trigger] jobs[j]).0
        }),
{
    lemma_plan_apart(Plan::start(), entries, expansions);
}

/// The expansions as character sequences.
pub open spec fn expansion_views(expansions: Seq<Result<Vec<Match>, String>>) -> Seq<
    Result<Seq<Found>, Seq<char>>,
> {
    Seq::new(
        expansions.len(),
        |i: int|
            match expansions[i] {
                Ok(matches) => Ok(match_views(matches@)),
                Err(message) => Err(message@),
            },
    )
}

/// Schedules the run for the given config: goes through its globs in their
/// order, each with its expansion, and returns the files to work on. The run
/// fails if the expansion of any glob failed; then no file is to be worked
/// on.
pub fn run(config: Config, fix: bool, expansions: &Vec<Result<Vec<Match>, String>>) -> (r: Result<
    Schedule,
    RunnerError,
>)
    requires
        config.wf(),
        expansions@.len() == config.list().len(),
    ensures
        ({
            let plan = Plan::start().run(fix, config.list(), expansion_views(expansions@));
            match r {
                Ok(schedule) => {
                    &&& plan.errors.len() == 0
                    &&& job_views(schedule.jobs@) == plan.jobs
                    &&& texts(schedule.no_match_glob@) == plan.no_match
                },
                Err(e) => plan.errors.len() > 0 && error_views(e.errors@) == plan.errors,
            }
        }),
        fix ==> (r matches Ok(schedule) ==> forall|i: int, j: int|
            0 <= i < j < schedule.jobs@.len() ==> (#[trigger] schedule.jobs@[i]).path@ != (
            #[trigger] schedule.jobs@[j]).path@),
{
    let mut path_map = Claims::new();
    let mut jobs: Vec<Job> = Vec::new();
    let mut no_match_glob: Vec<String> = Vec::new();
    let mut glob_errors: Vec<GlobError> = Vec::new();

    let ghost list = config.list();
    let ghost all = expansion_views(expansions@);
    let entries = config.into_iter();
    let mut i: usize = 0;
    assert(list.skip(0) == list);
    assert(all.skip(0) == all);
    assert(job_views(jobs@) =~= Seq::empty());
    assert(texts(no_match_glob@) =~= Seq::empty());
    assert(error_views(glob_errors@) =~= Seq::empty());
    while i < entries.len()
        invariant
            i <= entries@.len(),
            entries@.len() == expansions@.len(),
            list == crate::claims::entry_views(entries@),
            all == expansion_views(expansions@),
            path_map.wf(),
            Plan::start().run(fix, list, all) == (Plan {
                claims: path_map@,
                jobs: job_views(jobs@),
                no_match: texts(no_match_glob@),
                errors: error_views(glob_errors@),
            }).run(fix, list.skip(i as int), all.skip(i as int)),
        decreases entries@.len() - i,
    {
        proof {
            let rest = list.skip(i as int);
            assert(rest[0] == list[i as int]);
            assert(rest.drop_first() == list.skip(i + 1));
            let others = all.skip(i as int);
            assert(others[0] == all[i as int]);
            assert(others.drop_first() == all.skip(i + 1));
        }
        let glob = entries[i].0.as_str();
        let result = match &expansions[i] {
            Ok(matches) => run_glob(
                glob,
                share(&entries[i].1),
                share(&entries[i].2),
                fix,
                matches,
                &mut jobs,
                &mut path_map,
            ),
            Err(message) => Err(
                GlobError { glob: String::from_str(glob), fault: Fault::Expand(message.clone()) },
            ),
        };
        match result {
            Ok(matched) => {
                if !matched {
                    let ghost before = texts(no_match_glob@);
                    no_match_glob.push(String::from_str(glob));
                    assert(texts(no_match_glob@) =~= before.push(glob@));
                }
            },
            Err(e) => {
                let ghost before = error_views(glob_errors@);
                let ghost added = (e.glob@, e.fault@);
                glob_errors.push(e);
                assert(error_views(glob_errors@) =~= before.push(added));
            },
        }
        i += 1;
    }
    // handle glob errors first
    if glob_errors.len() > 0 {
        return Err(RunnerError { errors: glob_errors });
    }
    proof {
        if fix {
            lemma_fix_jobs_apart(list, all);
            let planned = job_views(jobs@);
            assert(list.skip(i as int).len() == 0);
            assert(Plan::start().run(fix, list, all).jobs == planned);
            assert forall|i: int, j: int| 0 <= i < j < jobs@.len() implies (#[trigger] jobs@[i]).path@
                != (#[trigger] jobs@[j]).path@ by {
                assert(planned[i].0 == jobs@[i].path@);
                assert(planned[j].0 == jobs@[j].path@);
            }
        }
    }
    Ok(Schedule { jobs, no_match_glob })
}

/// What the work on one file came to.
#[derive(Debug, Clone, PartialEq, Eq)]
pub enum JobOutcome {
    /// The notice passes the check; the file stays as it is.
    Passed,
    /// The notice was rewritten; the file is to hold the new content.
    Rewritten(String),
    /// The file has an issue, with its message.
    Failed(String),
}

/// A `JobOutcome` with its texts as character sequences.
pub enum Verdict {
    Passed,
    Rewritten(Seq<char>),
    Failed(Seq<char>),
}

impl View for JobOutcome {
    type V = Verdict;

    open spec fn view(&self) -> Verdict {
        match *self {
            JobOutcome::Passed => Verdict::Passed,
            JobOutcome::Rewritten(content) => Verdict::Rewritten(content@),
            JobOutcome::Failed(message) => Verdict::Failed(message@),
        }
    }
}

/// What the work on one file comes to. A notice that passes the check is
/// left alone. One that does not is an issue in check mode; in fix mode the
/// notice is rewritten, and the issue is what keeps it from being rewritten.
pub open spec fn job_verdict(
    style: Format,
    text: Seq<char>,
    holder: Seq<char>,
    license: Seq<char>,
    fix: bool,
    current_year: u32,
) -> Verdict {
    match check_outcome(style, text, holder, license, current_year) {
        Ok(()) => Verdict::Passed,
        Err(fault) => if !fix {
            Verdict::Failed(fault.text())
        } else {
            match fixed_text(style, text, holder, license, current_year) {
                Ok(fixed) => Verdict::Rewritten(fixed),
                Err(e) => Verdict::Failed(e.text()),
            }
        },
    }
}

/// Works on the content of one file: checks its notice and, in fix mode,
/// rewrites it where the check fails.
pub fn run_job(
    format: Format,
    content: &str,
    holder: &str,
    license: &str,
    fix: bool,
    current_year: u32,
) -> (r: JobOutcome)
    ensures
        r@ == job_verdict(format, content@, holder@, license@, fix, current_year),
{
    match check_file(format, content, holder, license, current_year) {
        Ok(()) => JobOutcome::Passed,
        Err(e) => {
            if !fix {
                JobOutcome::Failed(e.message())
            } else {
                match fix_file(format, content, holder, license, current_year) {
                    Ok(fixed) => JobOutcome::Rewritten(fixed),
                    Err(e) => JobOutcome::Failed(e.message()),
                }
            }
        },
    }
}

/// The messages of the results that are failures, in order.
pub open spec fn failures(results: Seq<Result<(), String>>) -> Seq<Seq<char>>
    decreases results.len(),
{
    if results.len() == 0 {
        Seq::empty()
    } else {
        match results.last() {
            Ok(()) => failures(results.drop_last()),
            Err(message) => failures(results.drop_last()).push(message@),
        }
    }
}

/// The report of a run from the results of its jobs, in the order in which
/// they ended: success if no job failed, else the messages of the failures.
pub fn conclude(results: Vec<Result<(), String>>) -> (r: Result<(), Failure>)
    ensures
        match r {
            Ok(()) => failures(results@).len() == 0,
            Err(failure) => failures(results@).len() > 0 && texts(failure.errors@) == failures(
                results@,
            ),
        },
{
    let mut errors: Vec<String> = Vec::new();
    let mut i: usize = 0;
    assert(results@.take(0) == Seq::<Result<(), String>>::empty());
    assert(texts(errors@) =~= Seq::empty());
    while i < results.len()
        invariant
            i <= results@.len(),
            texts(errors@) == failures(results@.take(i as int)),
        decreases results@.len() - i,
    {
        proof {
            let next = results@.take(i + 1);
            assert(next.drop_last() == results@.take(i as int));
            assert(next.last() == results@[i as int]);
        }
        // handle check error
        if let Err(e) = &results[i] {
            let ghost before = texts(errors@);
            errors.push(e.clone());
            assert(texts(errors@) =~= before.push(e@));
        }
        i += 1;
    }
    assert(results@.take(i as int) == results@);
    if errors.len() > 0 {
        return Err(Failure { errors });
    }
    Ok(())
}

} // verus!
