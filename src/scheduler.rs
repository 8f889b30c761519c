//! The per-partition pipeline's decisions and the bounded fan-out over all
//! partitions: which job may start, and what became of each.
use vstd::prelude::*;
use crate::listing::{ListError, Listing, objects_view};
use crate::manifest::{manifest, manifest_for};

verus! {

/// How many partition jobs run at once by default.
pub const DEFAULT_CONCURRENCY: usize = 32;

/// How long one request to the store may take, in seconds, before it fails.
pub const ATTEMPT_TIMEOUT_SECS: u64 = 5;

/// The delimiter that groups keys into common prefixes in a listing.
pub const DELIMITER: &'static str = "/";

/// Why a partition's job failed.
#[derive(Debug, Clone, Copy, PartialEq, Eq, Structural)]
pub enum JobError {
    /// A page held an object or prefix with a missing or invalid field.
    Listing(ListError),
    /// A request to the store failed or timed out.
    Request,
    /// The manifest could not be created, written or flushed.
    Write,
}

/// What became of one partition's job.
#[derive(Debug, Clone, Copy, PartialEq, Eq, Structural)]
pub enum JobOutcome {
    /// The manifest was written with this many objects.
    Success(usize),
    /// The partition holds no objects: nothing was written.
    EmptySkipped,
    Failed(JobError),
}

/// What a job does once its listing is over.
pub enum JobPlan {
    /// Nothing to write: the outcome is `EmptySkipped`.
    Skip,
    /// Write this manifest text; on success the outcome is `Success(count)`.
    Write { text: String, count: usize },
    /// The listing failed: the outcome is `Failed` with this error.
    Fail(JobError),
}

/// Decides, from a finished listing, what the job is to write.
pub fn plan_job(listed: Result<Listing, JobError>) -> (r: JobPlan)
    ensures
        listed.is_err() ==> r == JobPlan::Fail(listed->Err_0),
        listed.is_ok() && listed->Ok_0.objects@.len() == 0 ==> r == JobPlan::Skip,
        listed.is_ok() && listed->Ok_0.objects@.len() > 0 ==> (match r {
            JobPlan::Write { text, count } => text@ == manifest(
                objects_view(listed->Ok_0.objects@),
            ) && count == listed->Ok_0.objects@.len(),
            _ => false,
        }),
{
    match listed {
        Err(e) => JobPlan::Fail(e),
        Ok(listing) => {
            match manifest_for(&listing.objects) {
                None => JobPlan::Skip,
                Some(text) => JobPlan::Write { text, count: listing.objects.len() },
            }
        },
    }
}

/// The outcome of a job that followed `plan`; `written` tells whether the
/// manifest write (when there was one) succeeded.
pub fn job_outcome(plan: &JobPlan, written: bool) -> (r: JobOutcome)
    ensures
        r == (match plan {
            JobPlan::Skip => JobOutcome::EmptySkipped,
            JobPlan::Write { count, .. } => if written {
                JobOutcome::Success(*count)
            } else {
                JobOutcome::Failed(JobError::Write)
            },
            JobPlan::Fail(e) => JobOutcome::Failed(*e),
        }),
{
    match plan {
        JobPlan::Skip => JobOutcome::EmptySkipped,
        JobPlan::Write { count, .. } => if written {
            JobOutcome::Success(*count)
        } else {
            JobOutcome::Failed(JobError::Write)
        },
        JobPlan::Fail(e) => JobOutcome::Failed(*e),
    }
}

/// How many outcomes in `s` are successes, empty skips and failures.
pub open spec fn tally(s: Seq<Option<JobOutcome>>) -> (nat, nat, nat)
    decreases s.len(),
{
    if s.len() == 0 {
        (0, 0, 0)
    } else {
        let t = tally(s.drop_last());
        match s.last() {
            Some(JobOutcome::Success(_)) => (t.0 + 1, t.1, t.2),
            Some(JobOutcome::EmptySkipped) => (t.0, t.1 + 1, t.2),
            Some(JobOutcome::Failed(_)) => (t.0, t.1, t.2 + 1),
            None => t,
        }
    }
}

proof fn lemma_tally_bound(s: Seq<Option<JobOutcome>>)
    ensures
        tally(s).0 + tally(s).1 + tally(s).2 <= s.len(),
    decreases s.len(),
{
    if s.len() > 0 {
        lemma_tally_bound(s.drop_last());
    }
}

/// The fan-out over a fixed, ordered set of partitions under a limit on how
/// many jobs run at once. Jobs are started in partition order; each holds
/// one of `limit` slots from its start until its outcome is recorded.
pub struct Scheduler {
    limit: usize,
    next: usize,
    active: usize,
    outcomes: Vec<Option<JobOutcome>>,
    running: Ghost<Set<int>>,
}

impl Scheduler {
    /// The concurrency limit.
    pub closed spec fn spec_limit(&self) -> nat {
        self.limit as nat
    }

    /// How many partitions have been started so far (they are the first ones).
    pub closed spec fn started(&self) -> nat {
        self.next as nat
    }

    /// The partitions whose job has started and not yet finished.
    pub closed spec fn running(&self) -> Set<int> {
        self.running@
    }

    /// The recorded outcome of each partition, `None` while it has none.
    pub closed spec fn outcomes(&self) -> Seq<Option<JobOutcome>> {
        self.outcomes@
    }

    pub closed spec fn wf(&self) -> bool {
        &&& self.limit > 0
        &&& self.next <= self.outcomes@.len()
        &&& self.running@.finite()
        &&& self.running@.len() == self.active
        &&& self.active <= self.limit
        &&& forall|i: int| #[trigger] self.running@.contains(i) ==> 0 <= i < self.next
        &&& forall|i: int|
            0 <= i < self.outcomes@.len() ==> (#[trigger] self.outcomes@[i] is None <==> (
            self.running@.contains(i) || i >= self.next))
    }

    /// A scheduler for `total` partitions, none started, at most `limit` at once.
    pub fn new(total: usize, limit: usize) -> (r: Scheduler)
        requires
            limit > 0,
        ensures
            r.wf(),
            r.spec_limit() == limit,
            r.started() == 0,
            r.running() == Set::<int>::empty(),
            r.outcomes() == Seq::new(total as nat, |i: int| None::<JobOutcome>),
    {
        let mut outcomes: Vec<Option<JobOutcome>> = Vec::new();
        let mut i: usize = 0;
        while i < total
            invariant
                i <= total,
                outcomes@ == Seq::new(i as nat, |k: int| None::<JobOutcome>),
            decreases total - i,
        {
            outcomes.push(None);
            i = i + 1;
            assert(outcomes@ =~= Seq::new(i as nat, |k: int| None::<JobOutcome>));
        }
        Scheduler { limit, next: 0, active: 0, outcomes, running: Ghost(Set::empty()) }
    }

    /// How many jobs hold a slot now.
    pub fn active(&self) -> (r: usize)
        requires
            self.wf(),
        ensures
            r == self.running().len(),
            r <= self.spec_limit(),
    {
        self.active
    }

    /// Admits the next partition if a slot is free and one is left: returns
    /// its position, and the job holds a slot until `finish` is called for it.
    pub fn try_start(&mut self) -> (r: Option<usize>)
        requires
            old(self).wf(),
        ensures
            final(self).wf(),
            final(self).spec_limit() == old(self).spec_limit(),
            final(self).outcomes() == old(self).outcomes(),
            r.is_some() <==> (old(self).running().len() < old(self).spec_limit()
                && old(self).started() < old(self).outcomes().len()),
            r.is_some() ==> r.unwrap() == old(self).started() && final(self).started()
                == old(self).started() + 1 && final(self).running() == old(self).running().insert(
                r.unwrap() as int,
            ),
            r.is_none() ==> final(self).started() == old(self).started() && final(self).running()
                == old(self).running(),
            final(self).running().len() <= final(self).spec_limit(),
    {
        if self.active < self.limit && self.next < self.outcomes.len() {
            let idx = self.next;
            proof {
                assert(!self.running@.contains(idx as int));
                self.running@ = self.running@.insert(idx as int);
            }
            self.next = self.next + 1;
            self.active = self.active + 1;
            Some(idx)
        } else {
            None
        }
    }

    /// Records the outcome of the running job for partition `idx` and frees
    /// its slot. Returns false, changing nothing, if no such job is running.
    pub fn finish(&mut self, idx: usize, outcome: JobOutcome) -> (r: bool)
        requires
            old(self).wf(),
        ensures
            final(self).wf(),
            final(self).spec_limit() == old(self).spec_limit(),
            final(self).started() == old(self).started(),
            r == old(self).running().contains(idx as int),
            r ==> final(self).running() == old(self).running().remove(idx as int)
                && final(self).outcomes() == old(self).outcomes().update(idx as int, Some(outcome)),
            !r ==> final(self).running() == old(self).running() && final(self).outcomes() == old(
                self,
            ).outcomes(),
            final(self).running().len() <= final(self).spec_limit(),
    {
        if idx < self.next && idx < self.outcomes.len() && self.outcomes[idx].is_none() {
            proof {
                assert(self.running@.contains(idx as int));
                self.running@ = self.running@.remove(idx as int);
            }
            self.outcomes.set(idx, Some(outcome));
            self.active = self.active - 1;
            true
        } else {
            false
        }
    }

    /// Whether every partition has been started and has an outcome.
    pub fn is_complete(&self) -> (r: bool)
        requires
            self.wf(),
        ensures
            r <==> (self.started() == self.outcomes().len() && self.running().len() == 0),
            r ==> forall|i: int| 0 <= i < self.outcomes().len() ==> #[trigger] self.outcomes()[i] is Some,
    {
        let r = self.next == self.outcomes.len() && self.active == 0;
        if r {
            assert forall|i: int| 0 <= i < self.outcomes().len() implies #[trigger] self.outcomes()[i] is Some by {
                if self.running@.contains(i) {
                    vstd::set_lib::lemma_set_empty_equivalency_len(self.running@);
                    assert(self.running@.len() > 0);
                }
            }
        }
        r
    }

    /// The number of partitions that succeeded, were empty, and failed.
    pub fn summary(&self) -> (r: (usize, usize, usize))
        ensures
            r.0 == tally(self.outcomes()).0,
            r.1 == tally(self.outcomes()).1,
            r.2 == tally(self.outcomes()).2,
    {
        let mut ok: usize = 0;
        let mut empty: usize = 0;
        let mut failed: usize = 0;
        let mut i: usize = 0;
        while i < self.outcomes.len()
            invariant
                i <= self.outcomes@.len(),
                (ok as nat, empty as nat, failed as nat) == tally(self.outcomes@.subrange(0, i as int)),
            decreases self.outcomes@.len() - i,
        {
            proof {
                let pre = self.outcomes@.subrange(0, i as int);
                let now = self.outcomes@.subrange(0, i + 1);
                assert(now.drop_last() =~= pre);
                lemma_tally_bound(now);
            }
            match self.outcomes[i] {
                Some(JobOutcome::Success(_)) => { ok = ok + 1; },
                Some(JobOutcome::EmptySkipped) => { empty = empty + 1; },
                Some(JobOutcome::Failed(_)) => { failed = failed + 1; },
                None => {},
            }
            i = i + 1;
        }
        assert(self.outcomes@.subrange(0, self.outcomes@.len() as int) =~= self.outcomes@);
        (ok, empty, failed)
    }

    /// The recorded outcome of partition `idx`, if any.
    pub fn outcome(&self, idx: usize) -> (r: Option<JobOutcome>)
        requires
            idx < self.outcomes().len(),
        ensures
            r == self.outcomes()[idx as int],
    {
        self.outcomes[idx]
    }
}

} // verus!
