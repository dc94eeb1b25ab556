//! Service worker jobs: the per-scope job queues and the decisions of the
//! register, update and finish algorithms. What a job does to promises and
//! clients is handed back as effects for the script thread to perform.
use vstd::prelude::*;
use crate::origin::{urls_same_origin, url_origin_ok, urls_same_origin_spec, OpaqueIds};

verus! {

/// The kind of a job.
#[derive(Clone, Copy, PartialEq, Eq, Structural, Debug)]
pub enum JobType {
    Register,
    Unregister,
    Update,
}

/// Identifies the promise a job settles.
#[derive(Clone, Copy, PartialEq, Eq, Structural, Debug)]
pub struct PromiseId(pub u64);

/// Identifies the client that scheduled a job.
#[derive(Clone, Copy, PartialEq, Eq, Structural, Debug)]
pub struct ClientId(pub u64);

/// A job: its type, scope and script URLs, the promise it settles, the
/// equivalent jobs scheduled after it, its client, and the referrer (the
/// client's creation URL).
pub struct Job {
    pub job_type: JobType,
    pub scope_url: String,
    pub script_url: String,
    pub promise: PromiseId,
    pub equivalent_jobs: Vec<Job>,
    pub client: ClientId,
    pub referrer: String,
}

/// Job equivalence: same type, same scope, and (except for unregistering)
/// the same script.
pub open spec fn jobs_equivalent(a: Job, b: Job) -> bool {
    a.job_type == b.job_type && match a.job_type {
        JobType::Register | JobType::Update => a.scope_url@ == b.scope_url@ && a.script_url@
            == b.script_url@,
        JobType::Unregister => a.scope_url@ == b.scope_url@,
    }
}

impl Job {
    /// Creates a job for `client`, whose creation URL becomes the referrer.
    pub fn create_job(
        job_type: JobType,
        scope_url: String,
        script_url: String,
        promise: PromiseId,
        client: ClientId,
        client_creation_url: String,
    ) -> (job: Job)
        ensures
            job.job_type == job_type,
            job.scope_url == scope_url,
            job.script_url == script_url,
            job.promise == promise,
            job.equivalent_jobs@.len() == 0,
            job.client == client,
            job.referrer == client_creation_url,
    {
        Job {
            job_type,
            scope_url,
            script_url,
            promise,
            equivalent_jobs: Vec::new(),
            client,
            referrer: client_creation_url,
        }
    }

    /// The origin checks of registering: whether the script URL, and
    /// whether the scope URL, has the referrer's origin (see
    /// [`urls_same_origin`]); `None` when one of the URLs does not parse or
    /// its origin cannot be made.
    pub fn origin_checks(&self, ids: &mut OpaqueIds) -> (r: Option<(bool, bool)>)
        requires
            old(ids).next_id() + 3 < u64::MAX,
        ensures
            r is Some <==> url_origin_ok(self.script_url@) && url_origin_ok(self.scope_url@)
                && url_origin_ok(self.referrer@),
            r matches Some((script_same, scope_same)) ==> script_same == urls_same_origin_spec(
                self.script_url@,
                self.referrer@,
            ) && scope_same == urls_same_origin_spec(self.scope_url@, self.referrer@),
    {
        let script_same = match urls_same_origin(self.script_url.as_str(), self.referrer.as_str(), ids) {
            Some(x) => x,
            None => return None,
        };
        let scope_same = match urls_same_origin(self.scope_url.as_str(), self.referrer.as_str(), ids) {
            Some(x) => x,
            None => return None,
        };
        Some((script_same, scope_same))
    }

    pub fn append_equivalent_job(&mut self, job: Job)
        ensures
            final(self).equivalent_jobs@ == old(self).equivalent_jobs@.push(job),
            final(self).job_type == old(self).job_type,
            final(self).scope_url == old(self).scope_url,
            final(self).script_url == old(self).script_url,
            final(self).promise == old(self).promise,
            final(self).client == old(self).client,
            final(self).referrer == old(self).referrer,
    {
        self.equivalent_jobs.push(job);
    }

    /// Whether the two jobs are equivalent.
    pub fn equivalent(&self, other: &Job) -> (b: bool)
        ensures
            b == jobs_equivalent(*self, *other),
            b ==> self.job_type == other.job_type && self.scope_url@ == other.scope_url@,
            b && !(self.job_type is Unregister) ==> self.script_url@ == other.script_url@,
            self.job_type == other.job_type && self.scope_url@ == other.scope_url@ && (self.job_type is Unregister
                || self.script_url@ == other.script_url@) ==> b,
    {
        proof {
            lemma_equivalence_needs_same_script(*self, *other);
        }
        if self.job_type != other.job_type {
            return false;
        }
        match self.job_type {
            JobType::Register | JobType::Update => self.scope_url == other.scope_url
                && self.script_url == other.script_url,
            JobType::Unregister => self.scope_url == other.scope_url,
        }
    }
}

/// The jobs queued for each scope URL.
pub struct JobQueue {
    queues: Vec<(String, Vec<Job>)>,
}

pub open spec fn scopes_of(q: Seq<(String, Vec<Job>)>) -> Seq<Seq<char>> {
    q.map_values(|e: (String, Vec<Job>)| e.0@)
}

impl JobQueue {
    /// No scope has two queues, and every job is queued under its own scope.
    pub closed spec fn wf(&self) -> bool {
        &&& scopes_of(self.queues@).no_duplicates()
        &&& forall|i: int, j: int|
            0 <= i < self.queues@.len() && 0 <= j < self.queues@[i].1@.len()
                ==> #[trigger] self.queues@[i].1@[j].scope_url@ == self.queues@[i].0@
    }

    /// The jobs queued for `scope`, oldest first (empty when there are none).
    pub closed spec fn jobs(&self, scope: Seq<char>) -> Seq<Job> {
        if scopes_of(self.queues@).contains(scope) {
            self.queues@[scopes_of(self.queues@).index_of(scope)].1@
        } else {
            Seq::empty()
        }
    }

    pub fn new() -> (q: JobQueue)
        ensures
            q.wf(),
            forall|s: Seq<char>| #[trigger] q.jobs(s) == Seq::<Job>::empty(),
    {
        let q = JobQueue { queues: Vec::new() };
        assert(scopes_of(q.queues@) =~= Seq::<Seq<char>>::empty());
        q
    }

    fn position(&self, scope: &String) -> (r: Option<usize>)
        requires
            self.wf(),
        ensures
            match r {
                Some(i) => i < self.queues@.len() && self.queues@[i as int].0@ == scope@
                    && scopes_of(self.queues@).index_of(scope@) == i && scopes_of(
                    self.queues@,
                ).contains(scope@),
                None => !scopes_of(self.queues@).contains(scope@),
            },
    {
        let n = self.queues.len();
        let mut i: usize = 0;
        while i < n
            invariant
                self.wf(),
                n == self.queues@.len(),
                i <= n,
                forall|j: int| 0 <= j < i ==> self.queues@[j].0@ != scope@,
            decreases n - i,
        {
            if self.queues[i].0 == *scope {
                proof {
                    let ss = scopes_of(self.queues@);
                    assert(ss[i as int] == scope@);
                    assert(ss.contains(scope@));
                    let k = ss.index_of(scope@);
                    assert(ss[k] == scope@);
                    assert(k == i) by {
                        if k != i {
                            assert(ss.no_duplicates());
                        }
                    }
                }
                return Some(i);
            }
            i = i + 1;
        }
        proof {
            let ss = scopes_of(self.queues@);
            if ss.contains(scope@) {
                let j = choose|j: int| 0 <= j < ss.len() && ss[j] == scope@;
                assert(self.queues@[j].0@ == scope@);
            }
        }
        None
    }

    /// The most recently queued job for `scope`, if any.
    pub fn last_job(&self, scope: &String) -> (r: Option<&Job>)
        requires
            self.wf(),
        ensures
            match r {
                Some(j) => self.jobs(scope@).len() > 0 && *j == self.jobs(scope@).last(),
                None => self.jobs(scope@).len() == 0,
            },
    {
        match self.position(scope) {
            Some(i) => {
                let n = self.queues[i].1.len();
                if n == 0 {
                    None
                } else {
                    Some(&self.queues[i].1[n - 1])
                }
            },
            None => None,
        }
    }

    /// The oldest job queued for `scope`, if any.
    pub fn front_job(&self, scope: &String) -> (r: Option<&Job>)
        requires
            self.wf(),
        ensures
            match r {
                Some(j) => self.jobs(scope@).len() > 0 && *j == self.jobs(scope@)[0],
                None => self.jobs(scope@).len() == 0,
            },
    {
        match self.position(scope) {
            Some(i) => {
                if self.queues[i].1.len() == 0 {
                    None
                } else {
                    Some(&self.queues[i].1[0])
                }
            },
            None => None,
        }
    }
}

pub proof fn lemma_index_of_unique(ss: Seq<Seq<char>>, i: int)
    requires
        ss.no_duplicates(),
        0 <= i < ss.len(),
    ensures
        ss.contains(ss[i]),
        ss.index_of(ss[i]) == i,
{
    assert(ss.contains(ss[i]));
    let k = ss.index_of(ss[i]);
    assert(ss[k] == ss[i]);
}

impl JobQueue {
    /// The queue at index `i` is the one `jobs` reports for its scope.
    proof fn lemma_jobs_at(&self, i: int)
        requires
            self.wf(),
            0 <= i < self.queues@.len(),
        ensures
            self.jobs(self.queues@[i].0@) == self.queues@[i].1@,
    {
        let ss = scopes_of(self.queues@);
        assert(ss[i] == self.queues@[i].0@);
        lemma_index_of_unique(ss, i);
    }

    /// Queues `job` under its scope (the schedule-job algorithm). When the
    /// scope had no jobs, the job is queued alone and a run of the queue must
    /// be scheduled (`true`). Otherwise, when the job is equivalent to the last
    /// queued job and that job's promise is not settled (`last_settled`), it
    /// joins that job's equivalent jobs; else it is queued after it.
    #[verifier::spinoff_prover]
    pub fn schedule_job(&mut self, job: Job, last_settled: bool) -> (run: bool)
        requires
            old(self).wf(),
        ensures
            final(self).wf(),
            ({
                let s = job.scope_url@;
                let q = old(self).jobs(s);
                let nq = final(self).jobs(s);
                if q.len() == 0 {
                    run && nq == seq![job]
                } else if jobs_equivalent(job, q.last()) && !last_settled {
                    &&& !run
                    &&& nq.len() == q.len()
                    &&& nq.subrange(0, q.len() - 1) == q.subrange(0, q.len() - 1)
                    &&& nq.last().equivalent_jobs@ == q.last().equivalent_jobs@.push(job)
                    &&& nq.last().job_type == q.last().job_type
                    &&& nq.last().scope_url == q.last().scope_url
                    &&& nq.last().script_url == q.last().script_url
                    &&& nq.last().promise == q.last().promise
                    &&& nq.last().client == q.last().client
                    &&& nq.last().referrer == q.last().referrer
                } else {
                    !run && nq == q.push(job)
                }
            }),
            forall|s2: Seq<char>|
                s2 != job.scope_url@ ==> #[trigger] final(self).jobs(s2) == old(self).jobs(s2),
            ({
                let q = old(self).jobs(job.scope_url@);
                q.len() > 0 && !(job.job_type is Unregister) && job.script_url@ != q.last().script_url@ ==> !run
                    && final(self).jobs(job.scope_url@) == q.push(job)
            }),
    {
        proof {
            let q = old(self).jobs(job.scope_url@);
            if q.len() > 0 {
                lemma_equivalence_needs_same_script(job, q.last());
            }
        }
        let ghost s = job.scope_url@;
        let ghost old_q = self.jobs(s);
        let pos = self.position(&job.scope_url);
        let i = match pos {
            Some(i) => {
                assert(forall|s2: Seq<char>| #[trigger] self.jobs(s2) == old(self).jobs(s2));
                i
            },
            None => {
                let key = job.scope_url.clone();
                self.queues.push((key, Vec::new()));
                proof {
                    let ss = scopes_of(self.queues@);
                    assert(ss =~= scopes_of(old(self).queues@).push(s));
                    assert(ss.no_duplicates()) by {
                        assert forall|a: int, b: int|
                            0 <= a < ss.len() && 0 <= b < ss.len() && a != b implies ss[a]
                            != ss[b] by {
                            if a == ss.len() - 1 {
                                assert(ss[b] == scopes_of(old(self).queues@)[b] || b == a);
                            }
                            if b == ss.len() - 1 {
                                assert(ss[a] == scopes_of(old(self).queues@)[a] || b == a);
                            }
                        }
                    }
                    assert forall|a: int, b: int|
                        0 <= a < self.queues@.len() && 0 <= b < self.queues@[a].1@.len()
                            implies #[trigger] self.queues@[a].1@[b].scope_url@ == self.queues@[a].0@ by {
                        assert(self.queues@[a] == old(self).queues@[a]);
                    }
                    assert forall|s2: Seq<char>| s2 != s implies #[trigger] self.jobs(s2) == old(
                        self,
                    ).jobs(s2) by {
                        let oss = scopes_of(old(self).queues@);
                        if oss.contains(s2) {
                            let k = oss.index_of(s2);
                            assert(oss[k] == s2);
                            lemma_index_of_unique(oss, k);
                            lemma_index_of_unique(ss, k);
                            assert(ss[k] == s2);
                        } else {
                            assert(!ss.contains(s2)) by {
                                if ss.contains(s2) {
                                    let k = choose|k: int| 0 <= k < ss.len() && ss[k] == s2;
                                    assert(oss[k] == s2);
                                }
                            }
                        }
                    }
                    self.lemma_jobs_at(ss.len() - 1);
                }
                self.queues.len() - 1
            },
        };
        let ghost mid = *self;
        proof {
            mid.lemma_jobs_at(i as int);
            assert(mid.jobs(s) == old_q);
            assert(forall|s2: Seq<char>| s2 != s ==> #[trigger] mid.jobs(s2) == old(self).jobs(s2));
        }
        let (scope, mut jobs) = self.queues.remove(i);
        let run;
        if jobs.len() == 0 {
            jobs.push(job);
            run = true;
        } else {
            let mut last = jobs.pop().unwrap();
            if job.equivalent(&last) && !last_settled {
                last.append_equivalent_job(job);
                jobs.push(last);
            } else {
                jobs.push(last);
                jobs.push(job);
            }
            run = false;
        }
        self.queues.insert(i, (scope, jobs));
        proof {
            assert(self.queues@ =~= mid.queues@.update(i as int, (scope, jobs)));
            let ss = scopes_of(self.queues@);
            assert(ss =~= scopes_of(mid.queues@));
            assert forall|a: int, b: int|
                0 <= a < self.queues@.len() && 0 <= b < self.queues@[a].1@.len()
                    implies #[trigger] self.queues@[a].1@[b].scope_url@ == self.queues@[a].0@ by {
                if a != i {
                    assert(self.queues@[a] == mid.queues@[a]);
                } else {
                    if b < old_q.len() && !(old_q.len() > 0 && b == old_q.len() - 1) {
                        assert(jobs@[b] == mid.queues@[i as int].1@[b]);
                    }
                    if old_q.len() > 0 && b == old_q.len() - 1 {
                        assert(mid.queues@[i as int].1@[b].scope_url@ == scope@);
                    }
                }
            }
            self.lemma_jobs_at(i as int);
            if old_q.len() > 0 {
                assert(jobs@.subrange(0, old_q.len() - 1) =~= old_q.subrange(0, old_q.len() - 1));
            }
            if old_q.len() == 0 {
                assert(jobs@ =~= seq![job]);
            } else if !(jobs_equivalent(job, old_q.last()) && !last_settled) {
                assert(jobs@ =~= old_q.push(job));
            }
            assert forall|s2: Seq<char>| s2 != s implies #[trigger] self.jobs(s2) == old(self).jobs(
                s2,
            ) by {
                if ss.contains(s2) {
                    let k = ss.index_of(s2);
                    assert(ss[k] == s2);
                    lemma_index_of_unique(ss, k);
                    assert(k != i);
                    mid.lemma_jobs_at(k);
                    self.lemma_jobs_at(k);
                    assert(self.queues@[k] == mid.queues@[k]);
                    assert(mid.jobs(s2) == old(self).jobs(s2));
                } else {
                    assert(!scopes_of(mid.queues@).contains(s2));
                    assert(mid.jobs(s2) == old(self).jobs(s2));
                }
            }
        }
        run
    }

    /// Finishes the oldest job of `scope` (the finish-job algorithm): it
    /// leaves the queue; returns whether jobs remain, i.e. whether the queue
    /// must run again.
    #[verifier::spinoff_prover]
    pub fn finish_job(&mut self, scope: &String) -> (run: bool)
        requires
            old(self).wf(),
        ensures
            final(self).wf(),
            final(self).jobs(scope@) == if old(self).jobs(scope@).len() > 0 {
                old(self).jobs(scope@).drop_first()
            } else {
                old(self).jobs(scope@)
            },
            run == (final(self).jobs(scope@).len() > 0),
            forall|s2: Seq<char>|
                s2 != scope@ ==> #[trigger] final(self).jobs(s2) == old(self).jobs(s2),
    {
        match self.position(scope) {
            None => false,
            Some(i) => {
                let ghost mid = *self;
                proof {
                    mid.lemma_jobs_at(i as int);
                }
                let (key, mut jobs) = self.queues.remove(i);
                if jobs.len() > 0 && jobs[0].scope_url == *scope {
                    jobs.remove(0);
                }
                let run = jobs.len() > 0;
                self.queues.insert(i, (key, jobs));
                proof {
                    assert(self.queues@ =~= mid.queues@.update(i as int, (key, jobs)));
                    let ss = scopes_of(self.queues@);
                    assert(ss =~= scopes_of(mid.queues@));
                    if mid.queues@[i as int].1@.len() > 0 {
                        assert(mid.queues@[i as int].1@[0].scope_url@ == scope@);
                        assert(jobs@ =~= mid.queues@[i as int].1@.drop_first());
                    }
                    assert forall|a: int, b: int|
                        0 <= a < self.queues@.len() && 0 <= b < self.queues@[a].1@.len()
                            implies #[trigger] self.queues@[a].1@[b].scope_url@ == self.queues@[a].0@ by {
                        if a != i {
                            assert(self.queues@[a] == mid.queues@[a]);
                        } else {
                            assert(jobs@[b] == mid.queues@[i as int].1@[b + 1]);
                        }
                    }
                    self.lemma_jobs_at(i as int);
                    assert forall|s2: Seq<char>| s2 != scope@ implies #[trigger] self.jobs(s2)
                        == old(self).jobs(s2) by {
                        if ss.contains(s2) {
                            let k = ss.index_of(s2);
                            assert(ss[k] == s2);
                            lemma_index_of_unique(ss, k);
                            assert(k != i);
                            mid.lemma_jobs_at(k);
                            self.lemma_jobs_at(k);
                        }
                    }
                }
                run
            },
        }
    }
}


/// Whether the job queue must run its finish-job step after a job.
#[derive(Clone, Copy, PartialEq, Eq, Structural, Debug)]
pub enum FinishJob {
    Invoke,
    DoNotInvoke,
}

/// The error a job promise is rejected with.
#[derive(Debug)]
pub enum JobError {
    Type(String),
    Security,
}

/// What a registration for a scope holds that the algorithms read: whether
/// it is being uninstalled, and the script URL of its newest worker.
pub struct Registration {
    pub uninstalling: bool,
    pub newest_worker: Option<String>,
}

/// Work that a job hands to the script thread.
pub enum JobEffect {
    /// Reject the promise with the error.
    Reject(PromiseId, JobError),
    /// Resolve the promise with the registration of the scope.
    Resolve(PromiseId, String),
    /// Make the worker with this script URL the client's controller.
    SetController(ClientId, String),
}

pub open spec fn is_reject_type(e: JobEffect, p: PromiseId, msg: Seq<char>) -> bool {
    e matches JobEffect::Reject(q, JobError::Type(m)) && q == p && m@ == msg
}

pub open spec fn msg_invalid_script() -> Seq<char> {
    "Invalid script ServoURL"@
}

pub open spec fn msg_no_registration() -> Seq<char> {
    "No registration to update"@
}

pub open spec fn msg_uninstalling() -> Seq<char> {
    "Update called on an uninstalling registration"@
}

fn type_error(promise: PromiseId, msg: &str) -> (e: JobEffect)
    ensures
        e matches JobEffect::Reject(q, JobError::Type(m)) && q == promise && m@ == msg@,
{
    JobEffect::Reject(promise, JobError::Type(String::from_str(msg)))
}

/// What the update algorithm does on the registration `reg` of the job's
/// scope (see [`update`]).
pub open spec fn update_result(job: Job, reg: Option<Registration>, r: (FinishJob, Vec<JobEffect>)) -> bool {
        match reg {
            None => r.0 == FinishJob::Invoke && r.1@.len() == 1 && is_reject_type(
                r.1@[0],
                job.promise,
                msg_no_registration(),
            ),
            Some(g) => if g.uninstalling {
                r.0 == FinishJob::Invoke && r.1@.len() == 1 && is_reject_type(
                    r.1@[0],
                    job.promise,
                    msg_uninstalling(),
                )
            } else {
                match g.newest_worker {
                    None => r.0 == FinishJob::DoNotInvoke && r.1@.len() == 0,
                    Some(w) => if w@ == job.script_url@ && job.job_type == JobType::Update {
                        r.0 == FinishJob::Invoke && r.1@.len() == 1 && is_reject_type(
                            r.1@[0],
                            job.promise,
                            msg_invalid_script(),
                        )
                    } else {
                        &&& r.0 == FinishJob::Invoke
                        &&& r.1@.len() == 2
                        &&& r.1@[0] matches JobEffect::SetController(c, s) && c == job.client
                            && s@ == w@
                        &&& r.1@[1] matches JobEffect::Resolve(p, s) && p == job.promise && s@
                            == job.scope_url@
                    },
                }
            },
        }
}

impl JobQueue {
    /// The update algorithm on the registration of the job's scope.
    /// - no registration: reject ("No registration to update"), finish;
    /// - registration being uninstalled: reject ("Update called on an
    ///   uninstalling registration"), finish;
    /// - no newest worker: nothing happens and the job is not finished;
    /// - an update job whose script is the newest worker's: reject ("Invalid
    ///   script ServoURL"), finish;
    /// - otherwise the worker controls the job's client, the promise is
    ///   resolved with the registration, finish.
    pub fn update(&self, job: &Job, reg: &Option<Registration>) -> (r: (FinishJob, Vec<JobEffect>))
        ensures
            update_result(*job, *reg, r),
    {
        let mut effects: Vec<JobEffect> = Vec::new();
        match reg {
            None => {
                effects.push(type_error(job.promise, "No registration to update"));
                (FinishJob::Invoke, effects)
            },
            Some(g) => {
                if g.uninstalling {
                    effects.push(type_error(job.promise, "Update called on an uninstalling registration"));
                    return (FinishJob::Invoke, effects);
                }
                match &g.newest_worker {
                    None => (FinishJob::DoNotInvoke, effects),
                    Some(w) => {
                        if *w == job.script_url && job.job_type == JobType::Update {
                            effects.push(type_error(job.promise, "Invalid script ServoURL"));
                            (FinishJob::Invoke, effects)
                        } else {
                            effects.push(JobEffect::SetController(job.client, w.clone()));
                            effects.push(JobEffect::Resolve(job.promise, job.scope_url.clone()));
                            (FinishJob::Invoke, effects)
                        }
                    },
                }
            },
        }
    }
}


/// What the register algorithm does (see [`run_register`]): `old_reg` and
/// `new_reg` are the registration of the job's scope before and after it.
pub open spec fn register_result(
    job: Job,
    script_trustworthy: bool,
    script_same_origin: bool,
    scope_same_origin: bool,
    old_reg: Option<Registration>,
    new_reg: Option<Registration>,
    r: (FinishJob, Vec<JobEffect>),
) -> bool {
    if !script_trustworthy {
        &&& r.0 == FinishJob::Invoke
        &&& r.1@.len() == 1
        &&& is_reject_type(r.1@[0], job.promise, msg_invalid_script())
        &&& new_reg == old_reg
    } else if !(script_same_origin && scope_same_origin) {
        &&& r.0 == FinishJob::Invoke
        &&& r.1@.len() == 1
        &&& r.1@[0] matches JobEffect::Reject(p, JobError::Security) && p == job.promise
        &&& new_reg == old_reg
    } else {
        &&& new_reg is Some
        &&& !new_reg->0.uninstalling
        &&& match old_reg {
            Some(g) => {
                &&& new_reg->0.newest_worker == g.newest_worker
                &&& if g.newest_worker matches Some(w) && w@ == job.script_url@ {
                    &&& r.0 == FinishJob::Invoke
                    &&& r.1@.len() == 1
                    &&& r.1@[0] matches JobEffect::Resolve(p, s) && p == job.promise && s@
                        == job.scope_url@
                } else {
                    update_result(job, new_reg, r)
                }
            },
            None => {
                &&& new_reg->0.newest_worker matches Some(w) && w@ == job.script_url@
                &&& update_result(job, new_reg, r)
            },
        }
    }
}

impl JobQueue {
    /// The register algorithm, given whether the job's script URL has a
    /// potentially trustworthy origin and whether its script and scope URLs are
    /// same-origin with its referrer, and the registration of its scope.
    /// - untrustworthy script: reject ("Invalid script ServoURL"), finish;
    /// - cross-origin script or scope: reject with a security error, finish;
    /// - an existing registration stops uninstalling; when its newest worker
    ///   runs the job's script the promise is resolved and the job finishes;
    /// - with no registration, one is made whose newest worker runs the job's
    ///   script;
    /// - then the update algorithm runs on the registration.
    pub fn run_register(
        &self,
        job: &Job,
        script_trustworthy: bool,
        script_same_origin: bool,
        scope_same_origin: bool,
        reg: &mut Option<Registration>,
    ) -> (r: (FinishJob, Vec<JobEffect>))
        ensures
            register_result(
                *job,
                script_trustworthy,
                script_same_origin,
                scope_same_origin,
                *old(reg),
                *final(reg),
                r,
            ),
    {
        if !script_trustworthy {
            let mut effects: Vec<JobEffect> = Vec::new();
            effects.push(type_error(job.promise, "Invalid script ServoURL"));
            return (FinishJob::Invoke, effects);
        } else if !(script_same_origin && scope_same_origin) {
            let mut effects: Vec<JobEffect> = Vec::new();
            effects.push(JobEffect::Reject(job.promise, JobError::Security));
            return (FinishJob::Invoke, effects);
        }
        let existing = reg.take();
        match existing {
            Some(g) => {
                let newest = g.newest_worker;
                let same_script = match &newest {
                    Some(w) => *w == job.script_url,
                    None => false,
                };
                *reg = Some(Registration { uninstalling: false, newest_worker: newest });
                if same_script {
                    let mut effects: Vec<JobEffect> = Vec::new();
                    effects.push(JobEffect::Resolve(job.promise, job.scope_url.clone()));
                    return (FinishJob::Invoke, effects);
                }
            },
            None => {
                *reg = Some(
                    Registration { uninstalling: false, newest_worker: Some(job.script_url.clone()) },
                );
            },
        }
        self.update(job, reg)
    }
}


impl JobQueue {
    /// The run-job algorithm for the queue of `scope`: runs its oldest job
    /// (register or update) on the registration of the job's scope, given the
    /// origin checks of that job (see [`run_register`]); when the job is to be
    /// finished, the finish-job algorithm runs for the job's script URL.
    /// Returns whether the job was finished, the effects, and whether the
    /// queue of that URL must run again.
    pub fn run_job(
        &mut self,
        scope: &String,
        script_trustworthy: bool,
        script_same_origin: bool,
        scope_same_origin: bool,
        reg: &mut Option<Registration>,
    ) -> (r: (FinishJob, Vec<JobEffect>, bool))
        requires
            old(self).wf(),
            old(self).jobs(scope@).len() > 0,
            old(self).jobs(scope@)[0].job_type != JobType::Unregister,
        ensures
            final(self).wf(),
            ({
                let job = old(self).jobs(scope@)[0];
                &&& job.job_type == JobType::Register ==> register_result(
                    job,
                    script_trustworthy,
                    script_same_origin,
                    scope_same_origin,
                    *old(reg),
                    *final(reg),
                    (r.0, r.1),
                )
                &&& job.job_type == JobType::Update ==> update_result(job, *old(reg), (r.0, r.1))
                    && *final(reg) == *old(reg)
                &&& r.0 == FinishJob::Invoke ==> {
                    let url = job.script_url@;
                    &&& final(self).jobs(url) == if old(self).jobs(url).len() > 0 {
                        old(self).jobs(url).drop_first()
                    } else {
                        old(self).jobs(url)
                    }
                    &&& r.2 == (final(self).jobs(url).len() > 0)
                    &&& forall|s2: Seq<char>|
                        s2 != url ==> #[trigger] final(self).jobs(s2) == old(self).jobs(s2)
                }
                &&& r.0 == FinishJob::DoNotInvoke ==> !r.2 && forall|s2: Seq<char>|
                    #[trigger] final(self).jobs(s2) == old(self).jobs(s2)
            }),
    {
        let job = self.front_job(scope).unwrap();
        let url = job.script_url.clone();
        let outcome = match job.job_type {
            JobType::Register => self.run_register(
                job,
                script_trustworthy,
                script_same_origin,
                scope_same_origin,
                reg,
            ),
            _ => self.update(job, reg),
        };
        let (finish, effects) = outcome;
        match finish {
            FinishJob::Invoke => {
                let again = self.finish_job(&url);
                (finish, effects, again)
            },
            FinishJob::DoNotInvoke => (finish, effects, false),
        }
    }
}


/// Equivalent jobs have the same type and scope, and, but for
/// unregistering, the same script: two register or two update jobs for
/// different scripts are never equivalent. Jobs of the same type and scope
/// (and, but for unregistering, script) are equivalent.
pub proof fn lemma_equivalence_needs_same_script(a: Job, b: Job)
    ensures
        jobs_equivalent(a, b) ==> a.job_type == b.job_type && a.scope_url@ == b.scope_url@,
        jobs_equivalent(a, b) && !(a.job_type is Unregister) ==> a.script_url@ == b.script_url@,
        a.job_type == b.job_type && a.scope_url@ == b.scope_url@ && (a.job_type is Unregister || a.script_url@
            == b.script_url@) ==> jobs_equivalent(a, b),
{
}

/// Job equivalence is symmetric.
pub proof fn lemma_jobs_equivalent_symmetric(a: Job, b: Job)
    ensures
        jobs_equivalent(a, b) == jobs_equivalent(b, a),
{
}

} // verus!
