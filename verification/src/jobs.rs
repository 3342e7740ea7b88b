//! Crawl-job lifecycle tracking.
//!
//! A crawl job is an ephemeral, in-memory record: created `Running` when a
//! crawl is requested, mutated exclusively by the owning crawl, and polled
//! non-blockingly through [`JobRegistry::status`]. The lifecycle is
//! `Running -> Finished` (normal) or `Running -> Failed` (on the first fatal
//! store error); no cancelled state exists. The registry is an explicit
//! service object handed to its users by reference rather than a global map.

use vstd::prelude::*;

verus! {

/// The live state of one crawl job.
pub enum IndexJobState {
    Running { processed: usize, last_path: Option<String> },
    Finished { processed: usize },
    Failed { message: String },
}

impl IndexJobState {
    /// A structural copy of the state.
    pub fn duplicate(&self) -> (r: IndexJobState)
        ensures
            r == *self,
    {
        match self {
            IndexJobState::Running { processed, last_path } => IndexJobState::Running {
                processed: *processed,
                last_path: match last_path {
                    Some(p) => Some(p.clone()),
                    None => None,
                },
            },
            IndexJobState::Finished { processed } => IndexJobState::Finished {
                processed: *processed,
            },
            IndexJobState::Failed { message } => IndexJobState::Failed {
                message: message.clone(),
            },
        }
    }
}

/// The processed counter of a running state (meaningful when `Running`).
pub open spec fn run_processed(s: IndexJobState) -> usize {
    match s {
        IndexJobState::Running { processed, .. } => processed,
        IndexJobState::Finished { processed } => processed,
        IndexJobState::Failed { .. } => 0,
    }
}

/// Finished and Failed are the terminal states.
pub open spec fn is_terminal(s: IndexJobState) -> bool {
    s is Finished || s is Failed
}

/// The transitions the registry accepts for one job: progress while running
/// (with a non-decreasing counter), finishing (with a count at least the
/// last one seen), or failing. No transition leaves a terminal state.
pub open spec fn job_step_allowed(a: IndexJobState, b: IndexJobState) -> bool {
    ||| (a is Running && b is Running && run_processed(b) >= run_processed(a))
    ||| (a is Running && b is Finished && run_processed(b) >= run_processed(a))
    ||| (a is Running && b is Failed)
}

/// Law: the `processed` counter is monotonically non-decreasing along any
/// accepted step between running states.
pub proof fn lemma_step_processed_monotonic(a: IndexJobState, b: IndexJobState)
    requires
        job_step_allowed(a, b),
        b is Running,
    ensures
        a is Running,
        run_processed(a) <= run_processed(b),
{
}

/// Law: a terminal state admits no further step — once `Finished` or
/// `Failed` is reached it is never left, so it is reached exactly once.
pub proof fn lemma_terminal_absorbing(a: IndexJobState, b: IndexJobState)
    requires
        job_step_allowed(a, b),
    ensures
        !is_terminal(a),
{
}

/// Law: along any chain of accepted steps, every state observed while the
/// job is still running carries a non-decreasing `processed` counter, and a
/// terminal state can stand only at the end of the chain.
pub proof fn lemma_chain_monotonic(states: Seq<IndexJobState>, i: int, j: int)
    requires
        forall|k: int| 0 <= k < states.len() - 1 ==> job_step_allowed(
            #[trigger] states[k],
            states[k + 1],
        ),
        0 <= i <= j < states.len(),
        states[j] is Running,
    ensures
        states[i] is Running,
        run_processed(states[i]) <= run_processed(states[j]),
    decreases j - i,
{
    if i < j {
        assert(job_step_allowed(states[j - 1], states[j]));
        lemma_step_processed_monotonic(states[j - 1], states[j]);
        lemma_chain_monotonic(states, i, j - 1);
    }
}

/// Whether the registry knows the job id.
pub open spec fn contains_job(s: Seq<(u64, IndexJobState)>, id: u64) -> bool {
    exists|i: int| 0 <= i < s.len() && s[i].0 == id
}

/// Index of the job's slot (meaningful when `contains_job`).
pub open spec fn index_of_job(s: Seq<(u64, IndexJobState)>, id: u64) -> int {
    choose|i: int| 0 <= i < s.len() && s[i].0 == id
}

/// The job's recorded state (meaningful when `contains_job`).
pub open spec fn state_of(s: Seq<(u64, IndexJobState)>, id: u64) -> IndexJobState {
    s[index_of_job(s, id)].1
}

/// No two slots share a job id.
pub open spec fn job_ids_unique(s: Seq<(u64, IndexJobState)>) -> bool {
    forall|i: int, j: int| 0 <= i < j < s.len() ==> s[i].0 != s[j].0
}

/// In a duplicate-free registry the slot of an id is unique.
pub proof fn lemma_job_index(s: Seq<(u64, IndexJobState)>, id: u64, i: int)
    requires
        job_ids_unique(s),
        0 <= i < s.len(),
        s[i].0 == id,
    ensures
        index_of_job(s, id) == i,
        contains_job(s, id),
        state_of(s, id) == s[i].1,
{
    assert(contains_job(s, id));
    let j = index_of_job(s, id);
    if j < i {
        assert(s[j].0 != s[i].0);
    } else if j > i {
        assert(s[i].0 != s[j].0);
    }
}

/// The in-memory job registry: id-to-state slots plus the next id to hand
/// out.
pub struct JobRegistry {
    jobs: Vec<(u64, IndexJobState)>,
    next_id: u64,
}

impl JobRegistry {
    /// The registry's slots.
    pub closed spec fn view(&self) -> Seq<(u64, IndexJobState)> {
        self.jobs@
    }

    /// How many ids have been handed out so far.
    pub closed spec fn allocations(&self) -> u64 {
        self.next_id
    }

    /// A fresh id can still be allocated.
    pub open spec fn can_allocate(&self) -> bool {
        self.allocations() < u64::MAX
    }

    /// Well-formedness: ids are unique and below the allocation counter.
    pub closed spec fn wf(&self) -> bool {
        &&& job_ids_unique(self.jobs@)
        &&& forall|i: int| 0 <= i < self.jobs@.len() ==> (#[trigger] self.jobs@[i]).0
            < self.next_id
    }

    /// An empty registry.
    pub fn new() -> (r: JobRegistry)
        ensures
            r.wf(),
            r@ =~= Seq::<(u64, IndexJobState)>::empty(),
            r.allocations() == 0,
    {
        JobRegistry { jobs: Vec::new(), next_id: 0 }
    }

    fn find(&self, id: u64) -> (r: Option<usize>)
        ensures
            match r {
                Some(i) => i < self@.len() && self@[i as int].0 == id,
                None => !contains_job(self@, id),
            },
    {
        let mut i: usize = 0;
        while i < self.jobs.len()
            invariant
                i <= self@.len(),
                self@.len() == self.jobs@.len(),
                forall|j: int| 0 <= j < i ==> (#[trigger] self@[j]).0 != id,
            decreases self@.len() - i,
        {
            if self.jobs[i].0 == id {
                return Some(i);
            }
            i = i + 1;
        }
        None
    }

    /// Allocates a job id and records the initial `Running { 0, None }`
    /// state; returns immediately, without waiting for any crawling. The
    /// crawl itself is driven by the worker that receives the id.
    pub fn start(&mut self) -> (id: u64)
        requires
            old(self).wf(),
            old(self).can_allocate(),
        ensures
            final(self).wf(),
            final(self).allocations() == old(self).allocations() + 1,
            !contains_job(old(self)@, id),
            contains_job(final(self)@, id),
            state_of(final(self)@, id) == (IndexJobState::Running {
                processed: 0usize,
                last_path: None,
            }),
            forall|q: u64|
                q != id ==> (#[trigger] contains_job(final(self)@, q) <==> contains_job(
                    old(self)@,
                    q,
                )),
            forall|q: u64|
                q != id && contains_job(old(self)@, q) ==> #[trigger] state_of(final(self)@, q)
                    == state_of(old(self)@, q),
    {
        let id = self.next_id;
        proof {
            if contains_job(self@, id) {
                let k = index_of_job(self@, id);
                assert(self@[k].0 < self.next_id);
            }
        }
        let ghost s0 = self@;
        self.jobs.push((id, IndexJobState::Running { processed: 0, last_path: None }));
        self.next_id = self.next_id + 1;
        proof {
            let s1 = self@;
            assert(s1 == s0.push((id, IndexJobState::Running { processed: 0usize, last_path: None })));
            assert(job_ids_unique(s1)) by {
                assert forall|k: int, l: int| 0 <= k < l < s1.len() implies s1[k].0 != s1[l].0 by {
                    if l == s0.len() {
                        assert(s1[k] == s0[k]);
                        if s0[k].0 == id {
                            assert(contains_job(s0, id));
                        }
                    } else {
                        assert(s1[k] == s0[k] && s1[l] == s0[l]);
                    }
                };
            };
            lemma_job_index(s1, id, s0.len() as int);
            assert forall|q: u64| q != id implies (#[trigger] contains_job(s1, q) <==> contains_job(
                s0,
                q,
            )) by {
                if contains_job(s0, q) {
                    let k = index_of_job(s0, q);
                    assert(s1[k].0 == q);
                }
                if contains_job(s1, q) {
                    let k = index_of_job(s1, q);
                    assert(k < s0.len());
                    assert(s0[k].0 == q);
                }
            };
            assert forall|q: u64| q != id && contains_job(s0, q) implies #[trigger] state_of(s1, q)
                == state_of(s0, q) by {
                let k = index_of_job(s0, q);
                assert(0 <= k < s0.len() && s0[k].0 == q);
                assert(s1[k] == s0[k]);
                lemma_job_index(s1, q, k);
                lemma_job_index(s0, q, k);
            };
        }
        id
    }

    /// Non-blocking poll of a job's state; absent ids yield `None`.
    pub fn status(&self, id: u64) -> (r: Option<IndexJobState>)
        requires
            self.wf(),
        ensures
            match r {
                Some(s) => contains_job(self@, id) && s == state_of(self@, id),
                None => !contains_job(self@, id),
            },
    {
        match self.find(id) {
            Some(i) => {
                proof {
                    lemma_job_index(self@, id, i as int);
                }
                Some(self.jobs[i].1.duplicate())
            },
            None => None,
        }
    }

    fn set_state(&mut self, i: usize, st: IndexJobState)
        requires
            old(self).wf(),
            i < old(self)@.len(),
        ensures
            final(self).wf(),
            final(self).allocations() == old(self).allocations(),
            final(self)@ == old(self)@.update(i as int, (old(self)@[i as int].0, st)),
            contains_job(final(self)@, old(self)@[i as int].0),
            state_of(final(self)@, old(self)@[i as int].0) == st,
            forall|q: u64|
                q != old(self)@[i as int].0 ==> (#[trigger] contains_job(final(self)@, q)
                    <==> contains_job(old(self)@, q)),
            forall|q: u64|
                q != old(self)@[i as int].0 && contains_job(old(self)@, q) ==> #[trigger] state_of(
                    final(self)@,
                    q,
                ) == state_of(old(self)@, q),
    {
        let id = self.jobs[i].0;
        self.jobs[i] = (id, st);
        proof {
            let s0 = old(self)@;
            let s1 = self@;
            assert(s1 == s0.update(i as int, (s0[i as int].0, st)));
            assert(job_ids_unique(s1)) by {
                assert forall|k: int, l: int| 0 <= k < l < s1.len() implies s1[k].0 != s1[l].0 by {
                    assert(s1[k].0 == s0[k].0 && s1[l].0 == s0[l].0);
                };
            };
            lemma_job_index(s1, id, i as int);
            assert forall|q: u64| q != id implies (#[trigger] contains_job(s1, q) <==> contains_job(
                s0,
                q,
            )) by {
                if contains_job(s0, q) {
                    let k = index_of_job(s0, q);
                    assert(s1[k].0 == q);
                }
                if contains_job(s1, q) {
                    let k = index_of_job(s1, q);
                    assert(s0[k].0 == q);
                }
            };
            assert forall|q: u64| q != id && contains_job(s0, q) implies #[trigger] state_of(s1, q)
                == state_of(s0, q) by {
                let k = index_of_job(s0, q);
                assert(0 <= k < s0.len() && s0[k].0 == q);
                assert(k != i as int);
                assert(s1[k] == s0[k]);
                lemma_job_index(s1, q, k);
                lemma_job_index(s0, q, k);
            };
        }
    }

    /// Records crawl progress: the job must be running and the counter must
    /// not decrease.
    pub fn update_running(&mut self, id: u64, processed: usize, last_path: Option<String>)
        requires
            old(self).wf(),
            contains_job(old(self)@, id),
            state_of(old(self)@, id) is Running,
            processed >= run_processed(state_of(old(self)@, id)),
        ensures
            final(self).wf(),
            final(self).allocations() == old(self).allocations(),
            contains_job(final(self)@, id),
            state_of(final(self)@, id) == (IndexJobState::Running { processed, last_path }),
            job_step_allowed(state_of(old(self)@, id), state_of(final(self)@, id)),
            forall|q: u64|
                q != id ==> (#[trigger] contains_job(final(self)@, q) <==> contains_job(
                    old(self)@,
                    q,
                )),
            forall|q: u64|
                q != id && contains_job(old(self)@, q) ==> #[trigger] state_of(final(self)@, q)
                    == state_of(old(self)@, q),
    {
        let i = match self.find(id) {
            Some(i) => i,
            None => {
                proof {
                    assert(false);
                }
                0
            },
        };
        proof {
            lemma_job_index(self@, id, i as int);
        }
        self.set_state(i, IndexJobState::Running { processed, last_path })
    }

    /// Marks a running job finished with its final counter.
    pub fn finish(&mut self, id: u64, processed: usize)
        requires
            old(self).wf(),
            contains_job(old(self)@, id),
            state_of(old(self)@, id) is Running,
            processed >= run_processed(state_of(old(self)@, id)),
        ensures
            final(self).wf(),
            final(self).allocations() == old(self).allocations(),
            contains_job(final(self)@, id),
            state_of(final(self)@, id) == (IndexJobState::Finished { processed }),
            job_step_allowed(state_of(old(self)@, id), state_of(final(self)@, id)),
            forall|q: u64|
                q != id ==> (#[trigger] contains_job(final(self)@, q) <==> contains_job(
                    old(self)@,
                    q,
                )),
            forall|q: u64|
                q != id && contains_job(old(self)@, q) ==> #[trigger] state_of(final(self)@, q)
                    == state_of(old(self)@, q),
    {
        let i = match self.find(id) {
            Some(i) => i,
            None => {
                proof {
                    assert(false);
                }
                0
            },
        };
        proof {
            lemma_job_index(self@, id, i as int);
        }
        self.set_state(i, IndexJobState::Finished { processed })
    }

    /// Marks a running job failed with the fatal error's message. The first
    /// fatal store error ends the crawl; there is no partial-success salvage.
    pub fn fail(&mut self, id: u64, message: String)
        requires
            old(self).wf(),
            contains_job(old(self)@, id),
            state_of(old(self)@, id) is Running,
        ensures
            final(self).wf(),
            final(self).allocations() == old(self).allocations(),
            contains_job(final(self)@, id),
            state_of(final(self)@, id) == (IndexJobState::Failed { message }),
            job_step_allowed(state_of(old(self)@, id), state_of(final(self)@, id)),
            forall|q: u64|
                q != id ==> (#[trigger] contains_job(final(self)@, q) <==> contains_job(
                    old(self)@,
                    q,
                )),
            forall|q: u64|
                q != id && contains_job(old(self)@, q) ==> #[trigger] state_of(final(self)@, q)
                    == state_of(old(self)@, q),
    {
        let i = match self.find(id) {
            Some(i) => i,
            None => {
                proof {
                    assert(false);
                }
                0
            },
        };
        proof {
            lemma_job_index(self@, id, i as int);
        }
        self.set_state(i, IndexJobState::Failed { message })
    }
}

} // verus!
