//! The descriptors of the workers that fetch pages.

use crate::frontier::entry_view;
use vstd::prelude::*;

verus! {

/// What a worker is doing.
#[derive(Clone, Copy, Debug, PartialEq, Eq, Structural)]
pub enum WorkerState {
    /// Ready to take a task.
    Idle,
    /// Working on the page it was assigned.
    Processing,
    /// Lost for good: its channel was closed.
    Error,
}

/// A worker descriptor as mathematics.
pub struct WorkerView {
    /// The number the worker is filed under.
    pub id: nat,
    /// What the worker is doing.
    pub state: WorkerState,
    /// The page the worker holds while it is processing.
    pub assigned: Option<Seq<char>>,
}

/// One worker: its id, its state and, while it is processing, the page it
/// was assigned.
#[derive(Debug)]
pub struct WorkerDescriptor {
    /// The number the worker is filed under.
    pub id: usize,
    /// What the worker is doing.
    pub state: WorkerState,
    /// The page the worker holds while it is processing.
    pub assigned: Option<String>,
}

impl View for WorkerDescriptor {
    type V = WorkerView;

    open spec fn view(&self) -> WorkerView {
        WorkerView { id: self.id as nat, state: self.state, assigned: entry_view(self.assigned) }
    }
}

/// The descriptor of worker `id` at rest.
pub open spec fn idle(id: nat) -> WorkerView {
    WorkerView { id, state: WorkerState::Idle, assigned: None }
}

/// The descriptor of worker `id` while it works on `task`.
pub open spec fn busy(id: nat, task: Seq<char>) -> WorkerView {
    WorkerView { id, state: WorkerState::Processing, assigned: Some(task) }
}

/// The descriptor of worker `id` after its channel was lost.
pub open spec fn lost(id: nat) -> WorkerView {
    WorkerView { id, state: WorkerState::Error, assigned: None }
}

/// Each worker is filed under its id, and holds a page exactly while it is
/// processing.
pub open spec fn pool_inv(w: Seq<WorkerView>) -> bool {
    forall|i: int|
        0 <= i < w.len() ==> (#[trigger] w[i]).id == i && (w[i].state is Processing
            <==> w[i].assigned is Some)
}

/// Whether `worker` names a worker of `w` in the given state.
pub open spec fn in_state(w: Seq<WorkerView>, worker: int, state: WorkerState) -> bool {
    0 <= worker < w.len() && w[worker].state == state
}

/// Whether some worker is processing.
pub open spec fn any_processing(w: Seq<WorkerView>) -> bool {
    exists|i: int| 0 <= i < w.len() && (#[trigger] w[i]).state is Processing
}

/// Whether every worker is lost.
pub open spec fn all_lost(w: Seq<WorkerView>) -> bool {
    forall|i: int| 0 <= i < w.len() ==> (#[trigger] w[i]).state is Error
}

/// A fixed number of workers, each with its descriptor.
pub struct WorkerPool {
    workers: Vec<WorkerDescriptor>,
}

impl View for WorkerPool {
    type V = Seq<WorkerView>;

    closed spec fn view(&self) -> Seq<WorkerView> {
        Seq::new(self.workers@.len(), |i: int| self.workers@[i]@)
    }
}

impl WorkerPool {
    /// Whether the pool is in a state that its operations keep.
    pub closed spec fn wf(&self) -> bool {
        pool_inv(self@)
    }

    /// A well-formed pool satisfies the invariant of its view.
    pub proof fn lemma_wf_inv(&self)
        requires
            self.wf(),
        ensures
            pool_inv(self@),
    {
    }

    /// A pool of `count` idle workers, numbered from zero.
    pub fn new(count: usize) -> (pool: WorkerPool)
        ensures
            pool.wf(),
            pool@.len() == count,
            forall|i: int| 0 <= i < count ==> #[trigger] pool@[i] == idle(i as nat),
    {
        let mut workers: Vec<WorkerDescriptor> = Vec::new();
        let mut i: usize = 0;
        while i < count
            invariant
                i <= count,
                workers@.len() == i,
                forall|j: int| 0 <= j < i ==> (#[trigger] workers@[j])@ == idle(j as nat),
            decreases count - i,
        {
            workers.push(WorkerDescriptor { id: i, state: WorkerState::Idle, assigned: None });
            i = i + 1;
        }
        WorkerPool { workers }
    }

    /// The number of workers.
    pub fn len(&self) -> (n: usize)
        ensures
            n == self@.len(),
    {
        self.workers.len()
    }

    /// The state of a worker, or `None` where the pool has no such worker.
    pub fn state(&self, worker: usize) -> (state: Option<WorkerState>)
        ensures
            state == if worker < self@.len() {
                Some(self@[worker as int].state)
            } else {
                None
            },
    {
        if worker < self.workers.len() {
            Some(self.workers[worker].state)
        } else {
            None
        }
    }

    /// The page that a worker is processing, or `None` where it processes
    /// none or the pool has no such worker.
    pub fn assigned(&self, worker: usize) -> (task: Option<String>)
        ensures
            entry_view(task) == if worker < self@.len() {
                self@[worker as int].assigned
            } else {
                None
            },
    {
        if worker < self.workers.len() {
            match &self.workers[worker].assigned {
                Some(task) => Some(task.clone()),
                None => None,
            }
        } else {
            None
        }
    }

    /// Whether some worker is processing.
    pub fn has_processing(&self) -> (found: bool)
        ensures
            found == any_processing(self@),
    {
        let mut i: usize = 0;
        while i < self.workers.len()
            invariant
                i <= self.workers@.len(),
                forall|j: int| 0 <= j < i ==> !((#[trigger] self@[j]).state is Processing),
            decreases self.workers@.len() - i,
        {
            if self.workers[i].state == WorkerState::Processing {
                assert(self@[i as int].state is Processing);
                return true;
            }
            i = i + 1;
        }
        false
    }

    /// Whether every worker is lost.
    pub fn all_failed(&self) -> (dead: bool)
        ensures
            dead == all_lost(self@),
    {
        let mut i: usize = 0;
        while i < self.workers.len()
            invariant
                i <= self.workers@.len(),
                forall|j: int| 0 <= j < i ==> (#[trigger] self@[j]).state is Error,
            decreases self.workers@.len() - i,
        {
            if self.workers[i].state != WorkerState::Error {
                assert(!(self@[i as int].state is Error));
                return false;
            }
            i = i + 1;
        }
        true
    }

    /// Hands `task` to an idle worker, which becomes processing. Any other
    /// worker, and a number that names none, is left alone. Returns whether
    /// the task was taken.
    pub fn start(&mut self, worker: usize, task: String) -> (taken: bool)
        requires
            old(self).wf(),
        ensures
            final(self).wf(),
            taken == in_state(old(self)@, worker as int, WorkerState::Idle),
            final(self)@ == if taken {
                old(self)@.update(worker as int, busy(worker as nat, task@))
            } else {
                old(self)@
            },
    {
        if worker < self.workers.len() && self.workers[worker].state == WorkerState::Idle {
            self.workers.set(
                worker,
                WorkerDescriptor { id: worker, state: WorkerState::Processing, assigned: Some(task) },
            );
            proof {
                assert(self@ =~= old(self)@.update(worker as int, busy(worker as nat, task@)));
            }
            true
        } else {
            false
        }
    }

    /// Returns a processing worker to idle and forgets its page. Any other
    /// worker is left alone. Returns whether the worker was processing.
    pub fn finish(&mut self, worker: usize) -> (done: bool)
        requires
            old(self).wf(),
        ensures
            final(self).wf(),
            done == in_state(old(self)@, worker as int, WorkerState::Processing),
            final(self)@ == if done {
                old(self)@.update(worker as int, idle(worker as nat))
            } else {
                old(self)@
            },
    {
        if worker < self.workers.len() && self.workers[worker].state == WorkerState::Processing {
            self.workers.set(
                worker,
                WorkerDescriptor { id: worker, state: WorkerState::Idle, assigned: None },
            );
            proof {
                assert(self@ =~= old(self)@.update(worker as int, idle(worker as nat)));
            }
            true
        } else {
            false
        }
    }

    /// Marks a worker as lost, for good, and forgets its page. Returns
    /// whether the pool has such a worker.
    pub fn fail(&mut self, worker: usize) -> (known: bool)
        requires
            old(self).wf(),
        ensures
            final(self).wf(),
            known == (worker < old(self)@.len()),
            final(self)@ == if known {
                old(self)@.update(worker as int, lost(worker as nat))
            } else {
                old(self)@
            },
    {
        if worker < self.workers.len() {
            self.workers.set(
                worker,
                WorkerDescriptor { id: worker, state: WorkerState::Error, assigned: None },
            );
            proof {
                assert(self@ =~= old(self)@.update(worker as int, lost(worker as nat)));
            }
            true
        } else {
            false
        }
    }
}

} // verus!
