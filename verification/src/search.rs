//! The coordinator of the search: it hands pages to idle workers, folds the
//! links they return into the frontier, notices the target, and decides when
//! a depth is done.

use crate::frontier::{ids, Frontier, FrontierView};
use crate::pool::{
    all_lost, any_processing, busy, idle, in_state, lost, pool_inv, WorkerPool, WorkerState,
    WorkerView,
};
use vstd::prelude::*;

verus! {

/// The bound on the size of the frontier that a search uses unless it is
/// given another.
pub const DEFAULT_CAP: usize = 100000;

/// What the coordinator makes of a batch of links.
#[derive(Debug)]
pub enum Outcome {
    /// The links were folded into the frontier; the search goes on.
    Continue,
    /// The target was among the links: the path from the source to it.
    Found(Vec<String>),
    /// The frontier had outgrown its bound: the search is given up.
    Overflow,
    /// The batch came from a worker that was not processing: nothing changed.
    Rejected,
}

/// What there is to do next.
#[derive(Clone, Copy, Debug, PartialEq, Eq, Structural)]
pub enum Verdict {
    /// Pages wait to be handed out, or results are awaited.
    Work,
    /// The frontier has outgrown its bound: the search is given up.
    Overflow,
    /// The present depth is finished and the next one holds pages.
    LevelDone,
    /// Nothing is left to explore and the target was not found.
    Exhausted,
    /// Pages are left, and every worker is lost.
    Stalled,
}

/// What a search is, as mathematics.
#[verifier::ext_equal]
pub struct SearchView {
    /// The page the search starts from.
    pub source: Seq<char>,
    /// The page the search looks for.
    pub target: Seq<char>,
    /// The queues and the predecessor map.
    pub frontier: FrontierView,
    /// The descriptors of the workers, by worker id.
    pub workers: Seq<WorkerView>,
    /// The depth that is being processed: the number of advances made.
    pub level: nat,
}

impl SearchView {
    /// The invariant of a search: that of its frontier, that of its workers,
    /// that every page a worker holds was handed out by the frontier, and
    /// that the search goes depth by depth: the pages that wait in the
    /// current queue and those that workers hold lie at the present depth,
    /// the pages in the next queue one deeper.
    pub open spec fn inv(self) -> bool {
        &&& self.frontier.inv()
        &&& self.frontier.source == self.source
        &&& pool_inv(self.workers)
        &&& forall|i: int|
            0 <= i < self.workers.len() ==> match (#[trigger] self.workers[i]).assigned {
                Some(p) => self.frontier.taken.contains(p) && self.frontier.depth[p] == self.level,
                None => true,
            }
        &&& forall|i: int|
            0 <= i < self.frontier.current.len() ==> self.frontier.depth[#[trigger] self.frontier.current[i]]
                == self.level
        &&& forall|i: int|
            0 <= i < self.frontier.next.len() ==> self.frontier.depth[#[trigger] self.frontier.next[i]]
                == self.level + 1
    }

    /// The search after the links of the page that `worker` holds were
    /// offered to its frontier.
    pub open spec fn folded(self, links: Seq<Seq<char>>, worker: int) -> SearchView {
        SearchView {
            frontier: self.frontier.fold(links, self.workers[worker].assigned->0),
            ..self
        }
    }

    /// The search after the next depth was made the present one.
    pub open spec fn advanced(self) -> SearchView {
        SearchView {
            frontier: FrontierView {
                current: self.frontier.next,
                next: Seq::empty(),
                ..self.frontier
            },
            level: self.level + 1,
            ..self
        }
    }

    /// The search after the head of the current queue was handed to `worker`.
    pub open spec fn handed(self, worker: int) -> SearchView {
        SearchView {
            frontier: FrontierView {
                current: self.frontier.current.skip(1),
                taken: self.frontier.taken.push(self.frontier.current[0]),
                ..self.frontier
            },
            workers: self.workers.update(worker, busy(worker as nat, self.frontier.current[0])),
            ..self
        }
    }

    /// The search after `worker` went back to idle.
    pub open spec fn released(self, worker: int) -> SearchView {
        SearchView { workers: self.workers.update(worker, idle(worker as nat)), ..self }
    }

    /// Offering the links that a processing worker found keeps the invariant
    /// of the search, whether or not the worker then goes back to idle, and
    /// does not change the depth of the page that the worker holds.
    pub proof fn lemma_folded(self, links: Seq<Seq<char>>, worker: int)
        requires
            self.inv(),
            in_state(self.workers, worker, WorkerState::Processing),
        ensures
            self.workers[worker].assigned is Some,
            self.frontier.visited.contains_key(self.workers[worker].assigned->0),
            self.folded(links, worker).inv(),
            self.folded(links, worker).released(worker).inv(),
            self.folded(links, worker).frontier.depth[self.workers[worker].assigned->0]
                == self.level,
    {
        let page = self.workers[worker].assigned->0;
        let f = self.frontier;
        let t = f.taken.len() as int;
        assert(f.taken.contains(page));
        let at = choose|j: int| 0 <= j < t && f.taken[j] == page;
        assert(f.known()[at] == page);
        f.lemma_fold(links, page);
        let g = f.fold(links, page);
        assert forall|i: int| 0 <= i < g.current.len() implies g.depth[#[trigger] g.current[i]]
            == self.level by {
            assert(f.known()[t + i] == f.current[i]);
        }
        assert forall|i: int| 0 <= i < g.next.len() implies g.depth[#[trigger] g.next[i]]
            == self.level + 1 by {
            if i < f.next.len() {
                assert(f.known()[t + f.current.len() + i] == f.next[i]);
            }
        }
        assert forall|i: int| 0 <= i < self.workers.len() implies match (#[trigger] self.workers[i]).assigned {
            Some(p) => g.taken.contains(p) && g.depth[p] == self.level,
            None => true,
        } by {
            match self.workers[i].assigned {
                Some(p) => {
                    let j = choose|j: int| 0 <= j < t && f.taken[j] == p;
                    assert(f.known()[j] == p);
                },
                None => {},
            }
        }
    }

    /// What there is to do next in this state.
    pub open spec fn verdict(self) -> Verdict {
        let at_rest = !any_processing(self.workers);
        if at_rest && self.frontier.current.len() == 0 && self.frontier.next.len() == 0 {
            Verdict::Exhausted
        } else if at_rest && all_lost(self.workers) {
            Verdict::Stalled
        } else if at_rest && self.frontier.current.len() == 0 {
            Verdict::LevelDone
        } else if self.over_cap() {
            Verdict::Overflow
        } else {
            Verdict::Work
        }
    }

    /// Whether the frontier holds more pages than its bound allows.
    pub open spec fn over_cap(self) -> bool {
        self.frontier.current.len() + self.frontier.next.len() > self.frontier.cap
    }
}

/// Whether a scan of `links` for `target` stops at position `at`: no link
/// before it is the target, and it is the target's position or the end.
pub open spec fn stops_at(links: Seq<Seq<char>>, target: Seq<char>, at: int) -> bool {
    &&& 0 <= at <= links.len()
    &&& forall|j: int| 0 <= j < at ==> #[trigger] links[j] != target
    &&& at < links.len() ==> links[at] == target
}

/// A scan stops at one position only.
pub proof fn lemma_stops_at_once(links: Seq<Seq<char>>, target: Seq<char>, a: int, b: int)
    requires
        stops_at(links, target, a),
        stops_at(links, target, b),
    ensures
        a == b,
{
    if a < b {
        assert(links[a] != target);
    }
    if b < a {
        assert(links[b] != target);
    }
}

/// A search for a shortest chain of links from a source page to a target
/// page, driven from outside: the caller fetches the pages that the search
/// hands out and reports what came back.
pub struct Search {
    source: String,
    target: String,
    frontier: Frontier,
    pool: WorkerPool,
    level: Ghost<nat>,
}

impl View for Search {
    type V = SearchView;

    closed spec fn view(&self) -> SearchView {
        SearchView {
            source: self.source@,
            target: self.target@,
            frontier: self.frontier@,
            workers: self.pool@,
            level: self.level@,
        }
    }
}

impl Search {
    /// Whether the search is in a state that its operations keep.
    pub closed spec fn wf(&self) -> bool {
        &&& self.frontier.wf()
        &&& self.pool.wf()
        &&& self@.inv()
    }

    /// A well-formed search satisfies the invariant of its view.
    pub proof fn lemma_wf_inv(&self)
        requires
            self.wf(),
        ensures
            self@.inv(),
    {
    }

    /// A search from `source` to `target` with `workers` idle workers and a
    /// frontier that holds the source alone.
    pub fn new(source: &str, target: &str, workers: usize, cap: usize) -> (s: Search)
        ensures
            s.wf(),
            s@.source == source@,
            s@.target == target@,
            s@.frontier == (FrontierView {
                source: source@,
                visited: Map::empty().insert(source@, None),
                depth: Map::empty().insert(source@, 0nat),
                current: seq![source@],
                next: Seq::empty(),
                taken: Seq::empty(),
                cap: cap as nat,
            }),
            s@.workers.len() == workers,
            forall|i: int| 0 <= i < workers ==> #[trigger] s@.workers[i] == idle(i as nat),
            s@.level == 0,
    {
        let frontier = Frontier::new(source, cap);
        let pool = WorkerPool::new(workers);
        proof {
            frontier.lemma_wf_inv();
            pool.lemma_wf_inv();
        }
        Search {
            source: source.to_owned(),
            target: target.to_owned(),
            frontier,
            pool,
            level: Ghost(0nat),
        }
    }

    /// The path of a search whose source is its target: that page alone.
    /// `None` where the two differ. Nothing is handed out and nothing changes.
    pub fn trivial_path(&self) -> (path: Option<Vec<String>>)
        ensures
            match path {
                Some(p) => self@.source == self@.target && ids(p@) == seq![self@.source],
                None => self@.source != self@.target,
            },
    {
        if self.source == self.target {
            let mut p: Vec<String> = Vec::new();
            p.push(self.source.clone());
            proof {
                assert(ids(p@) =~= seq![self@.source]);
            }
            Some(p)
        } else {
            None
        }
    }

    /// What there is to do next. With no worker processing: nothing, where
    /// both queues are empty; nothing either, where every worker is lost;
    /// the next depth, where the current queue is empty. Otherwise the search
    /// is given up where the queues hold more pages than the bound allows,
    /// and goes on where they do not.
    pub fn poll(&self) -> (v: Verdict)
        requires
            self.wf(),
        ensures
            v == self@.verdict(),
    {
        let at_rest = !self.pool.has_processing();
        if at_rest && self.frontier.current_is_empty() && self.frontier.next_is_empty() {
            Verdict::Exhausted
        } else if at_rest && self.pool.all_failed() {
            Verdict::Stalled
        } else if at_rest && self.frontier.current_is_empty() {
            Verdict::LevelDone
        } else if self.frontier.over_cap() {
            Verdict::Overflow
        } else {
            Verdict::Work
        }
    }

    /// Moves on to the next depth where the present one is finished: the
    /// current queue is empty and no worker is processing. Then the next
    /// queue becomes the current one and is left empty. Otherwise nothing
    /// changes. Returns whether it moved on.
    pub fn advance_level(&mut self) -> (moved: bool)
        requires
            old(self).wf(),
        ensures
            final(self).wf(),
            moved == (old(self)@.frontier.current.len() == 0 && !any_processing(old(self)@.workers)),
            final(self)@ == if moved {
                old(self)@.advanced()
            } else {
                old(self)@
            },
    {
        if self.frontier.current_is_empty() && !self.pool.has_processing() {
            proof {
                self.pool.lemma_wf_inv();
            }
            self.frontier.advance_level();
            proof {
                self.level@ = self.level@ + 1;
                self.frontier.lemma_wf_inv();
            }
            true
        } else {
            false
        }
    }

    /// Hands the head of the current queue to `worker` where that worker is
    /// idle and the queue holds a page: the worker becomes processing with
    /// that page, which is returned for sending. Otherwise nothing changes
    /// and `None` is returned. A page that is handed out was never handed
    /// out before.
    pub fn assign(&mut self, worker: usize) -> (task: Option<String>)
        requires
            old(self).wf(),
        ensures
            final(self).wf(),
            match task {
                Some(id) => {
                    &&& in_state(old(self)@.workers, worker as int, WorkerState::Idle)
                    &&& old(self)@.frontier.current.len() > 0
                    &&& id@ == old(self)@.frontier.current[0]
                    &&& !old(self)@.frontier.taken.contains(id@)
                    &&& final(self)@ == old(self)@.handed(worker as int)
                },
                None => {
                    &&& !(in_state(old(self)@.workers, worker as int, WorkerState::Idle)
                        && old(self)@.frontier.current.len() > 0)
                    &&& final(self)@ == old(self)@
                },
            },
    {
        if self.pool.state(worker) != Some(WorkerState::Idle) {
            return None;
        }
        let ghost before = self@;
        match self.frontier.pop_current() {
            Some(id) => {
                self.pool.start(worker, id.clone());
                proof {
                    self.frontier.lemma_wf_inv();
                    self.pool.lemma_wf_inv();
                    let n = before.frontier.taken.len() as int;
                    assert(before.frontier.known()[n] == id@);
                    assert(!before.frontier.taken.contains(id@)) by {
                        if before.frontier.taken.contains(id@) {
                            let j = choose|j: int| 0 <= j < n && before.frontier.taken[j] == id@;
                            assert(before.frontier.known()[j] == id@);
                        }
                    }
                    let after = self@;
                    assert(after.frontier.taken[n] == id@);
                    assert(before.frontier.current[0] == id@);
                    assert forall|i: int| 0 <= i < after.frontier.current.len() implies after.frontier.depth[#[trigger] after.frontier.current[i]]
                        == after.level by {
                        assert(after.frontier.current[i] == before.frontier.current[i + 1]);
                    }
                    assert forall|i: int| 0 <= i < after.workers.len() implies match (#[trigger] after.workers[i]).assigned {
                        Some(p) => after.frontier.taken.contains(p) && after.frontier.depth[p] == after.level,
                        None => true,
                    } by {
                        if i != worker {
                            assert(after.workers[i] == before.workers[i]);
                            match before.workers[i].assigned {
                                Some(p) => {
                                    let j = choose|j: int| 0 <= j < n && before.frontier.taken[j] == p;
                                    assert(after.frontier.taken[j] == p);
                                },
                                None => {},
                            }
                        }
                    }
                }
                Some(id)
            },
            None => None,
        }
    }

    /// Takes the links that `worker` found on the page it was assigned.
    ///
    /// A batch from a worker that is not processing is rejected. A batch that
    /// arrives while the frontier holds more pages than its bound allows ends
    /// the search with `Overflow`. Otherwise the links are scanned in order:
    /// each link before the target is offered to the frontier with the
    /// worker's page as its predecessor; at the target the scan stops and the
    /// path through the worker's page is returned; with no target among
    /// them the worker goes back to idle.
    pub fn on_links(&mut self, worker: usize, links: &Vec<String>) -> (out: Outcome)
        requires
            old(self).wf(),
        ensures
            final(self).wf(),
            match out {
                Outcome::Rejected => {
                    &&& !in_state(old(self)@.workers, worker as int, WorkerState::Processing)
                    &&& final(self)@ == old(self)@
                },
                Outcome::Overflow => {
                    &&& in_state(old(self)@.workers, worker as int, WorkerState::Processing)
                    &&& old(self)@.over_cap()
                    &&& final(self)@ == old(self)@
                },
                Outcome::Found(path) => {
                    &&& in_state(old(self)@.workers, worker as int, WorkerState::Processing)
                    &&& !old(self)@.over_cap()
                    &&& old(self)@.workers[worker as int].assigned is Some
                    &&& exists|at: int|
                        {
                            &&& #[trigger] stops_at(ids(links@), old(self)@.target, at)
                            &&& at < links@.len()
                            &&& final(self)@ == old(self)@.folded(
                                ids(links@).take(at),
                                worker as int,
                            )
                        }
                    &&& ids(path@) == final(self)@.frontier.route(
                        old(self)@.workers[worker as int].assigned->0,
                        old(self)@.target,
                    )
                    &&& path@.len() == old(self)@.level + 2
                },
                Outcome::Continue => {
                    &&& in_state(old(self)@.workers, worker as int, WorkerState::Processing)
                    &&& !old(self)@.over_cap()
                    &&& old(self)@.workers[worker as int].assigned is Some
                    &&& stops_at(ids(links@), old(self)@.target, links@.len() as int)
                    &&& final(self)@ == old(self)@.folded(ids(links@), worker as int).released(
                        worker as int,
                    )
                },
            },
    {
        let page: String = match self.pool.assigned(worker) {
            Some(page) => page,
            None => {
                proof {
                    self.pool.lemma_wf_inv();
                }
                return Outcome::Rejected;
            },
        };
        if self.frontier.over_cap() {
            proof {
                self.pool.lemma_wf_inv();
            }
            return Outcome::Overflow;
        }
        let ghost before = self@;
        let ghost all = ids(links@);
        proof {
            self.pool.lemma_wf_inv();
            self.frontier.lemma_wf_inv();
            assert(before.workers[worker as int].assigned == Some(page@));
            assert(before.frontier.taken.contains(page@));
            let j = choose|j: int| 0 <= j < before.frontier.taken.len() && before.frontier.taken[j] == page@;
            assert(before.frontier.known()[j] == page@);
            assert(before.frontier.visited.contains_key(page@));
            assert(all.take(0) =~= Seq::empty());
        }
        let mut i: usize = 0;
        while i < links.len()
            invariant
                i <= links@.len(),
                all == ids(links@),
                before == old(self)@,
                in_state(before.workers, worker as int, WorkerState::Processing),
                before.workers[worker as int].assigned == Some(page@),
                !before.over_cap(),
                self.frontier.wf(),
                self.pool.wf(),
                before.inv(),
                before.frontier.visited.contains_key(page@),
                self@.frontier == before.frontier.fold(all.take(i as int), page@),
                self@.workers == before.workers,
                self@.source == before.source,
                self@.target == before.target,
                self@.level == before.level,
                forall|j: int| 0 <= j < i ==> #[trigger] all[j] != before.target,
            decreases links@.len() - i,
        {
            proof {
                before.frontier.lemma_fold(all.take(i as int), page@);
            }
            if links[i] == self.target {
                let path = self.frontier.path_to(page.as_str(), self.target.as_str());
                proof {
                    assert(stops_at(all, before.target, i as int));
                    before.lemma_folded(all.take(i as int), worker as int);
                    assert(self@ =~= before.folded(all.take(i as int), worker as int));
                    self@.frontier.lemma_route(page@, before.target);
                    assert(ids(path@).len() == path@.len());
                }
                return Outcome::Found(path);
            }
            self.frontier.enqueue_if_new(links[i].as_str(), page.as_str());
            proof {
                assert(all.take(i + 1).drop_last() =~= all.take(i as int));
                assert(all.take(i + 1).last() == links@[i as int]@);
            }
            i = i + 1;
        }
        proof {
            assert(all.take(i as int) =~= all);
            before.lemma_folded(all, worker as int);
        }
        self.pool.finish(worker);
        proof {
            assert(self@ =~= before.folded(all, worker as int).released(worker as int));
        }
        Outcome::Continue
    }

    /// Takes the news that `worker` could not fetch its page: the page is a
    /// dead end, nothing is discovered from it, and the worker goes back to
    /// idle. A worker that is not processing is left alone. Returns whether
    /// the worker was processing.
    pub fn on_failure(&mut self, worker: usize) -> (done: bool)
        requires
            old(self).wf(),
        ensures
            final(self).wf(),
            done == in_state(old(self)@.workers, worker as int, WorkerState::Processing),
            final(self)@ == if done {
                old(self)@.released(worker as int)
            } else {
                old(self)@
            },
    {
        let done = self.pool.finish(worker);
        proof {
            self.pool.lemma_wf_inv();
        }
        done
    }

    /// Takes the news that the channel of `worker` is closed: the worker is
    /// lost for good and is never given a page again. Returns whether the
    /// search has such a worker.
    pub fn on_disconnect(&mut self, worker: usize) -> (known: bool)
        requires
            old(self).wf(),
        ensures
            final(self).wf(),
            known == (worker < old(self)@.workers.len()),
            final(self)@ == if known {
                SearchView {
                    workers: old(self)@.workers.update(worker as int, lost(worker as nat)),
                    ..old(self)@
                }
            } else {
                old(self)@
            },
    {
        let known = self.pool.fail(worker);
        proof {
            self.pool.lemma_wf_inv();
        }
        known
    }

    /// The state of a worker, or `None` where the search has no such worker.
    pub fn worker_state(&self, worker: usize) -> (state: Option<WorkerState>)
        ensures
            state == if worker < self@.workers.len() {
                Some(self@.workers[worker as int].state)
            } else {
                None
            },
    {
        self.pool.state(worker)
    }

    /// The number of workers.
    pub fn worker_count(&self) -> (n: usize)
        ensures
            n == self@.workers.len(),
    {
        self.pool.len()
    }

    /// The number of pages in the two queues of the frontier together.
    pub fn frontier_size(&self) -> (n: usize)
        requires
            self.wf(),
        ensures
            n == self@.frontier.current.len() + self@.frontier.next.len(),
    {
        self.frontier.size()
    }
}

} // verus!
