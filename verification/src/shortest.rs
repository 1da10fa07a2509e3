//! Why a path that the search finds is a shortest one: while every worker
//! reports the links of its page, the search reaches the pages of the link
//! graph depth by depth, whatever the number of workers and the order of
//! their answers.

use crate::pool::{any_processing, in_state, WorkerState};
use crate::search::{stops_at, SearchView};
use vstd::prelude::*;

verus! {

/// Whether `w` is a walk of `n` links from `a` to `b` in the graph that
/// gives each page its links.
pub open spec fn walk_between(
    g: spec_fn(Seq<char>) -> Seq<Seq<char>>,
    w: Seq<Seq<char>>,
    a: Seq<char>,
    b: Seq<char>,
    n: nat,
) -> bool {
    &&& w.len() == n + 1
    &&& w[0] == a
    &&& w[n as int] == b
    &&& forall|i: int| 0 <= i < n ==> (#[trigger] g(w[i])).contains(w[i + 1])
}

/// Whether `n` links lead from `a` to `b`.
pub open spec fn reaches(
    g: spec_fn(Seq<char>) -> Seq<Seq<char>>,
    a: Seq<char>,
    b: Seq<char>,
    n: nat,
) -> bool {
    exists|w: Seq<Seq<char>>| walk_between(g, w, a, b, n)
}

/// Whether some worker holds page `p`.
pub open spec fn held(s: SearchView, p: Seq<char>) -> bool {
    exists|i: int| 0 <= i < s.workers.len() && (#[trigger] s.workers[i]).assigned == Some(p)
}

/// Whether page `p` was handed out and its links were taken in.
pub open spec fn settled(s: SearchView, p: Seq<char>) -> bool {
    s.frontier.taken.contains(p) && !held(s, p)
}

/// Whether the search follows the graph `g` exactly: a discovered page is
/// among the links of its predecessor, its recorded depth is the length of
/// a walk to it, every page but the
/// target that a walk no longer than the present depth reaches is discovered
/// at no greater depth than that walk is long, no such walk reaches the
/// target, and the links of every settled page are discovered and hold no
/// target.
pub open spec fn tight(s: SearchView, g: spec_fn(Seq<char>) -> Seq<Seq<char>>) -> bool {
    &&& s.source != s.target
    &&& !s.frontier.visited.contains_key(s.target)
    &&& forall|k: Seq<char>| #[trigger]
        s.frontier.visited.contains_key(k) ==> {
            &&& reaches(g, s.source, k, s.frontier.depth[k])
            &&& s.frontier.depth[k] <= s.level + 1
            &&& s.frontier.depth[k] < s.level ==> settled(s, k)
            &&& match s.frontier.visited[k] {
                Some(p) => g(p).contains(k),
                None => true,
            }
        }
    &&& forall|k: Seq<char>, n: nat|
        n <= s.level && k != s.target && #[trigger] reaches(g, s.source, k, n)
            ==> s.frontier.visited.contains_key(k) && s.frontier.depth[k] <= n
    &&& forall|n: nat| n <= s.level ==> !#[trigger] reaches(g, s.source, s.target, n)
    &&& forall|p: Seq<char>, j: int|
        settled(s, p) && 0 <= j < g(p).len() ==> #[trigger] g(p)[j] != s.target
            && s.frontier.visited.contains_key(g(p)[j])
}

/// A walk goes on along a link.
pub proof fn lemma_walk_on(
    g: spec_fn(Seq<char>) -> Seq<Seq<char>>,
    a: Seq<char>,
    b: Seq<char>,
    c: Seq<char>,
    n: nat,
)
    requires
        reaches(g, a, b, n),
        g(b).contains(c),
    ensures
        reaches(g, a, c, n + 1),
{
    let w = choose|w: Seq<Seq<char>>| walk_between(g, w, a, b, n);
    let v = w.push(c);
    assert forall|i: int| 0 <= i < n + 1 implies (#[trigger] g(v[i])).contains(v[i + 1]) by {
        if i < n {
            assert(v[i] == w[i]);
            assert(g(w[i]).contains(w[i + 1]));
        }
    }
    assert(walk_between(g, v, a, c, n + 1));
}

/// A walk of at least one link arrives from a page that is one link nearer.
pub proof fn lemma_walk_back(
    g: spec_fn(Seq<char>) -> Seq<Seq<char>>,
    a: Seq<char>,
    c: Seq<char>,
    n: nat,
) -> (b: Seq<char>)
    requires
        reaches(g, a, c, n + 1),
    ensures
        reaches(g, a, b, n),
        g(b).contains(c),
{
    let m: nat = n + 1;
    let w = choose|w: Seq<Seq<char>>| walk_between(g, w, a, c, m);
    let v = w.drop_last();
    assert forall|i: int| 0 <= i < n implies (#[trigger] g(v[i])).contains(v[i + 1]) by {
        assert(v[i] == w[i]);
        assert(g(w[i]).contains(w[i + 1]));
    }
    assert(walk_between(g, v, a, w[n as int], n));
    assert(g(w[n as int]).contains(w[n as int + 1]));
    w[n as int]
}

/// A walk of no link stays where it is.
pub proof fn lemma_walk_none(
    g: spec_fn(Seq<char>) -> Seq<Seq<char>>,
    a: Seq<char>,
    b: Seq<char>,
)
    ensures
        reaches(g, a, b, 0) <==> a == b,
{
    if a == b {
        assert(walk_between(g, seq![a], a, b, 0));
    }
}

/// A search that has just begun, from a source that is not its target,
/// follows every graph exactly.
pub proof fn lemma_tight_start(s: SearchView, g: spec_fn(Seq<char>) -> Seq<Seq<char>>)
    requires
        s.source != s.target,
        s.level == 0,
        s.frontier.source == s.source,
        s.frontier.visited == Map::<Seq<char>, Option<Seq<char>>>::empty().insert(s.source, None),
        s.frontier.depth == Map::<Seq<char>, nat>::empty().insert(s.source, 0nat),
        s.frontier.taken == Seq::<Seq<char>>::empty(),
    ensures
        tight(s, g),
{
    lemma_walk_none(g, s.source, s.source);
    lemma_walk_none(g, s.source, s.target);
    assert forall|k: Seq<char>, n: nat|
        n <= s.level && k != s.target && #[trigger] reaches(g, s.source, k, n) implies s.frontier.visited.contains_key(k)
        && s.frontier.depth[k] <= n by {
        lemma_walk_none(g, s.source, k);
    }
}

/// Handing a page to an idle worker keeps the search exact.
pub proof fn lemma_tight_handed(
    s: SearchView,
    g: spec_fn(Seq<char>) -> Seq<Seq<char>>,
    worker: int,
)
    requires
        s.inv(),
        tight(s, g),
        in_state(s.workers, worker, WorkerState::Idle),
        s.frontier.current.len() > 0,
    ensures
        tight(s.handed(worker), g),
{
    let t = s.handed(worker);
    let id = s.frontier.current[0];
    let n = s.frontier.taken.len() as int;
    s.frontier.lemma_taken_once();
    assert(s.frontier.known()[n] == id);
    assert(!s.frontier.taken.contains(id)) by {
        if s.frontier.taken.contains(id) {
            let j = choose|j: int| 0 <= j < n && s.frontier.taken[j] == id;
            assert(s.frontier.known()[j] == id);
        }
    }
    assert(t.workers[worker].assigned == Some(id));
    assert forall|k: Seq<char>| settled(s, k) implies settled(t, k) by {
        let j = choose|j: int| 0 <= j < n && s.frontier.taken[j] == k;
        assert(t.frontier.taken[j] == k);
        if held(t, k) {
            let i = choose|i: int| 0 <= i < t.workers.len() && (#[trigger] t.workers[i]).assigned == Some(k);
            if i != worker {
                assert(s.workers[i].assigned == Some(k));
            }
        }
    }
    assert forall|k: Seq<char>| settled(t, k) implies settled(s, k) by {
        let j = choose|j: int| 0 <= j < t.frontier.taken.len() && t.frontier.taken[j] == k;
        if j == n {
            assert(held(t, k));
        } else {
            assert(s.frontier.taken[j] == k);
        }
        if held(s, k) {
            let i = choose|i: int| 0 <= i < s.workers.len() && (#[trigger] s.workers[i]).assigned == Some(k);
            assert(i != worker);
            assert(t.workers[i].assigned == Some(k));
        }
    }
}

/// Taking in links of the page that a worker holds, where the graph gives
/// that page each of them and none is the target, keeps the search exact.
pub proof fn lemma_tight_folded(
    s: SearchView,
    g: spec_fn(Seq<char>) -> Seq<Seq<char>>,
    worker: int,
    links: Seq<Seq<char>>,
)
    requires
        s.inv(),
        tight(s, g),
        in_state(s.workers, worker, WorkerState::Processing),
        forall|i: int|
            0 <= i < links.len() ==> g(s.workers[worker].assigned->0).contains(#[trigger] links[i])
                && links[i] != s.target,
    ensures
        tight(s.folded(links, worker), g),
{
    let page = s.workers[worker].assigned->0;
    let t = s.folded(links, worker);
    s.lemma_folded(links, worker);
    s.frontier.lemma_fold(links, page);
    assert(s.frontier.depth[page] == s.level);
    assert forall|k: Seq<char>| settled(s, k) implies settled(t, k) by {
        if held(t, k) {
            let i = choose|i: int| 0 <= i < t.workers.len() && (#[trigger] t.workers[i]).assigned == Some(k);
            assert(s.workers[i].assigned == Some(k));
        }
    }
    assert forall|k: Seq<char>| settled(t, k) implies settled(s, k) by {
        if held(s, k) {
            let i = choose|i: int| 0 <= i < s.workers.len() && (#[trigger] s.workers[i]).assigned == Some(k);
            assert(t.workers[i].assigned == Some(k));
        }
    }
    assert forall|k: Seq<char>| #[trigger] t.frontier.visited.contains_key(k) implies {
        &&& reaches(g, t.source, k, t.frontier.depth[k])
        &&& t.frontier.depth[k] <= t.level + 1
        &&& t.frontier.depth[k] < t.level ==> settled(t, k)
        &&& match t.frontier.visited[k] {
            Some(p) => g(p).contains(k),
            None => true,
        }
    } by {
        if s.frontier.visited.contains_key(k) {
            assert(t.frontier.depth[k] == s.frontier.depth[k]);
        } else {
            let i = choose|i: int| 0 <= i < links.len() && links[i] == k;
            assert(g(page).contains(links[i]));
            assert(s.frontier.visited.contains_key(page));
            lemma_walk_on(g, s.source, page, k, s.level);
        }
    }
    assert(!t.frontier.visited.contains_key(t.target)) by {
        if t.frontier.visited.contains_key(t.target) {
            let i = choose|i: int| 0 <= i < links.len() && links[i] == t.target;
            assert(links[i] != s.target);
        }
    }
    assert forall|k: Seq<char>, n: nat|
        n <= t.level && k != t.target && #[trigger] reaches(g, t.source, k, n) implies t.frontier.visited.contains_key(k)
        && t.frontier.depth[k] <= n by {
        assert(s.frontier.visited.contains_key(k));
    }
    assert forall|p: Seq<char>, j: int| settled(t, p) && 0 <= j < g(p).len() implies #[trigger] g(p)[j]
        != t.target && t.frontier.visited.contains_key(g(p)[j]) by {
        assert(settled(s, p));
        assert(s.frontier.visited.contains_key(g(p)[j]));
    }
}

/// Sending a worker back to idle, once every link that the graph gives its
/// page is discovered and none of them is the target, keeps the search
/// exact.
pub proof fn lemma_tight_released(
    s: SearchView,
    g: spec_fn(Seq<char>) -> Seq<Seq<char>>,
    worker: int,
)
    requires
        s.inv(),
        tight(s, g),
        in_state(s.workers, worker, WorkerState::Processing),
        forall|j: int|
            0 <= j < g(s.workers[worker].assigned->0).len() ==> (#[trigger] g(
                s.workers[worker].assigned->0,
            )[j]) != s.target && s.frontier.visited.contains_key(
                g(s.workers[worker].assigned->0)[j],
            ),
    ensures
        tight(s.released(worker), g),
{
    let page = s.workers[worker].assigned->0;
    let t = s.released(worker);
    assert forall|k: Seq<char>| settled(s, k) implies settled(t, k) by {
        if held(t, k) {
            let i = choose|i: int| 0 <= i < t.workers.len() && (#[trigger] t.workers[i]).assigned == Some(k);
            assert(i != worker);
            assert(s.workers[i].assigned == Some(k));
        }
    }
    assert forall|p: Seq<char>, j: int| settled(t, p) && 0 <= j < g(p).len() implies #[trigger] g(p)[j]
        != t.target && t.frontier.visited.contains_key(g(p)[j]) by {
        if p != page {
            if held(s, p) {
                let i = choose|i: int| 0 <= i < s.workers.len() && (#[trigger] s.workers[i]).assigned == Some(p);
                assert(i != worker);
                assert(t.workers[i].assigned == Some(p));
            }
            assert(settled(s, p));
        }
    }
}

/// Taking in all the links that the graph gives the page of a worker, with
/// no target among them, and sending the worker back to idle keeps the
/// search exact.
pub proof fn lemma_tight_batch(
    s: SearchView,
    g: spec_fn(Seq<char>) -> Seq<Seq<char>>,
    worker: int,
)
    requires
        s.inv(),
        tight(s, g),
        in_state(s.workers, worker, WorkerState::Processing),
        !g(s.workers[worker].assigned->0).contains(s.target),
    ensures
        tight(s.folded(g(s.workers[worker].assigned->0), worker).released(worker), g),
{
    let page = s.workers[worker].assigned->0;
    let links = g(page);
    assert forall|i: int| 0 <= i < links.len() implies g(page).contains(#[trigger] links[i])
        && links[i] != s.target by {}
    lemma_tight_folded(s, g, worker, links);
    s.lemma_folded(links, worker);
    s.frontier.lemma_fold(links, page);
    let t = s.folded(links, worker);
    assert(t.workers[worker].assigned->0 == page);
    lemma_tight_released(t, g, worker);
}

/// Moving on to the next depth, once the current queue is empty and no
/// worker is processing, keeps the search exact.
pub proof fn lemma_tight_advanced(s: SearchView, g: spec_fn(Seq<char>) -> Seq<Seq<char>>)
    requires
        s.inv(),
        tight(s, g),
        s.frontier.current.len() == 0,
        !any_processing(s.workers),
    ensures
        tight(s.advanced(), g),
{
    let t = s.advanced();
    let f = s.frontier;
    assert forall|k: Seq<char>| #[trigger] f.visited.contains_key(k) && f.depth[k] <= s.level implies settled(s, k) by {
        if f.depth[k] == s.level {
            let i = choose|i: int| 0 <= i < f.known().len() && f.known()[i] == k;
            if i >= f.taken.len() {
                assert(f.next[i - f.taken.len()] == k);
            } else {
                assert(f.taken[i] == k);
            }
            if held(s, k) {
                let w = choose|w: int| 0 <= w < s.workers.len() && (#[trigger] s.workers[w]).assigned == Some(k);
                assert(s.workers[w].state is Processing);
            }
        }
    }
    assert forall|k: Seq<char>| settled(s, k) implies settled(t, k) by {
        if held(t, k) {
            let w = choose|w: int| 0 <= w < t.workers.len() && (#[trigger] t.workers[w]).assigned == Some(k);
            assert(s.workers[w].assigned == Some(k));
        }
    }
    assert forall|k: Seq<char>| settled(t, k) implies settled(s, k) by {
        if held(s, k) {
            let w = choose|w: int| 0 <= w < s.workers.len() && (#[trigger] s.workers[w]).assigned == Some(k);
            assert(t.workers[w].assigned == Some(k));
        }
    }
    assert forall|n: nat| n <= t.level implies !#[trigger] reaches(g, t.source, t.target, n) by {
        if n == s.level + 1 && reaches(g, s.source, s.target, n) {
            let q = lemma_walk_back(g, s.source, s.target, s.level);
            assert(!reaches(g, s.source, s.target, s.level));
            assert(q != s.target);
            assert(f.visited.contains_key(q));
            assert(settled(s, q));
            let out = g(q);
            let j = choose|j: int| 0 <= j < out.len() && out[j] == s.target;
            assert(g(q)[j] != s.target);
        }
    }
    assert forall|k: Seq<char>, n: nat|
        n <= t.level && k != t.target && #[trigger] reaches(g, t.source, k, n) implies t.frontier.visited.contains_key(k)
        && t.frontier.depth[k] <= n by {
        if n == s.level + 1 {
            let q = lemma_walk_back(g, s.source, k, s.level);
            assert(!reaches(g, s.source, s.target, s.level));
            assert(q != s.target);
            assert(f.visited.contains_key(q));
            assert(settled(s, q));
            let out = g(q);
            let j = choose|j: int| 0 <= j < out.len() && out[j] == k;
            assert(f.visited.contains_key(g(q)[j]));
        }
    }
}

/// A target that is found among the links of the page that a worker holds
/// lies one link beyond the present depth: the path through that page is a
/// walk in the graph from the source to the target, of as many pages as
/// the present depth plus two, and no shorter walk reaches the target.
pub proof fn lemma_found_is_shortest(
    s: SearchView,
    g: spec_fn(Seq<char>) -> Seq<Seq<char>>,
    worker: int,
)
    requires
        s.inv(),
        tight(s, g),
        in_state(s.workers, worker, WorkerState::Processing),
        g(s.workers[worker].assigned->0).contains(s.target),
    ensures
        walk_between(
            g,
            s.frontier.route(s.workers[worker].assigned->0, s.target),
            s.source,
            s.target,
            s.level + 1,
        ),
        reaches(g, s.source, s.target, s.level + 1),
        forall|n: nat| n <= s.level ==> !#[trigger] reaches(g, s.source, s.target, n),
{
    let page = s.workers[worker].assigned->0;
    s.lemma_folded(Seq::empty(), worker);
    assert(s.frontier.depth[page] == s.level);
    s.frontier.lemma_route(page, s.target);
    let r = s.frontier.route(page, s.target);
    let m: nat = s.level + 1;
    assert forall|i: int| 0 <= i < m implies (#[trigger] g(r[i])).contains(r[i + 1]) by {
        if i < s.level {
            assert(s.frontier.visited.contains_key(r[i + 1]));
            assert(s.frontier.visited[r[i + 1]] == Some(r[i]));
        }
    }
    assert(walk_between(g, r, s.source, s.target, m));
}

/// The path that an exact search returns is a shortest one. Where a worker
/// reports the links that the graph gives its page and the scan of them
/// stops at the target, the path through that page, read in the frontier
/// as the scan left it, is a walk in the graph from the source to the
/// target over one link more than the present depth, and no walk over
/// fewer links reaches the target. The number of workers and the order of
/// their answers have no part in it.
pub proof fn lemma_found_path(
    s: SearchView,
    g: spec_fn(Seq<char>) -> Seq<Seq<char>>,
    worker: int,
    at: int,
)
    requires
        s.inv(),
        tight(s, g),
        in_state(s.workers, worker, WorkerState::Processing),
        stops_at(g(s.workers[worker].assigned->0), s.target, at),
        at < g(s.workers[worker].assigned->0).len(),
    ensures
        s.folded(g(s.workers[worker].assigned->0).take(at), worker).inv(),
        walk_between(
            g,
            s.folded(g(s.workers[worker].assigned->0).take(at), worker).frontier.route(
                s.workers[worker].assigned->0,
                s.target,
            ),
            s.source,
            s.target,
            s.level + 1,
        ),
        forall|n: nat| n <= s.level ==> !#[trigger] reaches(g, s.source, s.target, n),
{
    let page = s.workers[worker].assigned->0;
    let links = g(page);
    let head = links.take(at);
    assert forall|i: int| 0 <= i < head.len() implies g(page).contains(#[trigger] head[i]) && head[i]
        != s.target by {
        assert(head[i] == links[i]);
    }
    assert(links[at] == s.target);
    lemma_tight_folded(s, g, worker, head);
    s.lemma_folded(head, worker);
    lemma_found_is_shortest(s.folded(head, worker), g, worker);
}

} // verus!
