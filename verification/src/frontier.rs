//! The frontier of the search: the two queues, the predecessor map and the
//! reconstruction of a path from it.

use std::collections::VecDeque;
use vstd::hash_map::StringHashMap;
use vstd::prelude::*;

verus! {

/// The page identifiers that a sequence of strings holds, in order.
pub open spec fn ids(s: Seq<String>) -> Seq<Seq<char>> {
    Seq::new(s.len(), |i: int| s[i]@)
}

/// The predecessor entry of a page as plain characters.
pub open spec fn entry_view(o: Option<String>) -> Option<Seq<char>> {
    match o {
        Some(s) => Some(s@),
        None => None,
    }
}

/// What a frontier is, as mathematics.
#[verifier::ext_equal]
pub struct FrontierView {
    /// The page the search starts from.
    pub source: Seq<char>,
    /// Every page discovered so far, with the page it was first discovered from.
    pub visited: Map<Seq<char>, Option<Seq<char>>>,
    /// The number of links on the recorded chain from the source to each page.
    pub depth: Map<Seq<char>, nat>,
    /// The pages still to fetch at the present depth, first in first out.
    pub current: Seq<Seq<char>>,
    /// The pages discovered while the present depth is processed.
    pub next: Seq<Seq<char>>,
    /// The pages handed out for fetching so far, in the order they left.
    pub taken: Seq<Seq<char>>,
    /// The bound on the size of the two queues together.
    pub cap: nat,
}

impl FrontierView {
    /// Every page that was ever queued: handed out, waiting now, or waiting
    /// for the next depth.
    pub open spec fn known(self) -> Seq<Seq<char>> {
        self.taken + self.current + self.next
    }

    /// The invariant of the bookkeeping.
    pub open spec fn inv(self) -> bool {
        &&& self.visited.dom().finite()
        &&& self.visited.contains_key(self.source)
        &&& self.visited[self.source] is None
        &&& self.depth[self.source] == 0
        &&& forall|k: Seq<char>| #[trigger]
            self.visited.contains_key(k) ==> match self.visited[k] {
                None => k == self.source,
                Some(p) => self.visited.contains_key(p) && self.depth[k] == self.depth[p] + 1,
            }
        &&& self.known().no_duplicates()
        &&& forall|k: Seq<char>| #[trigger] self.visited.contains_key(k) ==> self.known().contains(k)
        &&& forall|i: int| 0 <= i < self.known().len() ==> self.visited.contains_key(#[trigger] self.known()[i])
    }

    /// The frontier after `id`, discovered on page `pred`, was offered to it.
    pub open spec fn enqueue(self, id: Seq<char>, pred: Seq<char>) -> FrontierView {
        if self.visited.contains_key(id) {
            self
        } else {
            FrontierView {
                visited: self.visited.insert(id, Some(pred)),
                depth: self.depth.insert(id, self.depth[pred] + 1),
                next: self.next.push(id),
                ..self
            }
        }
    }

    /// The frontier after each of `links`, all discovered on page `pred`, was
    /// offered to it in order.
    pub open spec fn fold(self, links: Seq<Seq<char>>, pred: Seq<char>) -> FrontierView
        decreases links.len(),
    {
        if links.len() == 0 {
            self
        } else {
            self.fold(links.drop_last(), pred).enqueue(links.last(), pred)
        }
    }

    /// The recorded chain from `k` back to the source: `k`, the page it was
    /// discovered from, and so on.
    pub open spec fn trail(self, k: Seq<char>) -> Seq<Seq<char>>
        decreases self.depth[k],
    {
        if self.inv() && self.visited.contains_key(k) {
            match self.visited[k] {
                Some(p) => seq![k] + self.trail(p),
                None => seq![k],
            }
        } else {
            seq![k]
        }
    }

    /// The path from the source to `target`, which was found among the links
    /// of page `discoverer`.
    pub open spec fn route(self, discoverer: Seq<char>, target: Seq<char>) -> Seq<Seq<char>> {
        (seq![target] + self.trail(discoverer)).reverse()
    }
}

impl FrontierView {
    /// The recorded chain of a discovered page starts at that page, ends at
    /// the source, has one page more than the page's depth, and each page on
    /// it was discovered on the one that follows it.
    pub proof fn lemma_trail(self, k: Seq<char>)
        requires
            self.inv(),
            self.visited.contains_key(k),
        ensures
            self.trail(k).len() == self.depth[k] + 1,
            self.trail(k)[0] == k,
            self.trail(k).last() == self.source,
            forall|i: int| 0 <= i < self.trail(k).len() ==> self.visited.contains_key(#[trigger] self.trail(k)[i]),
            forall|i: int| 0 <= i < self.trail(k).len() - 1 ==> self.visited[#[trigger] self.trail(k)[i]] == Some(self.trail(k)[i + 1]),
        decreases self.depth[k],
    {
        match self.visited[k] {
            Some(p) => {
                self.lemma_trail(p);
                let rest = self.trail(p);
                let whole = self.trail(k);
                assert(whole == seq![k] + rest);
                assert forall|i: int| 0 <= i < whole.len() implies self.visited.contains_key(#[trigger] whole[i]) by {
                    if i > 0 {
                        assert(whole[i] == rest[i - 1]);
                    }
                }
                assert forall|i: int| 0 <= i < whole.len() - 1 implies self.visited[#[trigger] whole[i]] == Some(whole[i + 1]) by {
                    assert(whole[i + 1] == rest[i]);
                    if i > 0 {
                        assert(whole[i] == rest[i - 1]);
                    }
                }
            },
            None => {},
        }
    }

    /// A returned path starts with the source and ends with the target, its
    /// length is the depth of the discovering page plus two, the target
    /// follows the discovering page, and every page before it is followed by
    /// a page that was discovered on it.
    pub proof fn lemma_route(self, discoverer: Seq<char>, target: Seq<char>)
        requires
            self.inv(),
            self.visited.contains_key(discoverer),
        ensures
            self.route(discoverer, target).len() == self.depth[discoverer] + 2,
            self.route(discoverer, target)[0] == self.source,
            self.route(discoverer, target).last() == target,
            self.route(discoverer, target)[self.depth[discoverer] as int] == discoverer,
            forall|i: int| 0 <= i <= self.depth[discoverer] ==> self.visited.contains_key(#[trigger] self.route(discoverer, target)[i]),
            forall|i: int| 0 <= i < self.depth[discoverer] ==> self.visited[#[trigger] self.route(discoverer, target)[i + 1]] == Some(self.route(discoverer, target)[i]),
    {
        self.lemma_trail(discoverer);
        let t = self.trail(discoverer);
        let b = seq![target] + t;
        let r = self.route(discoverer, target);
        assert(r.len() == b.len());
        assert forall|i: int| 0 <= i <= self.depth[discoverer] implies self.visited.contains_key(#[trigger] r[i]) by {
            let n = b.len();
            assert(r[i] == b[n - 1 - i]);
            assert(b[n - 1 - i] == t[n - 2 - i]);
        }
        assert forall|i: int| 0 <= i < self.depth[discoverer] implies self.visited[#[trigger] r[i + 1]] == Some(r[i]) by {
            let n = b.len();
            assert(r[i + 1] == b[n - 2 - i]);
            assert(r[i] == b[n - 1 - i]);
            assert(b[n - 2 - i] == t[n - 3 - i]);
            assert(b[n - 1 - i] == t[n - 2 - i]);
        }
    }

    /// No page is handed out twice, and a page that was handed out waits in
    /// neither queue.
    pub proof fn lemma_taken_once(self)
        requires
            self.inv(),
        ensures
            self.taken.no_duplicates(),
            forall|i: int| 0 <= i < self.taken.len() ==> !self.current.contains(#[trigger] self.taken[i])
                    && !self.next.contains(self.taken[i]),
    {
        let known = self.known();
        let t = self.taken.len() as int;
        let c = self.current.len() as int;
        assert forall|i: int, j: int| 0 <= i < t && 0 <= j < t && i != j implies self.taken[i] != self.taken[j] by {
            assert(known[i] == self.taken[i] && known[j] == self.taken[j]);
        }
        assert forall|i: int| 0 <= i < t implies !self.current.contains(#[trigger] self.taken[i])
            && !self.next.contains(self.taken[i]) by {
            assert(known[i] == self.taken[i]);
            if self.current.contains(self.taken[i]) {
                let j = choose|j: int| 0 <= j < c && self.current[j] == self.taken[i];
                assert(known[t + j] == self.current[j]);
            }
            if self.next.contains(self.taken[i]) {
                let j = choose|j: int| 0 <= j < self.next.len() && self.next[j] == self.taken[i];
                assert(known[t + c + j] == self.next[j]);
            }
        }
    }

    /// Every queued page is discovered, no page waits twice, and no page
    /// waits in both queues.
    pub proof fn lemma_queues(self)
        requires
            self.inv(),
        ensures
            self.current.no_duplicates(),
            self.next.no_duplicates(),
            forall|i: int| 0 <= i < self.current.len() ==> self.visited.contains_key(#[trigger] self.current[i])
                    && !self.next.contains(self.current[i]),
            forall|i: int| 0 <= i < self.next.len() ==> self.visited.contains_key(#[trigger] self.next[i]),
    {
        let known = self.known();
        let t = self.taken.len() as int;
        let c = self.current.len() as int;
        assert forall|i: int, j: int| 0 <= i < c && 0 <= j < c && i != j implies self.current[i] != self.current[j] by {
            assert(known[t + i] == self.current[i] && known[t + j] == self.current[j]);
        }
        assert forall|i: int, j: int| 0 <= i < self.next.len() && 0 <= j < self.next.len() && i != j implies self.next[i] != self.next[j] by {
            assert(known[t + c + i] == self.next[i] && known[t + c + j] == self.next[j]);
        }
        assert forall|i: int| 0 <= i < c implies self.visited.contains_key(#[trigger] self.current[i])
            && !self.next.contains(self.current[i]) by {
            assert(known[t + i] == self.current[i]);
            if self.next.contains(self.current[i]) {
                let j = choose|j: int| 0 <= j < self.next.len() && self.next[j] == self.current[i];
                assert(known[t + c + j] == self.next[j]);
            }
        }
        assert forall|i: int| 0 <= i < self.next.len() implies self.visited.contains_key(#[trigger] self.next[i]) by {
            assert(known[t + c + i] == self.next[i]);
        }
    }

    /// Offering a page keeps the invariant, keeps every earlier entry of the
    /// predecessor map and every depth, and leaves the page discovered.
    pub proof fn lemma_enqueue(self, id: Seq<char>, pred: Seq<char>)
        requires
            self.inv(),
            self.visited.contains_key(pred),
        ensures
            self.enqueue(id, pred).inv(),
            self.enqueue(id, pred).visited.contains_key(id),
            self.enqueue(id, pred).current == self.current,
            self.enqueue(id, pred).taken == self.taken,
            forall|k: Seq<char>| #[trigger] self.visited.contains_key(k) ==> self.enqueue(id, pred).visited.contains_key(k)
                    && self.enqueue(id, pred).visited[k] == self.visited[k]
                    && self.enqueue(id, pred).depth[k] == self.depth[k],
            forall|k: Seq<char>| #[trigger] self.enqueue(id, pred).visited.contains_key(k) ==> self.visited.contains_key(k)
                    || (k == id && self.enqueue(id, pred).depth[k] == self.depth[pred] + 1 && self.enqueue(
                    id,
                    pred,
                ).visited[k] == Some(pred)),
            self.next.len() <= self.enqueue(id, pred).next.len(),
            forall|i: int| 0 <= i < self.enqueue(id, pred).next.len() ==> if i < self.next.len() {
                    (#[trigger] self.enqueue(id, pred).next[i]) == self.next[i]
                } else {
                    self.enqueue(id, pred).depth[self.enqueue(id, pred).next[i]] == self.depth[pred] + 1
                },
    {
        let after = self.enqueue(id, pred);
        if !self.visited.contains_key(id) {
            assert(after.known() =~= self.known().push(id));
            assert forall|k: Seq<char>| #[trigger] after.visited.contains_key(k) implies after.known().contains(k) by {
                if k == id {
                    assert(after.known()[self.known().len() as int] == k);
                } else {
                    let i = choose|i: int| 0 <= i < self.known().len() && self.known()[i] == k;
                    assert(after.known()[i] == k);
                }
            }
            assert forall|i: int| 0 <= i < after.known().len() implies after.visited.contains_key(#[trigger] after.known()[i]) by {
                if i < self.known().len() {
                    assert(self.visited.contains_key(self.known()[i]));
                }
            }
            assert forall|i: int, j: int| 0 <= i < after.known().len() && 0 <= j < after.known().len() && i != j implies after.known()[i] != after.known()[j] by {
                if i < self.known().len() {
                    assert(self.visited.contains_key(self.known()[i]));
                }
                if j < self.known().len() {
                    assert(self.visited.contains_key(self.known()[j]));
                }
            }
        }
    }

    /// Offering a batch of links keeps the invariant, keeps every earlier
    /// entry of the predecessor map and every depth, and never touches the
    /// current queue or the record of pages handed out.
    pub proof fn lemma_fold(self, links: Seq<Seq<char>>, pred: Seq<char>)
        requires
            self.inv(),
            self.visited.contains_key(pred),
        ensures
            self.fold(links, pred).inv(),
            self.fold(links, pred).current == self.current,
            self.fold(links, pred).taken == self.taken,
            self.fold(links, pred).source == self.source,
            self.fold(links, pred).cap == self.cap,
            forall|k: Seq<char>| #[trigger] self.visited.contains_key(k) ==> self.fold(links, pred).visited.contains_key(k)
                    && self.fold(links, pred).visited[k] == self.visited[k]
                    && self.fold(links, pred).depth[k] == self.depth[k],
            forall|i: int| 0 <= i < links.len() ==> self.fold(links, pred).visited.contains_key(#[trigger] links[i]),
            forall|k: Seq<char>| #[trigger] self.fold(links, pred).visited.contains_key(k) ==> self.visited.contains_key(k)
                    || (links.contains(k) && self.fold(links, pred).depth[k] == self.depth[pred] + 1
                    && self.fold(links, pred).visited[k] == Some(pred)),
            self.next.len() <= self.fold(links, pred).next.len(),
            forall|i: int| 0 <= i < self.fold(links, pred).next.len() ==> if i < self.next.len() {
                    (#[trigger] self.fold(links, pred).next[i]) == self.next[i]
                } else {
                    self.fold(links, pred).depth[self.fold(links, pred).next[i]] == self.depth[pred] + 1
                },
        decreases links.len(),
    {
        if links.len() > 0 {
            let mid = self.fold(links.drop_last(), pred);
            let end = self.fold(links, pred);
            self.lemma_fold(links.drop_last(), pred);
            mid.lemma_enqueue(links.last(), pred);
            assert forall|k: Seq<char>| #[trigger] end.visited.contains_key(k) implies self.visited.contains_key(k)
                || (links.contains(k) && end.depth[k] == self.depth[pred] + 1 && end.visited[k] == Some(pred)) by {
                if !self.visited.contains_key(k) {
                    if mid.visited.contains_key(k) {
                        let j = choose|j: int| 0 <= j < links.drop_last().len() && links.drop_last()[j] == k;
                        assert(links[j] == k);
                    } else {
                        assert(links[links.len() - 1] == k);
                    }
                }
            }
            assert forall|i: int| 0 <= i < end.next.len() implies if i < self.next.len() {
                (#[trigger] end.next[i]) == self.next[i]
            } else {
                end.depth[end.next[i]] == self.depth[pred] + 1
            } by {
                if i < mid.next.len() {
                    assert(end.next[i] == mid.next[i]);
                    if i >= self.next.len() {
                        let j = self.taken.len() + self.current.len() + i;
                        assert(mid.known()[j] == mid.next[i]);
                        assert(mid.visited.contains_key(mid.next[i]));
                    }
                }
            }
            assert forall|i: int| 0 <= i < links.len() implies self.fold(links, pred).visited.contains_key(#[trigger] links[i]) by {
                if i < links.len() - 1 {
                    assert(links.drop_last()[i] == links[i]);
                    assert(mid.visited.contains_key(links.drop_last()[i]));
                }
            }
        }
    }
}

/// The current and next queues of a breadth-first search, with the map from
/// each discovered page to the page it was first discovered from.
pub struct Frontier {
    source: String,
    visited: StringHashMap<Option<String>>,
    current: VecDeque<String>,
    next: VecDeque<String>,
    cap: usize,
    depth: Ghost<Map<Seq<char>, nat>>,
    taken: Ghost<Seq<Seq<char>>>,
}

impl View for Frontier {
    type V = FrontierView;

    closed spec fn view(&self) -> FrontierView {
        FrontierView {
            source: self.source@,
            visited: Map::new(
                |k: Seq<char>| self.visited@.contains_key(k),
                |k: Seq<char>| entry_view(self.visited@[k]),
            ),
            depth: self.depth@,
            current: ids(self.current@),
            next: ids(self.next@),
            taken: self.taken@,
            cap: self.cap as nat,
        }
    }
}

impl Frontier {
    /// Whether the frontier is in a state that its operations keep.
    pub closed spec fn wf(&self) -> bool {
        &&& self@.inv()
        &&& self.visited@.dom().finite()
    }

    /// A well-formed frontier satisfies the invariant of its view.
    pub proof fn lemma_wf_inv(&self)
        requires
            self.wf(),
        ensures
            self@.inv(),
    {
    }

    /// A frontier that holds the source alone, waiting at depth zero.
    pub fn new(source: &str, cap: usize) -> (f: Frontier)
        ensures
            f.wf(),
            f@ == (FrontierView {
                source: source@,
                visited: Map::empty().insert(source@, None),
                depth: Map::empty().insert(source@, 0nat),
                current: seq![source@],
                next: Seq::empty(),
                taken: Seq::empty(),
                cap: cap as nat,
            }),
    {
        let mut visited: StringHashMap<Option<String>> = StringHashMap::new();
        visited.insert(source.to_owned(), None);
        let mut current: VecDeque<String> = VecDeque::new();
        current.push_back(source.to_owned());
        let f = Frontier {
            source: source.to_owned(),
            visited,
            current,
            next: VecDeque::new(),
            cap,
            depth: Ghost(Map::empty().insert(source@, 0nat)),
            taken: Ghost(Seq::empty()),
        };
        proof {
            let v = f@;
            assert(v.visited =~= Map::empty().insert(source@, None));
            assert(v.current =~= seq![source@]);
            assert(v.next =~= Seq::empty());
            assert(v.known() =~= seq![source@]);
            assert(v.known()[0] == source@);
            assert(v.visited.dom() =~= f.visited@.dom());
        }
        f
    }

    /// Offers a page discovered on `predecessor`: a page not seen before is
    /// recorded with its predecessor and appended to the next queue, a page
    /// seen before changes nothing. Returns whether the page was new.
    pub fn enqueue_if_new(&mut self, id: &str, predecessor: &str) -> (added: bool)
        requires
            old(self).wf(),
            old(self)@.visited.contains_key(predecessor@),
        ensures
            final(self).wf(),
            added == !old(self)@.visited.contains_key(id@),
            final(self)@ == old(self)@.enqueue(id@, predecessor@),
    {
        if self.visited.contains_key(id) {
            return false;
        }
        let ghost before = self@;
        self.visited.insert(id.to_owned(), Some(predecessor.to_owned()));
        self.next.push_back(id.to_owned());
        proof {
            self.depth@ = self.depth@.insert(id@, self.depth@[predecessor@] + 1);
            let after = self@;
            assert(after.visited =~= before.visited.insert(id@, Some(predecessor@)));
            assert(after.next =~= before.next.push(id@));
            assert(after.current =~= before.current);
            assert(after.known() =~= before.known().push(id@));
            assert(after =~= before.enqueue(id@, predecessor@));
            assert(after.visited.dom() =~= before.visited.dom().insert(id@));
            assert forall|k: Seq<char>| #[trigger] after.visited.contains_key(k) implies after.known().contains(k) by {
                if k == id@ {
                    assert(after.known()[before.known().len() as int] == k);
                } else {
                    assert(before.visited.contains_key(k));
                    let i = choose|i: int| 0 <= i < before.known().len() && before.known()[i] == k;
                    assert(after.known()[i] == k);
                }
            }
            assert forall|i: int| 0 <= i < after.known().len() implies after.visited.contains_key(#[trigger] after.known()[i]) by {
                if i < before.known().len() {
                    assert(before.visited.contains_key(before.known()[i]));
                }
            }
            assert forall|i: int, j: int| 0 <= i < after.known().len() && 0 <= j < after.known().len() && i != j implies after.known()[i] != after.known()[j] by {
                if i < before.known().len() {
                    assert(before.visited.contains_key(before.known()[i]));
                }
                if j < before.known().len() {
                    assert(before.visited.contains_key(before.known()[j]));
                }
            }
        }
        true
    }

    /// Removes and returns the head of the current queue, or `None` when that
    /// queue is empty. The page is recorded as handed out.
    pub fn pop_current(&mut self) -> (head: Option<String>)
        requires
            old(self).wf(),
        ensures
            final(self).wf(),
            match head {
                Some(id) => old(self)@.current.len() > 0 && id@ == old(self)@.current[0]
                    && final(self)@ == (FrontierView {
                    current: old(self)@.current.skip(1),
                    taken: old(self)@.taken.push(id@),
                    ..old(self)@
                }),
                None => old(self)@.current.len() == 0 && final(self)@ == old(self)@,
            },
    {
        let ghost before = self@;
        let head = self.current.pop_front();
        match head {
            Some(id) => {
                proof {
                    self.taken@ = self.taken@.push(id@);
                    let after = self@;
                    assert(after.current =~= before.current.skip(1));
                    assert(after.next =~= before.next);
                    assert(after.visited =~= before.visited);
                    assert(id@ == before.current[0]);
                    assert(after.known() =~= before.known());
                }
                Some(id)
            },
            None => {
                proof {
                    assert(self@ =~= before);
                }
                None
            },
        }
    }

    /// Makes the next queue the current one and leaves the next queue empty.
    /// It is for the moment when the current queue has run empty.
    pub fn advance_level(&mut self)
        requires
            old(self).wf(),
            old(self)@.current.len() == 0,
        ensures
            final(self).wf(),
            final(self)@ == (FrontierView {
                current: old(self)@.next,
                next: Seq::empty(),
                ..old(self)@
            }),
    {
        let ghost before = self@;
        std::mem::swap(&mut self.current, &mut self.next);
        proof {
            let after = self@;
            assert(after.next =~= Seq::empty());
            assert(after.current =~= before.next);
            assert(after.visited =~= before.visited);
            assert(after.known() =~= before.known());
        }
    }

    /// The number of pages in the two queues together.
    pub fn size(&self) -> (n: usize)
        requires
            self.wf(),
        ensures
            n == self@.current.len() + self@.next.len(),
    {
        proof {
            self.lemma_size_fits();
        }
        self.current.len() + self.next.len()
    }

    /// Whether the two queues together hold more pages than the bound allows.
    pub fn over_cap(&self) -> (over: bool)
        requires
            self.wf(),
        ensures
            over == (self@.current.len() + self@.next.len() > self@.cap),
    {
        self.size() > self.cap
    }

    /// Whether the current queue is empty.
    pub fn current_is_empty(&self) -> (empty: bool)
        ensures
            empty == (self@.current.len() == 0),
    {
        self.current.len() == 0
    }

    /// Whether the next queue is empty.
    pub fn next_is_empty(&self) -> (empty: bool)
        ensures
            empty == (self@.next.len() == 0),
    {
        self.next.len() == 0
    }

    /// Whether the page was discovered already.
    pub fn is_visited(&self, id: &str) -> (seen: bool)
        ensures
            seen == self@.visited.contains_key(id@),
    {
        self.visited.contains_key(id)
    }

    /// The path from the source to `target`, where `target` was found among
    /// the links of `discoverer`: the recorded chain of predecessors of
    /// `discoverer` is walked back to the source, and the pages collected on
    /// the way are returned in forward order.
    pub fn path_to(&self, discoverer: &str, target: &str) -> (path: Vec<String>)
        requires
            self.wf(),
            self@.visited.contains_key(discoverer@),
        ensures
            ids(path@) == self@.route(discoverer@, target@),
    {
        let mut back: Vec<String> = Vec::new();
        back.push(target.to_owned());
        let mut cur: String = discoverer.to_owned();
        back.push(cur.clone());
        let mut done: bool = false;
        proof {
            assert(ids(back@).drop_last() =~= seq![target@]);
        }
        while !done
            invariant
                self.wf(),
                self@.visited.contains_key(cur@),
                back@.len() >= 2,
                back@.last()@ == cur@,
                ids(back@).drop_last() + self@.trail(cur@) == seq![target@] + self@.trail(
                    discoverer@,
                ),
                done ==> self@.visited[cur@] is None,
            decreases self@.depth[cur@], if done { 0int } else { 1int },
        {
            let ghost before = ids(back@);
            let ghost at = cur@;
            match self.visited.get(cur.as_str()) {
                Some(Some(p)) => {
                    let parent: String = p.clone();
                    proof {
                        assert(self@.visited[at] == Some(parent@));
                        assert(self@.trail(at) == seq![at] + self@.trail(parent@));
                    }
                    back.push(parent.clone());
                    cur = parent;
                    proof {
                        assert(ids(back@).drop_last() =~= before);
                        assert(before =~= before.drop_last() + seq![at]);
                        assert(before + self@.trail(cur@) =~= before.drop_last() + (seq![at]
                            + self@.trail(cur@)));
                    }
                },
                _ => {
                    done = true;
                },
            }
        }
        proof {
            assert(self@.trail(cur@) == seq![cur@]);
            assert(ids(back@) =~= ids(back@).drop_last() + seq![cur@]);
        }
        let mut path: Vec<String> = Vec::new();
        let mut i: usize = back.len();
        while i > 0
            invariant
                i <= back@.len(),
                path@.len() == back@.len() - i,
                forall|j: int| 0 <= j < path@.len() ==> (#[trigger] path@[j])@ == back@[back@.len() - 1 - j]@,
            decreases i,
        {
            i = i - 1;
            path.push(back[i].clone());
        }
        proof {
            assert(ids(path@) =~= ids(back@).reverse());
        }
        path
    }

    /// The pages ever queued are no more than a machine word can count.
    proof fn lemma_size_fits(&self)
        requires
            self.wf(),
        ensures
            self@.known().len() <= usize::MAX,
    {
        broadcast use vstd::hash_map::group_hash_map_axioms;
        let known = self@.known();
        known.unique_seq_to_set();
        assert(known.to_set().subset_of(self.visited@.dom())) by {
            assert forall|k: Seq<char>| known.to_set().contains(k) implies self.visited@.dom().contains(k) by {
                let i = choose|i: int| 0 <= i < known.len() && known[i] == k;
                assert(self@.visited.contains_key(known[i]));
            }
        }
        vstd::set_lib::lemma_len_subset(known.to_set(), self.visited@.dom());
        assert(self.visited.len() == self.visited@.len());
    }
}

} // verus!
