//! LRU-K frame replacement policy.
//!
//! Each tracked frame carries a bounded history of its most recent access
//! timestamps (newest first). The victim of an eviction is the evictable
//! frame with the largest backward k-distance; a frame with fewer than
//! `k` recorded accesses has infinite distance. Ties are broken by the
//! smallest most-recent-access timestamp, and remaining ties by the
//! order in which frames entered the store, which makes `evict`
//! deterministic for any store contents.

use vstd::prelude::*;

verus! {

/// Kinds of page access. Informational only: the base policy treats all
/// access kinds alike.
pub enum AccessType {
    Unknown,
    Lookup,
    Scan,
    Index,
}

/// Current wall-clock time in nanoseconds since the Unix epoch.
///
/// Relies on `std::time::SystemTime::now`; the duration since the epoch
/// is converted to a plain integer. Nothing is assumed of the value:
/// the clock may move arbitrarily between calls, and the eviction rule
/// is stated over the timestamps actually stored.
#[verifier::external_body]
pub fn get_now_ts() -> (r: u128)
{
    std::time::SystemTime::now()
        .duration_since(std::time::UNIX_EPOCH)
        .unwrap_or_default()
        .as_nanos()
}

/// Bookkeeping for one tracked frame: its identifier, the distance
/// parameter `k`, whether the frame may be evicted, and the last at
/// most `k` access timestamps, newest first.
pub struct LruKNode {
    k: usize,
    frame_id: usize,
    is_evictable: bool,
    history: Vec<u128>,
}

impl LruKNode {
    pub closed spec fn spec_k(self) -> nat {
        self.k as nat
    }

    pub closed spec fn spec_frame_id(self) -> usize {
        self.frame_id
    }

    pub closed spec fn spec_evictable(self) -> bool {
        self.is_evictable
    }

    /// Access timestamps, newest at index 0.
    pub closed spec fn spec_history(self) -> Seq<u128> {
        self.history@
    }

    pub open spec fn wf(self) -> bool {
        &&& self.spec_k() >= 1
        &&& 1 <= self.spec_history().len() <= self.spec_k()
    }

    /// A node with fewer than `k` recorded accesses has infinite
    /// backward k-distance.
    pub open spec fn has_infinite_distance(self) -> bool {
        self.spec_history().len() < self.spec_k()
    }

    /// Timestamp of the kth most recent access (meaningful only when
    /// the history is full).
    pub open spec fn spec_kth_access(self) -> u128 {
        self.spec_history().last()
    }

    /// Timestamp of the most recent access.
    pub open spec fn spec_most_recent(self) -> u128 {
        self.spec_history()[0]
    }

    pub fn new(frame_id: usize, k: usize) -> (r: LruKNode)
        requires
            k >= 1,
        ensures
            r.wf(),
            r.spec_k() == k,
            r.spec_frame_id() == frame_id,
            !r.spec_evictable(),
            r.spec_history().len() == 1,
    {
        let ts = get_now_ts();
        let mut history: Vec<u128> = Vec::new();
        history.push(ts);
        LruKNode { k, frame_id, history, is_evictable: false }
    }

    /// Record one more access now: the new timestamp goes to the front
    /// and, once more than `k` are held, the oldest one is dropped.
    pub fn record_access(&mut self)
        requires
            old(self).wf(),
        ensures
            final(self).wf(),
            final(self).spec_k() == old(self).spec_k(),
            final(self).spec_frame_id() == old(self).spec_frame_id(),
            final(self).spec_evictable() == old(self).spec_evictable(),
            final(self).spec_history().len() == if old(self).spec_history().len()
                < old(self).spec_k() { old(self).spec_history().len() + 1 } else {
                old(self).spec_k()
            },
            final(self).spec_history().drop_first() == old(self).spec_history().take(
                final(self).spec_history().len() - 1),
    {
        let ts = get_now_ts();
        self.history.insert(0, ts);
        if self.history.len() > self.k {
            self.history.pop();
        }
        proof {
            assert(self.history@.drop_first() =~= old(self).history@.take(
                self.history@.len() - 1));
        }
    }

    /// Backward k-distance as a plain duration, `None` when the history
    /// holds fewer than `k` samples. The value depends on the clock;
    /// only its presence is specified.
    pub fn k_distance(&self) -> (r: Option<usize>)
        requires
            self.wf(),
        ensures
            r.is_some() <==> !self.has_infinite_distance(),
    {
        if self.history.len() < self.k {
            return None;
        }
        let kth: u128 = self.history[self.history.len() - 1];
        let now = get_now_ts();
        if now >= kth {
            Some((now - kth) as usize)
        } else {
            Some(0)
        }
    }

    /// Timestamp of the most recent access.
    pub fn least_recent_access(&self) -> (r: u128)
        requires
            self.wf(),
        ensures
            r == self.spec_most_recent(),
    {
        self.history[0]
    }

    pub fn get_is_evictable(&self) -> (r: bool)
        ensures
            r == self.spec_evictable(),
    {
        self.is_evictable
    }
}

/// `a` is strictly preferred over `b` as an eviction victim: larger
/// backward k-distance first (an incomplete history counts as infinite,
/// and among full histories a smaller kth-most-recent timestamp means a
/// larger distance), then the smaller most-recent-access timestamp.
pub open spec fn better_victim(a: LruKNode, b: LruKNode) -> bool {
    if a.has_infinite_distance() && !b.has_infinite_distance() {
        true
    } else if !a.has_infinite_distance() && b.has_infinite_distance() {
        false
    } else if a.has_infinite_distance() && b.has_infinite_distance() {
        a.spec_most_recent() < b.spec_most_recent()
    } else {
        a.spec_kth_access() < b.spec_kth_access() || (a.spec_kth_access()
            == b.spec_kth_access() && a.spec_most_recent() < b.spec_most_recent())
    }
}

/// Index of the victim the eviction rule picks from `s`: the first
/// evictable node that no other evictable node strictly beats.
pub open spec fn evict_best(s: Seq<LruKNode>) -> Option<int>
    decreases s.len(),
{
    if s.len() == 0 {
        None
    } else {
        let i = s.len() - 1;
        let prev = evict_best(s.drop_last());
        if !s[i].spec_evictable() {
            prev
        } else {
            match prev {
                None => Some(i as int),
                Some(j) => if better_victim(s[i], s[j]) {
                    Some(i as int)
                } else {
                    Some(j)
                },
            }
        }
    }
}

/// Frame id of the victim picked from `s`, if any.
pub open spec fn evict_result(s: Seq<LruKNode>) -> Option<usize> {
    match evict_best(s) {
        None => None,
        Some(i) => Some(s[i].spec_frame_id()),
    }
}

/// What `evict_best` picks: an evictable node that every other
/// evictable node fails to beat, and the earliest such node.
pub proof fn lemma_evict_best(s: Seq<LruKNode>)
    ensures
        evict_best(s) is None ==> forall|i: int|
            0 <= i < s.len() ==> !s[i].spec_evictable(),
        evict_best(s) matches Some(j) ==> 0 <= j < s.len() && s[j].spec_evictable()
            && forall|i: int|
            0 <= i < s.len() && s[i].spec_evictable() && i != j ==> (better_victim(
                s[j],
                s[i],
            ) || (!better_victim(s[i], s[j]) && j < i)),
    decreases s.len(),
{
    if s.len() > 0 {
        lemma_evict_best(s.drop_last());
        let t = s.drop_last();
        assert(forall|i: int| 0 <= i < t.len() ==> t[i] == s[i]);
    }
}

/// Number of evictable nodes in `s`.
pub open spec fn count_evictable(s: Seq<LruKNode>) -> nat
    decreases s.len(),
{
    if s.len() == 0 {
        0
    } else {
        count_evictable(s.drop_last()) + (if s.last().spec_evictable() {
            1nat
        } else {
            0nat
        })
    }
}

/// The next value of the replacer's access clock: one more, until the
/// counter is exhausted.
pub open spec fn tick(c: u128) -> u128 {
    if c < u128::MAX {
        (c + 1) as u128
    } else {
        c
    }
}

/// LRU-K replacer over a fixed set of frames.
///
/// Accesses are stamped from a logical clock the replacer owns rather
/// than from the wall clock: each recorded access gets a timestamp
/// strictly above every timestamp handed out before, so sequential
/// accesses are distinct and ordered, as the eviction rule's
/// tie-breaking demands.
pub struct LruKReplacer {
    num_of_frames: usize,
    k: usize,
    clock: u128,
    node_store: Vec<LruKNode>,
}

impl LruKReplacer {
    /// The tracked nodes, in the order they entered the store.
    pub closed spec fn spec_nodes(self) -> Seq<LruKNode> {
        self.node_store@
    }

    pub closed spec fn spec_k(self) -> nat {
        self.k as nat
    }

    pub closed spec fn spec_num_frames(self) -> nat {
        self.num_of_frames as nat
    }

    /// The access clock: the largest timestamp handed out so far.
    pub closed spec fn spec_clock(self) -> u128 {
        self.clock
    }

    pub open spec fn wf(self) -> bool {
        &&& self.spec_k() >= 1
        &&& forall|i: int|
            0 <= i < self.spec_nodes().len() ==> (#[trigger] self.spec_nodes()[i]).wf()
                && self.spec_nodes()[i].spec_k() == self.spec_k()
        &&& forall|i: int, j: int|
            0 <= i < j < self.spec_nodes().len() ==> (#[trigger] self.spec_nodes()[i]).spec_frame_id()
                != (#[trigger] self.spec_nodes()[j]).spec_frame_id()
    }

    /// Whether some node tracks `frame_id`.
    pub open spec fn has_node(self, frame_id: usize) -> bool {
        exists|i: int|
            0 <= i < self.spec_nodes().len() && (#[trigger] self.spec_nodes()[i]).spec_frame_id()
                == frame_id
    }

    pub fn new(num_of_frames: usize, k: usize) -> (r: LruKReplacer)
        requires
            k >= 1,
        ensures
            r.wf(),
            r.spec_k() == k,
            r.spec_num_frames() == num_of_frames,
            r.spec_nodes().len() == 0,
            r.spec_clock() == 0,
    {
        LruKReplacer { num_of_frames, k, clock: 0, node_store: Vec::new() }
    }

    /// Find the index of the node tracking `frame_id`, if any.
    fn find(&self, frame_id: usize) -> (r: Option<usize>)
        requires
            self.wf(),
        ensures
            match r {
                Some(i) => i < self.spec_nodes().len() && self.spec_nodes()[
                    i as int
                ].spec_frame_id() == frame_id,
                None => !self.has_node(frame_id),
            },
    {
        let mut i: usize = 0;
        let n = self.node_store.len();
        while i < n
            invariant
                i <= n,
                n == self.spec_nodes().len(),
                self.wf(),
                forall|j: int|
                    0 <= j < i ==> (#[trigger] self.spec_nodes()[j]).spec_frame_id() != frame_id,
            decreases n - i,
        {
            if self.node_store[i].frame_id == frame_id {
                return Some(i);
            }
            i = i + 1;
        }
        None
    }

    /// Pick the eviction victim: the evictable frame with the largest
    /// backward k-distance, ties broken by the smallest most-recent
    /// access, remaining ties by store order. Returns nothing when no
    /// frame is evictable. The victim stays tracked; the caller decides
    /// what happens to it.
    pub fn evict(&self) -> (r: Option<usize>)
        requires
            self.wf(),
        ensures
            r == evict_result(self.spec_nodes()),
            r is None <==> count_evictable(self.spec_nodes()) == 0,
            r matches Some(f) ==> self.has_node(f) && exists|i: int|
                0 <= i < self.spec_nodes().len() && (#[trigger] self.spec_nodes()[i]).spec_frame_id()
                    == f && self.spec_nodes()[i].spec_evictable(),
    {
        let ghost s = self.spec_nodes();
        let mut best: Option<usize> = None;
        let mut i: usize = 0;
        let n = self.node_store.len();
        while i < n
            invariant
                i <= n,
                n == s.len(),
                s == self.spec_nodes(),
                self.wf(),
                match best {
                    None => evict_best(s.take(i as int)) is None,
                    Some(b) => b < i && evict_best(s.take(i as int)) == Some(b as int),
                },
            decreases n - i,
        {
            proof {
                assert(s.take(i + 1).drop_last() =~= s.take(i as int));
                assert(s.take(i + 1).last() == s[i as int]);
            }
            if self.node_store[i].get_is_evictable() {
                match best {
                    None => {
                        best = Some(i);
                    },
                    Some(b) => {
                        if better_exec(&self.node_store[i], &self.node_store[b]) {
                            best = Some(i);
                        }
                    },
                }
            }
            i = i + 1;
        }
        proof {
            assert(s.take(n as int) =~= s);
            lemma_evict_best(s);
            lemma_count_evictable_zero(s);
        }
        match best {
            None => None,
            Some(b) => Some(self.node_store[b].frame_id),
        }
    }

    /// Record an access to `frame_id` now: a new node with one sample
    /// appears if the frame is unknown, otherwise its history gains a
    /// fresh timestamp: the next value of the replacer's clock, which
    /// exceeds every timestamp recorded before it.
    pub fn record_access(&mut self, frame_id: usize, _access_type: AccessType)
        requires
            old(self).wf(),
        ensures
            final(self).wf(),
            final(self).spec_k() == old(self).spec_k(),
            final(self).spec_num_frames() == old(self).spec_num_frames(),
            final(self).spec_clock() == tick(old(self).spec_clock()),
            old(self).has_node(frame_id) ==> {
                &&& final(self).spec_nodes().len() == old(self).spec_nodes().len()
                &&& forall|j: int|
                    0 <= j < old(self).spec_nodes().len() && (#[trigger] old(
                        self,
                    ).spec_nodes()[j]).spec_frame_id() != frame_id ==> final(self).spec_nodes()[j]
                        == old(self).spec_nodes()[j]
                &&& forall|j: int|
                    0 <= j < old(self).spec_nodes().len() && (#[trigger] old(
                        self,
                    ).spec_nodes()[j]).spec_frame_id() == frame_id ==> {
                        let nw = final(self).spec_nodes()[j];
                        let od = old(self).spec_nodes()[j];
                        &&& nw.spec_frame_id() == frame_id
                        &&& nw.spec_evictable() == od.spec_evictable()
                        &&& nw.spec_k() == od.spec_k()
                        &&& nw.spec_history().len() == (if od.spec_history().len()
                            < od.spec_k() {
                            od.spec_history().len() + 1
                        } else {
                            od.spec_k() + 0
                        })
                        &&& nw.spec_history()[0] == tick(old(self).spec_clock())
                        &&& nw.spec_history().drop_first() == od.spec_history().take(
                            nw.spec_history().len() - 1,
                        )
                    }
            },
            !old(self).has_node(frame_id) ==> {
                &&& final(self).spec_nodes().len() == old(self).spec_nodes().len() + 1
                &&& forall|j: int|
                    0 <= j < old(self).spec_nodes().len() ==> final(self).spec_nodes()[j] == old(
                        self,
                    ).spec_nodes()[j]
                &&& {
                    let nw = final(self).spec_nodes().last();
                    nw.spec_frame_id() == frame_id && !nw.spec_evictable() && nw.spec_k() == old(
                        self,
                    ).spec_k() && nw.spec_history() == seq![tick(old(self).spec_clock())]
                        && nw.has_infinite_distance() == (old(self).spec_k() > 1)
                }
            },
            final(self).has_node(frame_id),
            forall|f: usize|
                final(self).has_node(f) == (old(self).has_node(f) || f == frame_id),
    {
        let ts = if self.clock < u128::MAX {
            self.clock + 1
        } else {
            self.clock
        };
        self.clock = ts;
        let ghost pre_find = *self;
        let found = self.find(frame_id);
        match found {
            Some(i) => {
                let mut node = self.node_store.remove(i);
                let ghost oh = node.spec_history();
                node.history.insert(0, ts);
                if node.history.len() > node.k {
                    node.history.pop();
                    proof {
                        assert(node.spec_history() =~= seq![ts] + oh.take(oh.len() - 1));
                        assert(node.spec_history().drop_first() =~= oh.take(
                            node.spec_history().len() - 1,
                        ));
                    }
                } else {
                    proof {
                        assert(node.spec_history() =~= seq![ts] + oh);
                        assert(node.spec_history().drop_first() =~= oh.take(
                            node.spec_history().len() - 1,
                        ));
                    }
                }
                proof {
                    assert(node.spec_history()[0] == ts);
                    assert(node.wf());
                }
                self.node_store.insert(i, node);
                proof {
                    assert(self.spec_nodes() =~= old(self).spec_nodes().update(
                        i as int,
                        self.spec_nodes()[i as int],
                    ));
                    let nw = self.spec_nodes()[i as int];
                    let od = old(self).spec_nodes()[i as int];
                    assert(nw.spec_history()[0] == tick(old(self).spec_clock()));
                    assert(nw.spec_history().len() == (if od.spec_history().len() < od.spec_k() {
                        od.spec_history().len() + 1
                    } else {
                        od.spec_k() + 0
                    }));
                    assert(nw.spec_history().drop_first() == od.spec_history().take(
                        nw.spec_history().len() - 1,
                    ));
                    assert(nw.wf());
                    assert(self.wf());
                    assert(self.spec_nodes()[i as int].spec_frame_id() == frame_id);
                    assert forall|f: usize| self.has_node(f) implies (old(self).has_node(f) || f
                        == frame_id) by {
                        let j = choose|j: int|
                            0 <= j < self.spec_nodes().len() && (#[trigger] self.spec_nodes()[j]).spec_frame_id()
                                == f;
                        if j != i as int {
                            assert(old(self).spec_nodes()[j].spec_frame_id() == f);
                        }
                    }
                    assert forall|f: usize| (old(self).has_node(f) || f == frame_id) implies
                        self.has_node(f) by {
                        if f == frame_id {
                            assert(self.spec_nodes()[i as int].spec_frame_id() == f);
                        } else {
                            let j = choose|j: int|
                                0 <= j < old(self).spec_nodes().len() && (#[trigger] old(
                                    self,
                                ).spec_nodes()[j]).spec_frame_id() == f;
                            assert(self.spec_nodes()[j].spec_frame_id() == f);
                        }
                    }
                }
            },
            None => {
                let mut history: Vec<u128> = Vec::new();
                history.push(ts);
                let node = LruKNode { k: self.k, frame_id, history, is_evictable: false };
                self.node_store.push(node);
                proof {
                    assert(self.spec_nodes().last().spec_history() =~= seq![
                        tick(old(self).spec_clock()),
                    ]);
                    assert(self.spec_nodes().last().spec_frame_id() == frame_id);
                    assert(self.spec_nodes().last().wf());
                    assert(self.spec_nodes().last().spec_k() == old(self).spec_k());
                    assert(!self.spec_nodes().last().spec_evictable());
                    assert(self.spec_nodes().last().has_infinite_distance() == (old(
                        self,
                    ).spec_k() > 1));
                    assert forall|t: int|
                        0 <= t < old(self).spec_nodes().len() implies (#[trigger] old(
                        self,
                    ).spec_nodes()[t]).spec_frame_id() != frame_id by {
                        if old(self).spec_nodes()[t].spec_frame_id() == frame_id {
                            assert(pre_find.spec_nodes()[t].spec_frame_id() == frame_id);
                            assert(pre_find.has_node(frame_id));
                            assert(false);
                        }
                    }
                    assert(self.wf());
                    assert forall|f: usize| old(self).has_node(f) implies self.has_node(f) by {
                        let j = choose|j: int|
                            0 <= j < old(self).spec_nodes().len() && (#[trigger] old(
                                self,
                            ).spec_nodes()[j]).spec_frame_id() == f;
                        assert(self.spec_nodes()[j].spec_frame_id() == f);
                    }
                    assert forall|f: usize| self.has_node(f) implies (old(self).has_node(f) || f
                        == frame_id) by {
                        let j = choose|j: int|
                            0 <= j < self.spec_nodes().len() && (#[trigger] self.spec_nodes()[j]).spec_frame_id()
                                == f;
                        if j < old(self).spec_nodes().len() {
                            assert(old(self).spec_nodes()[j].spec_frame_id() == f);
                        }
                    }
                }
            },
        }
    }

    /// Forget the node tracking `frame_id`, if any.
    pub fn remove(&mut self, frame_id: usize)
        requires
            old(self).wf(),
        ensures
            final(self).wf(),
            final(self).spec_k() == old(self).spec_k(),
            final(self).spec_num_frames() == old(self).spec_num_frames(),
            final(self).spec_clock() == old(self).spec_clock(),
            !final(self).has_node(frame_id),
            old(self).has_node(frame_id) ==> exists|i: int|
                0 <= i < old(self).spec_nodes().len() && (#[trigger] old(
                    self,
                ).spec_nodes()[i]).spec_frame_id() == frame_id && final(self).spec_nodes() == old(
                    self,
                ).spec_nodes().remove(i),
            !old(self).has_node(frame_id) ==> final(self).spec_nodes() == old(self).spec_nodes(),
            forall|f: usize|
                f != frame_id ==> final(self).has_node(f) == old(self).has_node(f),
    {
        let found = self.find(frame_id);
        match found {
            Some(i) => {
                self.node_store.remove(i);
                proof {
                    let od = old(self).spec_nodes();
                    assert(forall|j: int|
                        0 <= j < self.spec_nodes().len() ==> self.spec_nodes()[j] == (if j < i {
                            od[j]
                        } else {
                            od[j + 1]
                        }));
                    assert(forall|f: usize| #![auto]
                        f != frame_id && old(self).has_node(f) ==> self.has_node(f)) by {
                        assert forall|f: usize|
                            f != frame_id && old(self).has_node(f) implies self.has_node(
                            f,
                        ) by {
                            let j = choose|j: int|
                                0 <= j < od.len() && (#[trigger] od[j]).spec_frame_id() == f;
                            if j < i {
                                assert(self.spec_nodes()[j].spec_frame_id() == f);
                            } else {
                                assert(self.spec_nodes()[j - 1].spec_frame_id() == f);
                            }
                        }
                    }
                }
            },
            None => {},
        }
    }

    /// Mark the node tracking `frame_id` evictable or not; unknown
    /// frames are silently ignored.
    pub fn set_evictable(&mut self, frame_id: usize, is_evictable: bool)
        requires
            old(self).wf(),
        ensures
            final(self).wf(),
            final(self).spec_k() == old(self).spec_k(),
            final(self).spec_num_frames() == old(self).spec_num_frames(),
            final(self).spec_clock() == old(self).spec_clock(),
            final(self).spec_nodes().len() == old(self).spec_nodes().len(),
            forall|j: int|
                0 <= j < old(self).spec_nodes().len() && (#[trigger] old(
                    self,
                ).spec_nodes()[j]).spec_frame_id() != frame_id ==> final(self).spec_nodes()[j]
                    == old(self).spec_nodes()[j],
            forall|j: int|
                0 <= j < old(self).spec_nodes().len() && (#[trigger] old(
                    self,
                ).spec_nodes()[j]).spec_frame_id() == frame_id ==> {
                    let nw = final(self).spec_nodes()[j];
                    let od = old(self).spec_nodes()[j];
                    nw.spec_frame_id() == od.spec_frame_id() && nw.spec_evictable() == is_evictable
                        && nw.spec_k() == od.spec_k() && nw.spec_history() == od.spec_history()
                },
            forall|f: usize| final(self).has_node(f) == old(self).has_node(f),
    {
        let found = self.find(frame_id);
        match found {
            Some(i) => {
                let mut node = self.node_store.remove(i);
                node.is_evictable = is_evictable;
                self.node_store.insert(i, node);
                proof {
                    assert(self.spec_nodes() =~= old(self).spec_nodes().update(
                        i as int,
                        self.spec_nodes()[i as int],
                    ));
                    assert(forall|j: int|
                        0 <= j < old(self).spec_nodes().len() ==> (#[trigger] self.spec_nodes()[j]).spec_frame_id()
                            == old(self).spec_nodes()[j].spec_frame_id());
                    assert forall|f: usize| self.has_node(f) implies old(self).has_node(f) by {
                        let j = choose|j: int|
                            0 <= j < self.spec_nodes().len() && (#[trigger] self.spec_nodes()[j]).spec_frame_id()
                                == f;
                        assert(old(self).spec_nodes()[j].spec_frame_id() == f);
                    }
                    assert forall|f: usize| old(self).has_node(f) implies self.has_node(f) by {
                        let j = choose|j: int|
                            0 <= j < old(self).spec_nodes().len() && (#[trigger] old(
                                self,
                            ).spec_nodes()[j]).spec_frame_id() == f;
                        assert(self.spec_nodes()[j].spec_frame_id() == f);
                    }
                }
            },
            None => {},
        }
    }

    /// Number of evictable nodes.
    pub fn size(&self) -> (r: usize)
        requires
            self.wf(),
        ensures
            r == count_evictable(self.spec_nodes()),
    {
        let ghost s = self.spec_nodes();
        let mut count: usize = 0;
        let mut i: usize = 0;
        let n = self.node_store.len();
        while i < n
            invariant
                i <= n,
                n == s.len(),
                s == self.spec_nodes(),
                count == count_evictable(s.take(i as int)),
                count <= i,
            decreases n - i,
        {
            proof {
                assert(s.take(i + 1).drop_last() =~= s.take(i as int));
                assert(s.take(i + 1).last() == s[i as int]);
            }
            if self.node_store[i].get_is_evictable() {
                count = count + 1;
            }
            i = i + 1;
        }
        proof {
            assert(s.take(n as int) =~= s);
        }
        count
    }
}

/// Strict comparison of two nodes under the eviction preference order.
fn better_exec(a: &LruKNode, b: &LruKNode) -> (r: bool)
    requires
        a.wf(),
        b.wf(),
    ensures
        r == better_victim(*a, *b),
{
    let a_inf = a.history.len() < a.k;
    let b_inf = b.history.len() < b.k;
    if a_inf && !b_inf {
        true
    } else if !a_inf && b_inf {
        false
    } else if a_inf && b_inf {
        a.history[0] < b.history[0]
    } else {
        let a_kth = a.history[a.history.len() - 1];
        let b_kth = b.history[b.history.len() - 1];
        a_kth < b_kth || (a_kth == b_kth && a.history[0] < b.history[0])
    }
}

/// A store has no evictable node exactly when the eviction rule finds
/// no victim in it.
pub proof fn lemma_count_evictable_zero(s: Seq<LruKNode>)
    ensures
        (count_evictable(s) == 0) <==> (evict_best(s) is None),
    decreases s.len(),
{
    if s.len() > 0 {
        lemma_count_evictable_zero(s.drop_last());
    }
}

/// Eviction monotonicity: while every node tracking frame `f` is
/// marked non-evictable, no eviction returns `f`.
pub proof fn lemma_non_evictable_not_evicted(r: LruKReplacer, f: usize)
    requires
        r.wf(),
        forall|i: int|
            0 <= i < r.spec_nodes().len() && (#[trigger] r.spec_nodes()[i]).spec_frame_id() == f
                ==> !r.spec_nodes()[i].spec_evictable(),
    ensures
        evict_result(r.spec_nodes()) != Some(f),
{
    lemma_evict_best(r.spec_nodes());
}

} // verus!
