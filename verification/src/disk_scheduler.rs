//! Disk request scheduler.
//!
//! Requests against the same page id are served strictly in submission
//! order, and at most one request per page id is in flight at a time;
//! requests against distinct page ids are independent. The scheduler
//! keeps a queue of pending requests per page id, a set of page ids
//! currently being processed, and logs of submissions and completions
//! through which the per-page ordering guarantee is stated.

use vstd::prelude::*;

use crate::disk_manager::DiskManager;
use crate::disk_manager::copy_bytes;
use crate::disk_manager::disk_read_spec;

verus! {

/// One disk request: a read of or a write to page `page_id`. For a
/// write, `data` holds the bytes to store; for a read it is empty.
pub struct DiskRequest {
    pub is_write: bool,
    pub page_id: u64,
    pub data: Vec<u8>,
    pub request_id: u64,
}

/// Requests queued for page `p`, oldest first: the first entry of the
/// association list whose key is `p`.
pub open spec fn pending_in(s: Seq<(u64, Vec<DiskRequest>)>, p: u64) -> Seq<DiskRequest>
    decreases s.len(),
{
    if s.len() == 0 {
        Seq::empty()
    } else if s[0].0 == p {
        s[0].1@
    } else {
        pending_in(s.drop_first(), p)
    }
}

/// Pending queues per page id, plus the set of page ids whose head
/// request is being processed right now.
pub struct DiskRequestQueue {
    queues: Vec<(u64, Vec<DiskRequest>)>,
    in_processing_ids: Vec<u64>,
}

impl DiskRequestQueue {
    pub closed spec fn spec_queues(self) -> Seq<(u64, Vec<DiskRequest>)> {
        self.queues@
    }

    /// Requests pending against page `p`, oldest first.
    pub open spec fn pending(self, p: u64) -> Seq<DiskRequest> {
        pending_in(self.spec_queues(), p)
    }

    /// Whether a request against page `p` is being processed.
    pub closed spec fn is_processing(self, p: u64) -> bool {
        self.in_processing_ids@.contains(p)
    }

    pub closed spec fn wf(self) -> bool {
        &&& forall|i: int, j: int|
            0 <= i < j < self.queues@.len() ==> (#[trigger] self.queues@[i]).0 != (
            #[trigger] self.queues@[j]).0
        &&& forall|i: int, j: int|
            0 <= i < self.queues@.len() && 0 <= j < self.queues@[i].1@.len() ==> (
            #[trigger] self.queues@[i].1@[j]).page_id == self.queues@[i].0
        &&& forall|i: int|
            0 <= i < self.queues@.len() ==> (#[trigger] self.queues@[i]).1@.len() > 0
                || self.is_processing(self.queues@[i].0)
        &&& forall|i: int, j: int|
            0 <= i < j < self.in_processing_ids@.len() ==> self.in_processing_ids@[i]
                != self.in_processing_ids@[j]
    }

    pub fn new() -> (r: DiskRequestQueue)
        ensures
            r.wf(),
            forall|p: u64| r.pending(p) == Seq::<DiskRequest>::empty(),
            forall|p: u64| !r.is_processing(p),
    {
        let r = DiskRequestQueue { queues: Vec::new(), in_processing_ids: Vec::new() };
        proof {
            assert(forall|p: u64| r.pending(p) =~= Seq::<DiskRequest>::empty());
        }
        r
    }

    /// Append a request to the queue of its page id.
    pub fn push(&mut self, disk_request: DiskRequest)
        requires
            old(self).wf(),
        ensures
            final(self).wf(),
            final(self).pending(disk_request.page_id) == old(self).pending(
                disk_request.page_id,
            ).push(disk_request),
            forall|q: u64|
                q != disk_request.page_id ==> final(self).pending(q) == old(self).pending(q),
            forall|q: u64| final(self).is_processing(q) == old(self).is_processing(q),
    {
        let p = disk_request.page_id;
        let mut i: usize = 0;
        let n = self.queues.len();
        while i < n
            invariant
                i <= n,
                n == self.queues@.len(),
                self == old(self),
                old(self).wf(),
                p == disk_request.page_id,
                forall|j: int| 0 <= j < i ==> (#[trigger] self.queues@[j]).0 != p,
            decreases n - i,
        {
            if self.queues[i].0 == p {
                let mut entry = self.queues.remove(i);
                proof {
                    assert(entry == old(self).queues@[i as int]);
                }
                entry.1.push(disk_request);
                let ghost ge = entry;
                proof {
                    assert(ge.1@ == old(self).queues@[i as int].1@.push(disk_request));
                }
                self.queues.insert(i, entry);
                proof {
                    let s = old(self).queues@;
                    let t = self.queues@;
                    assert(t[i as int] == ge);
                    assert(t =~= s.update(i as int, t[i as int]));
                    assert(t[i as int].0 == p);
                    assert(t[i as int].1@ =~= s[i as int].1@.push(disk_request));
                    lemma_pending_update(s, i as int, t[i as int]);
                    lemma_pending_lookup(s, i as int);
                    assert forall|a: int, b: int|
                        0 <= a < t.len() && 0 <= b < t[a].1@.len() implies (
                    #[trigger] t[a].1@[b]).page_id == t[a].0 by {
                        if a == i as int {
                            assert(t[a].1@ == s[a].1@.push(disk_request));
                            if b == t[a].1@.len() - 1 {
                                assert(t[a].1@[b] == disk_request);
                            } else {
                                assert(t[a].1@[b] == s[a].1@[b]);
                                assert(s[a].1@[b].page_id == s[a].0);
                            }
                        } else {
                            assert(t[a] == s[a]);
                            assert(s[a].1@[b].page_id == s[a].0);
                        }
                    }
                }
                return ;
            }
            i = i + 1;
        }
        let mut reqs: Vec<DiskRequest> = Vec::new();
        reqs.push(disk_request);
        self.queues.push((p, reqs));
        proof {
            let s = old(self).queues@;
            let t = self.queues@;
            assert(t.last() == (p, reqs));
            assert(t.last().1@ =~= seq![disk_request]);
            lemma_pending_snoc(s, t.last());
            assert(t =~= s.push(t.last()));
            lemma_pending_absent(s, p);
            assert(self.pending(p) == reqs@);
            assert(self.pending(p) =~= old(self).pending(p).push(disk_request));
            assert forall|a: int, b: int|
                0 <= a < t.len() && 0 <= b < t[a].1@.len() implies (#[trigger] t[a].1@[b]).page_id
                == t[a].0 by {
                if a < s.len() {
                    assert(s[a].1@[b].page_id == s[a].0);
                }
            }
        }
    }

    /// Take the oldest request of some page id that is not already
    /// being processed, marking that page id as in processing. Returns
    /// nothing when every pending page id is busy.
    pub fn start_processing(&mut self) -> (r: Option<DiskRequest>)
        requires
            old(self).wf(),
        ensures
            final(self).wf(),
            r is None ==> *final(self) == *old(self) && forall|p: u64|
                old(self).pending(p).len() > 0 ==> old(self).is_processing(p),
            r matches Some(req) ==> {
                &&& !old(self).is_processing(req.page_id)
                &&& old(self).pending(req.page_id).len() > 0
                &&& req == old(self).pending(req.page_id)[0]
                &&& final(self).pending(req.page_id) == old(self).pending(
                    req.page_id,
                ).drop_first()
                &&& forall|q: u64|
                    q != req.page_id ==> final(self).pending(q) == old(self).pending(q)
                &&& forall|q: u64|
                    final(self).is_processing(q) == (old(self).is_processing(q) || q
                        == req.page_id)
            },
    {
        let mut i: usize = 0;
        let n = self.queues.len();
        while i < n
            invariant
                i <= n,
                n == self.queues@.len(),
                self == old(self),
                old(self).wf(),
                forall|j: int|
                    0 <= j < i ==> (#[trigger] self.queues@[j]).1@.len() == 0
                        || self.in_processing_ids@.contains(self.queues@[j].0),
            decreases n - i,
        {
            if self.queues[i].1.len() > 0 && !contains_id(&self.in_processing_ids, self.queues[i].0)
            {
                let p = self.queues[i].0;
                let mut entry = self.queues.remove(i);
                let req = entry.1.remove(0);
                self.queues.insert(i, entry);
                self.in_processing_ids.push(p);
                proof {
                    let s = old(self).queues@;
                    let t = self.queues@;
                    assert(t =~= s.update(i as int, t[i as int]));
                    assert(t[i as int].0 == p);
                    lemma_pending_update(s, i as int, t[i as int]);
                    lemma_pending_lookup(s, i as int);
                    assert(t[i as int].1@ =~= s[i as int].1@.drop_first());
                    assert(req == s[i as int].1@[0]);
                    assert(req.page_id == p);
                    assert(self.in_processing_ids@.last() == p);
                    assert(self.in_processing_ids@.contains(p));
                    assert forall|a: int, b: int|
                        0 <= a < t.len() && 0 <= b < t[a].1@.len() implies (
                    #[trigger] t[a].1@[b]).page_id == t[a].0 by {
                        if a == i as int {
                            assert(s[a].1@[b + 1].page_id == s[a].0);
                        } else {
                            assert(s[a].1@[b].page_id == s[a].0);
                        }
                    }
                    assert forall|q: u64|
                        self.is_processing(q) == (old(self).is_processing(q) || q == p) by {
                        let ips = old(self).in_processing_ids@;
                        assert(self.in_processing_ids@ =~= ips.push(p));
                        if q == p {
                            assert(self.in_processing_ids@[ips.len() as int] == p);
                        } else if old(self).is_processing(q) {
                            let w = choose|w: int| 0 <= w < ips.len() && ips[w] == q;
                            assert(self.in_processing_ids@[w] == q);
                        } else if self.is_processing(q) {
                            let w = choose|w: int|
                                0 <= w < self.in_processing_ids@.len()
                                    && self.in_processing_ids@[w] == q;
                            assert(w < ips.len() && ips[w] == q);
                        }
                    }
                }
                return Some(req);
            }
            i = i + 1;
        }
        proof {
            assert forall|p: u64| self.pending(p).len() > 0 implies self.is_processing(p) by {
                lemma_pending_nonempty_has_entry(self.queues@, p);
                let j = choose|j: int|
                    0 <= j < self.queues@.len() && (#[trigger] self.queues@[j]).0 == p;
                lemma_pending_lookup(self.queues@, j);
            }
        }
        None
    }

    /// Mark page `page_id` as no longer being processed, dropping its
    /// queue entry once empty.
    pub fn end_processing(&mut self, page_id: u64)
        requires
            old(self).wf(),
        ensures
            final(self).wf(),
            forall|q: u64| final(self).pending(q) == old(self).pending(q),
            forall|q: u64|
                final(self).is_processing(q) == (old(self).is_processing(q) && q != page_id),
    {
        let mut i: usize = 0;
        let n = self.in_processing_ids.len();
        while i < n
            invariant
                i <= n,
                n == self.in_processing_ids@.len(),
                self == old(self),
                old(self).wf(),
                forall|j: int| 0 <= j < i ==> self.in_processing_ids@[j] != page_id,
            decreases n - i,
        {
            if self.in_processing_ids[i] == page_id {
                self.in_processing_ids.remove(i);
                proof {
                    let ips = old(self).in_processing_ids@;
                    assert forall|q: u64|
                        self.is_processing(q) == (old(self).is_processing(q) && q != page_id) by {
                        if self.is_processing(q) {
                            let w = choose|w: int|
                                0 <= w < self.in_processing_ids@.len()
                                    && self.in_processing_ids@[w] == q;
                            if w < i {
                                assert(ips[w] == q);
                            } else {
                                assert(ips[w + 1] == q);
                            }
                        }
                        if old(self).is_processing(q) && q != page_id {
                            let w = choose|w: int| 0 <= w < ips.len() && ips[w] == q;
                            if w < i {
                                assert(self.in_processing_ids@[w] == q);
                            } else {
                                assert(w != i);
                                assert(self.in_processing_ids@[w - 1] == q);
                            }
                        }
                    }
                }
                self.drop_empty_entry(page_id);
                return ;
            }
            i = i + 1;
        }
        proof {
            assert forall|q: u64|
                self.is_processing(q) == (old(self).is_processing(q) && q != page_id) by {
                if self.is_processing(q) && q == page_id {
                    let w = choose|w: int|
                        0 <= w < self.in_processing_ids@.len() && self.in_processing_ids@[w] == q;
                    assert(false);
                }
            }
        }
        self.drop_empty_entry(page_id);
    }

    /// Remove the queue entry of `page_id` if it exists and is empty.
    fn drop_empty_entry(&mut self, page_id: u64)
        requires
            forall|i: int, j: int|
                0 <= i < j < old(self).queues@.len() ==> (#[trigger] old(self).queues@[i]).0 != (
                #[trigger] old(self).queues@[j]).0,
            forall|i: int, j: int|
                0 <= i < old(self).queues@.len() && 0 <= j < old(self).queues@[i].1@.len() ==> (
                #[trigger] old(self).queues@[i].1@[j]).page_id == old(self).queues@[i].0,
            forall|i: int, j: int|
                0 <= i < j < old(self).in_processing_ids@.len() ==> old(
                    self,
                ).in_processing_ids@[i] != old(self).in_processing_ids@[j],
            forall|i: int|
                0 <= i < old(self).queues@.len() ==> (#[trigger] old(self).queues@[i]).1@.len() > 0
                    || old(self).is_processing(old(self).queues@[i].0) || old(
                    self,
                ).queues@[i].0 == page_id,
        ensures
            final(self).wf(),
            forall|q: u64| final(self).pending(q) == old(self).pending(q),
            forall|q: u64| final(self).is_processing(q) == old(self).is_processing(q),
    {
        let mut i: usize = 0;
        let n = self.queues.len();
        while i < n
            invariant
                i <= n,
                n == self.queues@.len(),
                self == old(self),
                forall|a: int, b: int|
                    0 <= a < b < old(self).queues@.len() ==> (#[trigger] old(self).queues@[a]).0
                        != (#[trigger] old(self).queues@[b]).0,
                forall|a: int, b: int|
                    0 <= a < old(self).queues@.len() && 0 <= b < old(self).queues@[a].1@.len()
                        ==> (#[trigger] old(self).queues@[a].1@[b]).page_id == old(
                        self,
                    ).queues@[a].0,
                forall|a: int, b: int|
                    0 <= a < b < old(self).in_processing_ids@.len() ==> old(
                        self,
                    ).in_processing_ids@[a] != old(self).in_processing_ids@[b],
                forall|a: int|
                    0 <= a < old(self).queues@.len() ==> (#[trigger] old(
                        self,
                    ).queues@[a]).1@.len() > 0 || old(self).is_processing(old(self).queues@[a].0)
                        || old(self).queues@[a].0 == page_id,
                forall|j: int| 0 <= j < i ==> (#[trigger] self.queues@[j]).0 != page_id,
            decreases n - i,
        {
            if self.queues[i].0 == page_id {
                if self.queues[i].1.len() == 0 {
                    self.queues.remove(i);
                    proof {
                        let s = old(self).queues@;
                        let t = self.queues@;
                        assert(forall|a: int, b: int|
                            0 <= a < b < s.len() ==> (#[trigger] s[a]).0 != (#[trigger] s[b]).0);
                        assert(s[i as int].1@.len() == 0);
                        lemma_pending_remove_empty(s, i as int);
                        assert(forall|j: int|
                            0 <= j < t.len() ==> #[trigger] t[j] == (if j < i as int {
                                s[j]
                            } else {
                                s[j + 1]
                            }));
                    }
                }
                return ;
            }
            i = i + 1;
        }
    }
}

/// Whether `v` holds `id`.
fn contains_id(v: &Vec<u64>, id: u64) -> (r: bool)
    ensures
        r == v@.contains(id),
{
    let mut i: usize = 0;
    let n = v.len();
    while i < n
        invariant
            i <= n,
            n == v@.len(),
            forall|j: int| 0 <= j < i ==> v@[j] != id,
        decreases n - i,
    {
        if v[i] == id {
            proof {
                assert(v@[i as int] == id);
            }
            return true;
        }
        i = i + 1;
    }
    proof {
        if v@.contains(id) {
            let w = choose|w: int| 0 <= w < v@.len() && v@[w] == id;
            assert(false);
        }
    }
    false
}

/// With distinct keys, the pending queue of the key at `i` is the
/// request vector at `i`.
proof fn lemma_pending_lookup(s: Seq<(u64, Vec<DiskRequest>)>, i: int)
    requires
        0 <= i < s.len(),
        forall|a: int, b: int|
            0 <= a < b < s.len() ==> (#[trigger] s[a]).0 != (#[trigger] s[b]).0,
    ensures
        pending_in(s, s[i].0) == s[i].1@,
    decreases s.len(),
{
    if i > 0 {
        assert(s[0].0 != s[i].0);
        assert(s.drop_first()[i - 1] == s[i]);
        lemma_pending_lookup(s.drop_first(), i - 1);
    }
}

/// A key occurring in no entry has an empty pending queue.
proof fn lemma_pending_absent(s: Seq<(u64, Vec<DiskRequest>)>, p: u64)
    requires
        forall|j: int| 0 <= j < s.len() ==> (#[trigger] s[j]).0 != p,
    ensures
        pending_in(s, p) == Seq::<DiskRequest>::empty(),
    decreases s.len(),
{
    if s.len() > 0 {
        lemma_pending_absent(s.drop_first(), p);
    }
}

/// A non-empty pending queue comes from some entry.
proof fn lemma_pending_nonempty_has_entry(s: Seq<(u64, Vec<DiskRequest>)>, p: u64)
    requires
        pending_in(s, p).len() > 0,
    ensures
        exists|j: int| 0 <= j < s.len() && (#[trigger] s[j]).0 == p,
    decreases s.len(),
{
    if s.len() > 0 && s[0].0 != p {
        lemma_pending_nonempty_has_entry(s.drop_first(), p);
        let j = choose|j: int| 0 <= j < s.drop_first().len() && (#[trigger] s.drop_first()[j]).0 == p;
        assert(s[j + 1].0 == p);
    }
}

/// Replacing the entry at `i` by one with the same key changes the
/// pending queue of that key alone.
proof fn lemma_pending_update(s: Seq<(u64, Vec<DiskRequest>)>, i: int, e: (u64, Vec<DiskRequest>))
    requires
        0 <= i < s.len(),
        e.0 == s[i].0,
        forall|a: int, b: int|
            0 <= a < b < s.len() ==> (#[trigger] s[a]).0 != (#[trigger] s[b]).0,
    ensures
        pending_in(s.update(i, e), e.0) == e.1@,
        forall|q: u64| q != e.0 ==> pending_in(s.update(i, e), q) == pending_in(s, q),
    decreases s.len(),
{
    let t = s.update(i, e);
    if i == 0 {
        assert(t[0] == e);
        assert(t.drop_first() =~= s.drop_first());
        assert forall|q: u64| q != e.0 implies pending_in(t, q) == pending_in(s, q) by {
            assert(pending_in(t, q) == pending_in(t.drop_first(), q));
            assert(pending_in(s, q) == pending_in(s.drop_first(), q));
        }
    } else {
        assert(t[0] == s[0]);
        assert(t.drop_first() =~= s.drop_first().update(i - 1, e));
        assert(forall|j: int| 0 <= j < s.drop_first().len() ==> s.drop_first()[j] == s[j + 1]);
        assert(s.drop_first()[i - 1] == s[i]);
        lemma_pending_update(s.drop_first(), i - 1, e);
        assert(s[0].0 != e.0);
        assert(pending_in(t, e.0) == pending_in(t.drop_first(), e.0));
        assert(pending_in(t, e.0) == e.1@);
        assert forall|q: u64| q != e.0 implies pending_in(t, q) == pending_in(s, q) by {
            if s[0].0 == q {
                assert(pending_in(t, q) == t[0].1@);
                assert(pending_in(s, q) == s[0].1@);
            } else {
                assert(pending_in(t, q) == pending_in(t.drop_first(), q));
                assert(pending_in(s, q) == pending_in(s.drop_first(), q));
            }
        }
    }
}

/// Appending an entry leaves every other key's pending queue alone.
proof fn lemma_pending_snoc(s: Seq<(u64, Vec<DiskRequest>)>, e: (u64, Vec<DiskRequest>))
    ensures
        forall|q: u64| q != e.0 ==> pending_in(s.push(e), q) == pending_in(s, q),
        (forall|j: int| 0 <= j < s.len() ==> (#[trigger] s[j]).0 != e.0) ==> pending_in(
            s.push(e),
            e.0,
        ) == e.1@,
    decreases s.len(),
{
    if s.len() == 0 {
        assert(s.push(e)[0] == e);
        assert(s.push(e).drop_first() =~= Seq::<(u64, Vec<DiskRequest>)>::empty());
        assert forall|q: u64| q != e.0 implies pending_in(s.push(e), q) == pending_in(s, q) by {
            assert(pending_in(s.push(e).drop_first(), q) =~= Seq::<DiskRequest>::empty());
            assert(pending_in(s, q) =~= Seq::<DiskRequest>::empty());
        }
    } else {
        assert(s.push(e)[0] == s[0]);
        assert(s.push(e).drop_first() =~= s.drop_first().push(e));
        lemma_pending_snoc(s.drop_first(), e);
        assert(forall|j: int| 0 <= j < s.drop_first().len() ==> s.drop_first()[j] == s[j + 1]);
        assert forall|q: u64| q != e.0 implies pending_in(s.push(e), q) == pending_in(s, q) by {
            if s[0].0 == q {
                assert(pending_in(s.push(e), q) == s[0].1@);
                assert(pending_in(s, q) == s[0].1@);
            } else {
                assert(pending_in(s.push(e), q) == pending_in(s.drop_first().push(e), q));
                assert(pending_in(s, q) == pending_in(s.drop_first(), q));
            }
        }
        if forall|j: int| 0 <= j < s.len() ==> (#[trigger] s[j]).0 != e.0 {
            assert(forall|j: int|
                0 <= j < s.drop_first().len() ==> (#[trigger] s.drop_first()[j]).0 != e.0);
            assert(pending_in(s.push(e), e.0) == pending_in(s.drop_first().push(e), e.0));
        }
    }
}

/// Removing an entry with an empty request vector leaves every pending
/// queue alone.
proof fn lemma_pending_remove_empty(s: Seq<(u64, Vec<DiskRequest>)>, i: int)
    requires
        0 <= i < s.len(),
        s[i].1@.len() == 0,
        forall|a: int, b: int|
            0 <= a < b < s.len() ==> (#[trigger] s[a]).0 != (#[trigger] s[b]).0,
    ensures
        forall|q: u64| pending_in(s.remove(i), q) == pending_in(s, q),
    decreases s.len(),
{
    let t = s.remove(i);
    assert(forall|j: int| 0 <= j < s.drop_first().len() ==> s.drop_first()[j] == s[j + 1]);
    if i == 0 {
        assert(t =~= s.drop_first());
        assert forall|q: u64| pending_in(t, q) == pending_in(s, q) by {
            if q == s[0].0 {
                assert(forall|j: int|
                    0 <= j < s.drop_first().len() ==> (#[trigger] s.drop_first()[j]).0 != q);
                lemma_pending_absent(s.drop_first(), q);
                assert(s[0].1@ =~= Seq::<DiskRequest>::empty());
            }
        }
    } else {
        assert(t[0] == s[0]);
        assert(t.drop_first() =~= s.drop_first().remove(i - 1));
        assert(s.drop_first()[i - 1] == s[i]);
        lemma_pending_remove_empty(s.drop_first(), i - 1);
        assert forall|q: u64| pending_in(t, q) == pending_in(s, q) by {
            if s[0].0 != q {
                assert(pending_in(t, q) == pending_in(t.drop_first(), q));
                assert(pending_in(s, q) == pending_in(s.drop_first(), q));
            }
        }
    }
}

/// Request ids logged against page `p`, in log order.
pub open spec fn ids_for(s: Seq<(u64, u64)>, p: u64) -> Seq<u64>
    decreases s.len(),
{
    if s.len() == 0 {
        Seq::empty()
    } else {
        ids_for(s.drop_last(), p) + (if s.last().0 == p {
            seq![s.last().1]
        } else {
            Seq::<u64>::empty()
        })
    }
}

/// Outcome of one served request, handed to whoever scheduled it: the
/// callback's payload. For a read, `data` holds the bytes read; for a
/// write, the bytes written.
pub struct CompletedRequest {
    pub request_id: u64,
    pub page_id: u64,
    pub is_write: bool,
    pub data: Vec<u8>,
}

/// The disk scheduler: accepts read and write requests, serves them
/// against the disk one at a time, serialising requests to the same
/// page id in submission order. The submission and completion logs
/// record, per page, which requests were handed in and which have been
/// served, and every completion log is a prefix of the matching
/// submission log.
pub struct DiskScheduler {
    queue: DiskRequestQueue,
    disk_manager: DiskManager,
    next_request_id: u64,
    submitted: Vec<(u64, u64)>,
    completions: Vec<(u64, u64)>,
}

impl DiskScheduler {
    pub closed spec fn spec_queue(self) -> DiskRequestQueue {
        self.queue
    }

    /// Requests pending against page `p`, oldest first.
    pub open spec fn pending(self, p: u64) -> Seq<DiskRequest> {
        self.spec_queue().pending(p)
    }

    /// The disk contents as the scheduler has written them.
    pub closed spec fn disk(self) -> Map<u64, Seq<u8>> {
        self.disk_manager.contents()
    }

    pub closed spec fn spec_submitted(self) -> Seq<(u64, u64)> {
        self.submitted@
    }

    pub closed spec fn spec_completions(self) -> Seq<(u64, u64)> {
        self.completions@
    }

    pub closed spec fn spec_next_request_id(self) -> u64 {
        self.next_request_id
    }

    /// Ids of the requests submitted against page `p`, oldest first.
    pub open spec fn submitted_for(self, p: u64) -> Seq<u64> {
        ids_for(self.spec_submitted(), p)
    }

    /// Ids of the requests completed against page `p`, oldest first.
    pub open spec fn completed_for(self, p: u64) -> Seq<u64> {
        ids_for(self.spec_completions(), p)
    }

    /// Ids of the requests still pending against page `p`.
    pub open spec fn pending_ids(self, p: u64) -> Seq<u64> {
        self.pending(p).map_values(|r: DiskRequest| r.request_id)
    }

    pub open spec fn wf(self) -> bool {
        &&& self.spec_queue().wf()
        &&& self.spec_disk_wf()
        &&& forall|p: u64| !(#[trigger] self.spec_queue().is_processing(p))
        &&& forall|p: u64|
            #[trigger] self.submitted_for(p) == self.completed_for(p) + self.pending_ids(p)
    }

    pub closed spec fn spec_disk_wf(self) -> bool {
        self.disk_manager.wf()
    }

    pub fn new(disk_manager: DiskManager) -> (r: DiskScheduler)
        requires
            disk_manager.wf(),
        ensures
            r.wf(),
            r.disk() == disk_manager.contents(),
            forall|p: u64| #[trigger] r.pending(p) == Seq::<DiskRequest>::empty(),
            r.spec_submitted() == Seq::<(u64, u64)>::empty(),
            r.spec_completions() == Seq::<(u64, u64)>::empty(),
            r.spec_next_request_id() == 0,
    {
        let r = DiskScheduler {
            queue: DiskRequestQueue::new(),
            disk_manager,
            next_request_id: 0,
            submitted: Vec::new(),
            completions: Vec::new(),
        };
        proof {
            assert forall|p: u64|
                #[trigger] r.submitted_for(p) == r.completed_for(p) + r.pending_ids(p) by {
                assert(r.pending_ids(p) =~= Seq::<u64>::empty());
                assert(r.submitted_for(p) =~= r.completed_for(p) + r.pending_ids(p));
            }
        }
        r
    }

    /// Queue a read of page `page_id`; the returned request id names it
    /// in the logs and in the completion handed back later.
    pub fn schedule_read(&mut self, page_id: u64) -> (rid: u64)
        requires
            old(self).wf(),
        ensures
            final(self).wf(),
            rid == old(self).spec_next_request_id(),
            final(self).pending(page_id).len() == old(self).pending(page_id).len() + 1,
            final(self).pending(page_id) == old(self).pending(page_id).push(
                final(self).pending(page_id).last(),
            ),
            final(self).pending(page_id).last().is_write == false,
            final(self).pending(page_id).last().page_id == page_id,
            final(self).pending(page_id).last().request_id == rid,
            forall|q: u64| q != page_id ==> final(self).pending(q) == old(self).pending(q),
            final(self).spec_submitted() == old(self).spec_submitted().push((page_id, rid)),
            final(self).spec_completions() == old(self).spec_completions(),
            final(self).disk() == old(self).disk(),
    {
        let rid = self.next_request_id;
        self.next_request_id = self.next_request_id.wrapping_add(1);
        let request = DiskRequest { is_write: false, page_id, data: Vec::new(), request_id: rid };
        self.queue.push(request);
        self.submitted.push((page_id, rid));
        proof {
            self.lemma_schedule_wf(*old(self), page_id, rid);
        }
        rid
    }

    /// Queue a write of `data` to page `page_id`.
    pub fn schedule_write(&mut self, page_id: u64, data: Vec<u8>) -> (rid: u64)
        requires
            old(self).wf(),
        ensures
            final(self).wf(),
            rid == old(self).spec_next_request_id(),
            final(self).pending(page_id).len() == old(self).pending(page_id).len() + 1,
            final(self).pending(page_id) == old(self).pending(page_id).push(
                final(self).pending(page_id).last(),
            ),
            final(self).pending(page_id).last().is_write == true,
            final(self).pending(page_id).last().page_id == page_id,
            final(self).pending(page_id).last().request_id == rid,
            final(self).pending(page_id).last().data@ == data@,
            forall|q: u64| q != page_id ==> final(self).pending(q) == old(self).pending(q),
            final(self).spec_submitted() == old(self).spec_submitted().push((page_id, rid)),
            final(self).spec_completions() == old(self).spec_completions(),
            final(self).disk() == old(self).disk(),
    {
        let rid = self.next_request_id;
        self.next_request_id = self.next_request_id.wrapping_add(1);
        let request = DiskRequest { is_write: true, page_id, data, request_id: rid };
        self.queue.push(request);
        self.submitted.push((page_id, rid));
        proof {
            self.lemma_schedule_wf(*old(self), page_id, rid);
        }
        rid
    }

    /// The log bookkeeping shared by both scheduling paths.
    proof fn lemma_schedule_wf(&self, pre: DiskScheduler, page_id: u64, rid: u64)
        requires
            pre.wf(),
            self.spec_queue().wf(),
            self.pending(page_id) == pre.pending(page_id).push(
                self.pending(page_id).last(),
            ),
            self.pending(page_id).len() == pre.pending(page_id).len() + 1,
            self.pending(page_id).last().request_id == rid,
            forall|q: u64| q != page_id ==> self.pending(q) == pre.pending(q),
            forall|q: u64|
                self.spec_queue().is_processing(q) == pre.spec_queue().is_processing(q),
            self.spec_submitted() == pre.spec_submitted().push((page_id, rid)),
            self.spec_completions() == pre.spec_completions(),
            self.spec_disk_wf() == pre.spec_disk_wf(),
        ensures
            self.wf(),
    {
        assert forall|p: u64|
            #[trigger] self.submitted_for(p) == self.completed_for(p) + self.pending_ids(p) by {
            assert(pre.submitted_for(p) == pre.completed_for(p) + pre.pending_ids(p));
            assert(self.spec_submitted().drop_last() =~= pre.spec_submitted());
            if p == page_id {
                assert(self.pending_ids(p) =~= pre.pending_ids(p).push(rid));
                assert(self.submitted_for(p) =~= pre.submitted_for(p).push(rid));
                assert(self.completed_for(p) + self.pending_ids(p) =~= (pre.completed_for(p)
                    + pre.pending_ids(p)).push(rid));
            } else {
                assert(self.submitted_for(p) =~= pre.submitted_for(p));
                assert(self.pending_ids(p) =~= pre.pending_ids(p));
            }
        }
    }

    /// Serve one pending request, if any page id has one: take the
    /// oldest request of a free page id, perform it against the disk,
    /// and log the completion. Returns what the request's callback
    /// would carry.
    pub fn process_next(&mut self) -> (r: Option<CompletedRequest>)
        requires
            old(self).wf(),
        ensures
            final(self).wf(),
            r is None ==> *final(self) == *old(self) && forall|p: u64|
                old(self).pending(p).len() == 0,
            r matches Some(c) ==> {
                &&& old(self).pending(c.page_id).len() > 0
                &&& c.request_id == old(self).pending(c.page_id)[0].request_id
                &&& c.is_write == old(self).pending(c.page_id)[0].is_write
                &&& final(self).pending(c.page_id) == old(self).pending(c.page_id).drop_first()
                &&& forall|q: u64|
                    q != c.page_id ==> final(self).pending(q) == old(self).pending(q)
                &&& final(self).spec_completions() == old(self).spec_completions().push(
                    (c.page_id, c.request_id),
                )
                &&& final(self).spec_submitted() == old(self).spec_submitted()
                &&& (c.is_write ==> final(self).disk() == old(self).disk().insert(
                    c.page_id,
                    old(self).pending(c.page_id)[0].data@,
                ) && c.data@ == old(self).pending(c.page_id)[0].data@)
                &&& (!c.is_write ==> final(self).disk() == old(self).disk() && c.data@
                    == disk_read_spec(old(self).disk(), c.page_id))
            },
    {
        let started = self.queue.start_processing();
        match started {
            None => {
                proof {
                    assert forall|p: u64| self.pending(p).len() == 0 by {
                        if self.pending(p).len() > 0 {
                            assert(self.spec_queue().is_processing(p));
                        }
                    }
                }
                None
            },
            Some(req) => {
                let page_id = req.page_id;
                let rid = req.request_id;
                let is_write = req.is_write;
                let data = if is_write {
                    let d = copy_bytes(&req.data);
                    self.disk_manager.write_page(req.page_id, req.data);
                    d
                } else {
                    self.disk_manager.read_page(req.page_id)
                };
                self.completions.push((page_id, rid));
                self.queue.end_processing(page_id);
                proof {
                    let pre = *old(self);
                    assert forall|p: u64|
                        #[trigger] self.submitted_for(p) == self.completed_for(p)
                            + self.pending_ids(p) by {
                        assert(pre.submitted_for(p) == pre.completed_for(p) + pre.pending_ids(p));
                        assert(self.spec_completions().drop_last() =~= pre.spec_completions());
                        assert(self.submitted_for(p) =~= pre.submitted_for(p));
                        if p == page_id {
                            assert(self.completed_for(p) =~= pre.completed_for(p).push(rid));
                            assert(pre.pending_ids(p)[0] == rid);
                            assert(self.pending_ids(p) =~= pre.pending_ids(p).drop_first());
                            assert(pre.completed_for(p).push(rid) + pre.pending_ids(
                                p,
                            ).drop_first() =~= pre.completed_for(p) + pre.pending_ids(p));
                        } else {
                            assert(self.completed_for(p) =~= pre.completed_for(p));
                            assert(self.pending_ids(p) =~= pre.pending_ids(p));
                        }
                    }
                }
                Some(CompletedRequest { request_id: rid, page_id, is_write, data })
            },
        }
    }

    /// Write `data` to page `page_id` and wait for the write to be
    /// served, as a caller blocking on the request's callback does.
    /// Meaningful only while nothing else is queued.
    pub fn write_page_sync(&mut self, page_id: u64, data: Vec<u8>)
        requires
            old(self).wf(),
            forall|p: u64| old(self).pending(p).len() == 0,
        ensures
            final(self).wf(),
            forall|p: u64| final(self).pending(p).len() == 0,
            final(self).disk() == old(self).disk().insert(page_id, data@),
    {
        let ghost d = data@;
        self.schedule_write(page_id, data);
        let done = self.process_next();
        proof {
            assert(done is Some);
            let c = done.unwrap();
            assert(c.page_id == page_id);
            assert forall|p: u64| self.pending(p).len() == 0 by {
                if p != page_id {
                    assert(self.pending(p) == old(self).pending(p));
                }
            }
        }
    }

    /// Read page `page_id` and wait for the read to be served.
    /// Meaningful only while nothing else is queued.
    pub fn read_page_sync(&mut self, page_id: u64) -> (r: Vec<u8>)
        requires
            old(self).wf(),
            forall|p: u64| old(self).pending(p).len() == 0,
        ensures
            final(self).wf(),
            forall|p: u64| final(self).pending(p).len() == 0,
            final(self).disk() == old(self).disk(),
            r@ == disk_read_spec(old(self).disk(), page_id),
    {
        self.schedule_read(page_id);
        let done = self.process_next();
        proof {
            assert(done is Some);
            let c = done.unwrap();
            assert(c.page_id == page_id);
            assert forall|p: u64| self.pending(p).len() == 0 by {
                if p != page_id {
                    assert(self.pending(p) == old(self).pending(p));
                }
            }
        }
        match done {
            Some(c) => c.data,
            None => Vec::new(),
        }
    }

    /// The submission log: (page id, request id), oldest first.
    pub fn submitted_log(&self) -> (r: &Vec<(u64, u64)>)
        ensures
            r@ == self.spec_submitted(),
    {
        &self.submitted
    }

    /// The completion log: (page id, request id), oldest first.
    pub fn completions_log(&self) -> (r: &Vec<(u64, u64)>)
        ensures
            r@ == self.spec_completions(),
    {
        &self.completions
    }
}

/// Per-page FIFO ordering: the completions logged for any page are
/// exactly the oldest submissions for that page, in submission order.
/// In particular, of two writes scheduled on one page id, the one
/// scheduled first completes first.
pub proof fn lemma_per_page_fifo(s: DiskScheduler, p: u64)
    requires
        s.wf(),
    ensures
        s.completed_for(p) == s.submitted_for(p).take(s.completed_for(p).len() as int),
{
    assert(s.submitted_for(p) == s.completed_for(p) + s.pending_ids(p));
    assert(s.completed_for(p) =~= s.submitted_for(p).take(s.completed_for(p).len() as int));
}

} // verus!
