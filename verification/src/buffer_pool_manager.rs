//! Buffer pool manager: a bounded set of in-memory frames caching disk
//! pages.
//!
//! The pool tracks which page each frame holds through the page table,
//! keeps unoccupied frames on a free list, picks victims for reuse
//! through the LRU-K replacer, and moves page bytes between frames and
//! the disk through the disk scheduler. Its central model is
//! [`BufferPoolManager::page_bytes`]: the current bytes of every page,
//! whether they sit in a frame or on the disk; every operation says
//! how it moves that model.

use vstd::prelude::*;

use crate::disk_manager::DiskManager;
use crate::disk_manager::copy_bytes;
use crate::disk_manager::disk_read_spec;
use crate::disk_scheduler::DiskScheduler;
use crate::lru_k_replacer::AccessType;
use crate::lru_k_replacer::LruKReplacer;
use crate::lru_k_replacer::count_evictable;
use crate::lru_k_replacer::lemma_count_evictable_zero;
use crate::lru_k_replacer::lemma_evict_best;
use crate::page::PAGE_SIZE;
use crate::page::Page;
use crate::page::zero_page;
use crate::page_table::PageTable;
use crate::page_table::empty_page_table;
use crate::page_table::page_table_get;
use crate::page_table::page_table_insert;
use crate::page_table::page_table_new;
use crate::page_table::page_table_remove;
use crate::page_table::page_table_view;

verus! {

/// Errors the pool reports to its callers.
#[derive(Clone, Copy, Debug, PartialEq, Eq)]
pub enum BufferPoolError {
    /// The operation named a page that is not resident in the pool.
    PageNotInPool,
    /// The page could not be deleted because it is pinned.
    PagePinned,
}

/// Number of frames whose pin count is positive.
pub open spec fn count_pinned(s: Seq<Page>) -> nat
    decreases s.len(),
{
    if s.len() == 0 {
        0
    } else {
        count_pinned(s.drop_last()) + (if s.last().spec_pin_count() > 0 {
            1nat
        } else {
            0nat
        })
    }
}

pub struct BufferPoolManager {
    pages: Vec<Page>,
    free_list: Vec<usize>,
    replacer: LruKReplacer,
    disk_scheduler: DiskScheduler,
    pages_map: PageTable,
    next_page_id: u64,
}

impl BufferPoolManager {
    pub closed spec fn spec_frames(self) -> Seq<Page> {
        self.pages@
    }

    /// The page table: which frame holds which page.
    pub closed spec fn table(self) -> Map<u64, usize> {
        page_table_view(self.pages_map)
    }

    pub closed spec fn spec_free_list(self) -> Seq<usize> {
        self.free_list@
    }

    pub closed spec fn spec_replacer(self) -> LruKReplacer {
        self.replacer
    }

    /// Number of frames in the pool.
    pub open spec fn pool_size(self) -> nat {
        self.spec_frames().len()
    }

    /// Highest page id handed out so far; zero before any allocation.
    pub closed spec fn spec_next_page_id(self) -> u64 {
        self.next_page_id
    }

    pub closed spec fn spec_scheduler(self) -> DiskScheduler {
        self.disk_scheduler
    }

    /// The disk contents behind the pool.
    pub closed spec fn disk(self) -> Map<u64, Seq<u8>> {
        self.disk_scheduler.disk()
    }

    /// Whether page `pid` currently sits in a frame.
    pub open spec fn resident(self, pid: u64) -> bool {
        self.table().contains_key(pid)
    }

    /// The current bytes of page `pid`: those of its frame while it is
    /// resident, those on the disk otherwise.
    pub open spec fn page_bytes(self, pid: u64) -> Seq<u8> {
        if self.resident(pid) {
            self.spec_frames()[self.table()[pid] as int].spec_data()
        } else {
            disk_read_spec(self.disk(), pid)
        }
    }

    /// Outstanding pins on page `pid`; zero while it is not resident.
    pub open spec fn pin_of(self, pid: u64) -> u64 {
        if self.resident(pid) {
            self.spec_frames()[self.table()[pid] as int].spec_pin_count()
        } else {
            0
        }
    }

    /// Number of frames holding a pinned page.
    pub open spec fn num_pinned(self) -> nat {
        count_pinned(self.spec_frames())
    }

    pub open spec fn wf(self) -> bool {
        &&& self.spec_replacer().wf()
        &&& self.spec_replacer().spec_num_frames() == self.pool_size()
        &&& self.spec_scheduler().wf()
        &&& forall|p: u64| (#[trigger] self.spec_scheduler().pending(p)).len() == 0
        // Free frames hold no page, no pin, and are not dirty.
        &&& forall|i: int|
            0 <= i < self.spec_free_list().len() ==> {
                let f = #[trigger] self.spec_free_list()[i];
                &&& f < self.pool_size()
                &&& self.spec_frames()[f as int].spec_id() is None
                &&& self.spec_frames()[f as int].spec_pin_count() == 0
                &&& !self.spec_frames()[f as int].spec_dirty()
            }
        &&& forall|i: int, j: int|
            0 <= i < j < self.spec_free_list().len() ==> self.spec_free_list()[i]
                != self.spec_free_list()[j]
        // The table maps each resident page to the frame that holds it.
        &&& forall|pid: u64|
            #[trigger] self.table().contains_key(pid) ==> self.table()[pid] < self.pool_size()
                && self.spec_frames()[self.table()[pid] as int].spec_id() == Some(pid)
        // A frame holding a page is in the table; an empty frame is free.
        &&& forall|f: int|
            0 <= f < self.pool_size() ==> match (#[trigger] self.spec_frames()[f]).spec_id() {
                Some(pid) => self.table().contains_key(pid) && self.table()[pid] == f,
                None => self.spec_free_list().contains(f as usize),
            }
        // Replacer nodes track occupied frames only.
        &&& forall|i: int|
            0 <= i < self.spec_replacer().spec_nodes().len() ==> {
                let node = #[trigger] self.spec_replacer().spec_nodes()[i];
                &&& node.spec_frame_id() < self.pool_size()
                &&& self.spec_frames()[node.spec_frame_id() as int].spec_id() is Some
                &&& (node.spec_evictable() ==> self.spec_frames()[
                    node.spec_frame_id() as int
                ].spec_pin_count() == 0)
            }
        // Every occupied frame is tracked by the replacer.
        &&& forall|f: int|
            0 <= f < self.pool_size() && (#[trigger] self.spec_frames()[f]).spec_id() is Some
                ==> self.spec_replacer().has_node(f as usize)
        // An occupied, unpinned frame is backed by an evictable node.
        &&& forall|f: int|
            0 <= f < self.pool_size() && (#[trigger] self.spec_frames()[f]).spec_id() is Some
                && self.spec_frames()[f].spec_pin_count() == 0 ==> exists|i: int|
                0 <= i < self.spec_replacer().spec_nodes().len() && (
                #[trigger] self.spec_replacer().spec_nodes()[i]).spec_frame_id() == f
                    && self.spec_replacer().spec_nodes()[i].spec_evictable()
        // A clean resident frame agrees with the disk.
        &&& forall|pid: u64|
            #[trigger] self.table().contains_key(pid) ==> (!self.spec_frames()[
                self.table()[pid] as int
            ].spec_dirty() ==> self.spec_frames()[self.table()[pid] as int].spec_data()
                == disk_read_spec(self.disk(), pid))
        // Page ids come from the allocator: positive and bounded.
        &&& forall|pid: u64|
            #[trigger] self.table().contains_key(pid) ==> 1 <= pid <= self.spec_next_page_id()
        &&& forall|pid: u64|
            #[trigger] self.disk().contains_key(pid) ==> 1 <= pid <= self.spec_next_page_id()
    }

    pub fn new(disk_manager: DiskManager, pool_size: usize, replacer_k: usize) -> (r:
        BufferPoolManager)
        requires
            replacer_k >= 1,
            disk_manager.wf(),
            disk_manager.contents() == Map::<u64, Seq<u8>>::empty(),
        ensures
            r.wf(),
            r.pool_size() == pool_size,
            r.num_pinned() == 0,
            r.spec_next_page_id() == 0,
            forall|pid: u64| !(#[trigger] r.resident(pid)),
            forall|pid: u64| #[trigger] r.page_bytes(pid) == zero_page(),
    {
        let replacer = LruKReplacer::new(pool_size, replacer_k);
        let disk_scheduler = DiskScheduler::new(disk_manager);
        let pages_map = page_table_new();
        let mut pages: Vec<Page> = Vec::new();
        let mut free_list: Vec<usize> = Vec::new();
        let mut i: usize = 0;
        while i < pool_size
            invariant
                i <= pool_size,
                pages@.len() == i,
                free_list@.len() == i,
                forall|j: int| 0 <= j < i ==> #[trigger] free_list@[j] == j,
                forall|j: int|
                    0 <= j < i ==> (#[trigger] pages@[j]).spec_id() is None && pages@[
                        j
                    ].spec_pin_count() == 0 && !pages@[j].spec_dirty() && pages@[j].spec_data()
                        == zero_page(),
            decreases pool_size - i,
        {
            free_list.push(i);
            pages.push(Page::new());
            i = i + 1;
        }
        let r = BufferPoolManager {
            pages,
            free_list,
            replacer,
            disk_scheduler,
            pages_map,
            next_page_id: 0,
        };
        proof {
            assert(r.table() =~= empty_page_table());
            lemma_count_pinned_all_unpinned(r.spec_frames());
            assert forall|f: int|
                0 <= f < r.pool_size() && (#[trigger] r.spec_frames()[f]).spec_id() is None
                implies r.spec_free_list().contains(f as usize) by {
                assert(r.spec_free_list()[f] == f as usize);
            }
        }
        r
    }

    /// Make page `pid` resident: take a frame from the free list or
    /// evict a victim (writing it back first when dirty), load the
    /// page's bytes from the disk into the frame, install it in the
    /// page table, and pin it once. Fails exactly when every frame is
    /// pinned.
    #[verifier::rlimit(100)]
    fn install_page(&mut self, pid: u64) -> (r: Option<usize>)
        requires
            old(self).wf(),
            !old(self).resident(pid),
            1 <= pid <= old(self).spec_next_page_id(),
        ensures
            final(self).wf(),
            r is None ==> *final(self) == *old(self) && old(self).num_pinned() == old(self).pool_size(),
            r matches Some(f) ==> {
                &&& f < old(self).pool_size()
                &&& final(self).resident(pid)
                &&& final(self).table()[pid] == f
                &&& final(self).pin_of(pid) == 1
                &&& final(self).num_pinned() == old(self).num_pinned() + 1
                &&& forall|q: u64|
                    #[trigger] final(self).page_bytes(q) == old(self).page_bytes(q)
                &&& forall|q: u64| q != pid ==> final(self).pin_of(q) == old(self).pin_of(q)
                &&& forall|q: u64|
                    q != pid && old(self).pin_of(q) > 0 ==> final(self).resident(q)
                        && final(self).table()[q] == old(self).table()[q]
                &&& forall|q: u64|
                    q != pid && #[trigger] final(self).resident(q) ==> old(self).resident(q)
                        && final(self).table()[q] == old(self).table()[q]
                &&& final(self).pool_size() == old(self).pool_size()
                &&& final(self).spec_next_page_id() == old(self).spec_next_page_id()
            },
    {
        let pool_frames = self.pages.len();
        proof {
            assert(old(self).pool_size() == pool_frames);
        }
        let frame_opt: Option<usize>;
        if self.free_list.len() > 0 {
            frame_opt = self.free_list.pop();
        } else {
            frame_opt = self.replacer.evict();
        }
        let f = match frame_opt {
            None => {
                proof {
                    lemma_evict_best(self.spec_replacer().spec_nodes());
                    assert forall|g: int|
                        0 <= g < self.pool_size() implies (
                    #[trigger] self.spec_frames()[g]).spec_pin_count() > 0 by {
                        if self.spec_frames()[g].spec_pin_count() == 0 {
                            if self.spec_frames()[g].spec_id() is None {
                                assert(self.spec_free_list().contains(g as usize));
                                let w = choose|w: int|
                                    0 <= w < self.spec_free_list().len()
                                        && self.spec_free_list()[w] == g as usize;
                                assert(false);
                            } else {
                                let i = choose|i: int|
                                    0 <= i < self.spec_replacer().spec_nodes().len() && (
                                    #[trigger] self.spec_replacer().spec_nodes()[i]).spec_frame_id()
                                        == g && self.spec_replacer().spec_nodes()[
                                        i
                                    ].spec_evictable();
                                lemma_count_evictable_zero(self.spec_replacer().spec_nodes());
                                assert(false);
                            }
                        }
                    }
                    lemma_count_pinned_bounds(self.spec_frames());
                }
                return None;
            },
            Some(f) => f,
        };
        let ghost pre = *old(self);
        let ghost was_free = pre.spec_free_list().len() > 0;
        proof {
            if was_free {
                assert(f == pre.spec_free_list().last());
                assert(self.free_list@ == pre.spec_free_list().drop_last());
            } else {
                let i = choose|i: int|
                    0 <= i < pre.spec_replacer().spec_nodes().len() && (
                    #[trigger] pre.spec_replacer().spec_nodes()[i]).spec_frame_id() == f
                        && pre.spec_replacer().spec_nodes()[i].spec_evictable();
                assert(f < pre.pool_size());
                assert(pre.spec_frames()[f as int].spec_pin_count() == 0);
            }
            assert(f < pre.pool_size());
            assert(pre.spec_frames()[f as int].spec_pin_count() == 0);
        }
        let old_id = self.pages[f].get_id();
        let ghost victim: Option<u64> = old_id;
        proof {
            match victim {
                Some(v) => {
                    assert(pre.table().contains_key(v) && pre.table()[v] == f as int);
                    assert(v != pid);
                },
                None => {
                    assert(pre.spec_free_list().contains(f));
                },
            }
        }
        if let Some(victim_pid) = old_id {
            if self.pages[f].is_dirty() {
                let data = copy_bytes(self.pages[f].get_data());
                self.disk_scheduler.write_page_sync(victim_pid, data);
            }
            page_table_remove(&mut self.pages_map, victim_pid);
        }
        proof {
            // After the optional writeback, the disk agrees with the
            // victim frame's bytes, and no other page's disk bytes moved.
            match victim {
                Some(v) => {
                    assert(self.table() =~= pre.table().remove(v));
                    assert(disk_read_spec(self.disk(), v) == pre.spec_frames()[
                        f as int
                    ].spec_data());
                    assert(forall|q: u64|
                        q != v ==> disk_read_spec(#[trigger] self.disk(), q) == disk_read_spec(
                            pre.disk(),
                            q,
                        ));
                },
                None => {
                    assert(self.table() == pre.table());
                    assert(self.disk() == pre.disk());
                },
            }
        }
        let bytes = self.disk_scheduler.read_page_sync(pid);
        let mut frame = self.pages.remove(f);
        frame.reset();
        frame.set_id(pid);
        frame.set_data(bytes);
        frame.pin();
        self.pages.insert(f, frame);
        page_table_insert(&mut self.pages_map, pid, f);
        proof {
            assert(self.spec_frames() =~= pre.spec_frames().update(
                f as int,
                self.spec_frames()[f as int],
            ));
            assert(self.spec_frames()[f as int].spec_id() == Some(pid));
            assert(self.spec_frames()[f as int].spec_pin_count() == 1);
            assert(!self.spec_frames()[f as int].spec_dirty());
            lemma_count_pinned_update(
                pre.spec_frames(),
                f as int,
                self.spec_frames()[f as int],
            );
        }
        self.replacer.record_access(f, AccessType::Unknown);
        let ghost mid_nodes = self.spec_replacer().spec_nodes();
        self.replacer.set_evictable(f, false);
        proof {
            let post = *self;
            let frames = post.spec_frames();
            let nodes = post.spec_replacer().spec_nodes();
            let pre_nodes = pre.spec_replacer().spec_nodes();
            assert forall|i: int|
                0 <= i < nodes.len() && (#[trigger] nodes[i]).spec_frame_id() != f implies i
                < pre_nodes.len() && nodes[i] == pre_nodes[i] by {
                assert(nodes[i].spec_frame_id() == mid_nodes[i].spec_frame_id());
                assert(mid_nodes[i].spec_frame_id() != f);
                assert(nodes[i] == mid_nodes[i]);
                if pre.spec_replacer().has_node(f) {
                    if pre_nodes[i].spec_frame_id() == f {
                        assert(mid_nodes[i].spec_frame_id() == f);
                        assert(false);
                    }
                    assert(mid_nodes[i] == pre_nodes[i]);
                } else {
                    if i == pre_nodes.len() {
                        assert(mid_nodes[i].spec_frame_id() == f);
                        assert(false);
                    }
                    assert(mid_nodes[i] == pre_nodes[i]);
                }
            }
            assert forall|i: int|
                0 <= i < pre_nodes.len() && (#[trigger] pre_nodes[i]).spec_frame_id() != f
                implies i < nodes.len() && nodes[i] == pre_nodes[i] by {
                if pre.spec_replacer().has_node(f) {
                    assert(mid_nodes[i] == pre_nodes[i]);
                } else {
                    assert(mid_nodes[i] == pre_nodes[i]);
                }
                assert(mid_nodes[i].spec_frame_id() != f);
                assert(nodes[i] == mid_nodes[i]);
            }
            // The table is the old one, less the victim, plus `pid`.
            match victim {
                Some(v) => {
                    assert(post.table() =~= pre.table().remove(v).insert(pid, f));
                },
                None => {
                    assert(post.table() =~= pre.table().insert(pid, f));
                },
            }
            // Only frame `f` changed, and only the victim left the table.
            assert(forall|g: int|
                0 <= g < frames.len() && g != f as int ==> frames[g] == pre.spec_frames()[g]);
            assert forall|q: u64|
                q != pid && #[trigger] post.table().contains_key(q) implies pre.table().contains_key(
                q,
            ) && post.table()[q] == pre.table()[q] && post.table()[q] != f as int by {
                if post.table()[q] == f as int {
                    assert(pre.spec_frames()[f as int].spec_id() == Some(q));
                }
            }
            // Node bookkeeping: every node names an occupied frame,
            // and evictable nodes name unpinned frames.
            assert forall|i: int| 0 <= i < nodes.len() implies {
                let node = #[trigger] nodes[i];
                &&& node.spec_frame_id() < post.pool_size()
                &&& frames[node.spec_frame_id() as int].spec_id() is Some
                &&& (node.spec_evictable() ==> frames[node.spec_frame_id() as int].spec_pin_count()
                    == 0)
            } by {
                let node = nodes[i];
                if node.spec_frame_id() != f {
                    assert(node == pre_nodes[i]);
                    assert(frames[node.spec_frame_id() as int] == pre.spec_frames()[
                        node.spec_frame_id() as int
                    ]);
                } else {
                    assert(!node.spec_evictable());
                }
            }
            // Unpinned occupied frames still have evictable nodes.
            assert forall|g: int|
                0 <= g < post.pool_size() && (#[trigger] frames[g]).spec_id() is Some && frames[
                g
            ].spec_pin_count() == 0 implies exists|i: int|
                0 <= i < nodes.len() && (#[trigger] nodes[i]).spec_frame_id() == g && nodes[
                    i
                ].spec_evictable() by {
                assert(g != f as int);
                assert(pre.spec_frames()[g] == frames[g]);
                let i = choose|i: int|
                    0 <= i < pre_nodes.len() && (#[trigger] pre_nodes[i]).spec_frame_id() == g
                        && pre_nodes[i].spec_evictable();
                assert(nodes[i] == pre_nodes[i]);
                assert(nodes[i].spec_frame_id() == g && nodes[i].spec_evictable());
            }
            // Free-list entries survive and stay empty frames.
            assert forall|i: int|
                0 <= i < post.spec_free_list().len() implies {
                let fr = #[trigger] post.spec_free_list()[i];
                &&& fr < post.pool_size()
                &&& frames[fr as int].spec_id() is None
                &&& frames[fr as int].spec_pin_count() == 0
                &&& !frames[fr as int].spec_dirty()
            } by {
                if was_free {
                    assert(post.spec_free_list()[i] == pre.spec_free_list()[i]);
                    assert(pre.spec_free_list()[i] != pre.spec_free_list()[
                        pre.spec_free_list().len() - 1
                    ]);
                } else {
                    assert(post.spec_free_list().len() == 0);
                }
            }
            // Empty frames are still on the free list.
            assert forall|g: int|
                0 <= g < post.pool_size() && (#[trigger] frames[g]).spec_id() is None implies
                post.spec_free_list().contains(g as usize) by {
                assert(g != f as int);
                assert(pre.spec_frames()[g].spec_id() is None);
                assert(pre.spec_free_list().contains(g as usize));
                let w = choose|w: int|
                    0 <= w < pre.spec_free_list().len() && pre.spec_free_list()[w] == g as usize;
                if was_free {
                    assert(f == pre.spec_free_list().last());
                    assert(post.spec_free_list() == pre.spec_free_list().drop_last());
                    assert((g as usize) as int == g);
                    assert(g as usize != f);
                    assert(pre.spec_free_list()[w] != f);
                    assert(w < pre.spec_free_list().len() - 1);
                    assert(post.spec_free_list()[w] == g as usize);
                } else {
                    assert(pre.spec_free_list().len() == 0);
                    assert(false);
                }
            }
            // Every page's bytes are preserved.
            assert forall|q: u64| #[trigger] post.page_bytes(q) == pre.page_bytes(q) by {
                if q == pid {
                    assert(post.page_bytes(q) == frames[f as int].spec_data());
                } else {
                    match victim {
                        Some(v) => {
                            if q == v {
                                assert(!post.resident(q));
                                assert(disk_read_spec(post.disk(), q) == pre.spec_frames()[
                                    f as int
                                ].spec_data());
                            } else {
                                if post.resident(q) {
                                    assert(post.table()[q] != f as int);
                                } else {
                                    assert(disk_read_spec(post.disk(), q) == disk_read_spec(
                                        pre.disk(),
                                        q,
                                    ));
                                }
                            }
                        },
                        None => {
                            if post.resident(q) {
                                assert(post.table()[q] != f as int);
                            }
                        },
                    }
                }
            }
            // A clean resident frame still agrees with the disk.
            assert forall|q: u64| #[trigger] post.table().contains_key(q) implies (!frames[
                post.table()[q] as int
            ].spec_dirty() ==> frames[post.table()[q] as int].spec_data() == disk_read_spec(
                post.disk(),
                q,
            )) by {
                if q != pid {
                    assert(post.table()[q] == pre.table()[q]);
                    assert(post.table()[q] != f as int);
                    match victim {
                        Some(v) => {
                            assert(q != v);
                            assert(disk_read_spec(post.disk(), q) == disk_read_spec(
                                pre.disk(),
                                q,
                            ));
                        },
                        None => {},
                    }
                }
            }
            // Remaining invariant clauses.
            if was_free {
                assert(post.spec_free_list() == pre.spec_free_list().drop_last());
                assert(forall|i: int, j: int|
                    0 <= i < j < post.spec_free_list().len() ==> post.spec_free_list()[i]
                        != post.spec_free_list()[j]);
            } else {
                assert(post.spec_free_list() == pre.spec_free_list());
            }
            assert forall|q: u64| #[trigger] post.table().contains_key(q) implies post.table()[q]
                < post.pool_size() && frames[post.table()[q] as int].spec_id() == Some(q) by {
                if q != pid {
                    assert(post.table()[q] == pre.table()[q]);
                    assert(post.table()[q] != f as int);
                }
            }
            assert forall|g: int|
                0 <= g < post.pool_size() && (#[trigger] frames[g]).spec_id() is Some implies {
                let q = frames[g].spec_id().unwrap();
                post.table().contains_key(q) && post.table()[q] == g
            } by {
                let q = frames[g].spec_id().unwrap();
                if g == f as int {
                    assert(q == pid);
                } else {
                    assert(frames[g] == pre.spec_frames()[g]);
                    assert(pre.table().contains_key(q) && pre.table()[q] == g);
                    match victim {
                        Some(v) => {
                            assert(q != v);
                        },
                        None => {},
                    }
                    assert(q != pid);
                }
            }
            assert forall|q: u64| #[trigger] post.table().contains_key(q) implies 1 <= q
                <= post.spec_next_page_id() by {
                if q != pid {
                    assert(pre.table().contains_key(q));
                }
            }
            assert forall|q: u64| #[trigger] post.disk().contains_key(q) implies 1 <= q
                <= post.spec_next_page_id() by {
                match victim {
                    Some(v) => {
                        if q != v {
                            assert(pre.disk().contains_key(q));
                        } else {
                            assert(pre.table().contains_key(v));
                        }
                    },
                    None => {
                        assert(pre.disk().contains_key(q));
                    },
                }
            }
            // Every occupied frame keeps a replacer node.
            assert forall|g: int|
                0 <= g < post.pool_size() && (#[trigger] frames[g]).spec_id() is Some implies
                post.spec_replacer().has_node(g as usize) by {
                if g == f as int {
                    assert(post.spec_replacer().has_node(f));
                } else {
                    assert(pre.spec_frames()[g].spec_id() is Some);
                    assert(pre.spec_replacer().has_node(g as usize));
                }
            }
            // Pin counts elsewhere are untouched.
            assert forall|q: u64| q != pid implies post.pin_of(q) == pre.pin_of(q) by {
                match victim {
                    Some(v) => {
                        if q == v {
                            assert(pre.pin_of(q) == 0);
                            assert(!post.resident(q));
                        }
                    },
                    None => {},
                }
                if post.resident(q) && q != pid {
                    assert(post.table()[q] != f as int);
                }
            }
        }
        Some(f)
    }

    /// Pin the resident page `pid`, held by frame `f`, once more, and
    /// shield the frame from eviction.
    fn pin_resident(&mut self, pid: u64, f: usize)
        requires
            old(self).wf(),
            old(self).resident(pid),
            old(self).table()[pid] == f,
            old(self).pin_of(pid) < u64::MAX,
        ensures
            final(self).wf(),
            final(self).table() == old(self).table(),
            final(self).pin_of(pid) == old(self).pin_of(pid) + 1,
            forall|q: u64| q != pid ==> final(self).pin_of(q) == old(self).pin_of(q),
            forall|q: u64| #[trigger] final(self).page_bytes(q) == old(self).page_bytes(q),
            final(self).num_pinned() == old(self).num_pinned() + (if old(self).pin_of(pid) == 0 {
                1int
            } else {
                0int
            }),
            final(self).pool_size() == old(self).pool_size(),
            final(self).spec_next_page_id() == old(self).spec_next_page_id(),
            final(self).disk() == old(self).disk(),
    {
        let ghost pre = *old(self);
        let mut frame = self.pages.remove(f);
        frame.pin();
        self.pages.insert(f, frame);
        self.replacer.set_evictable(f, false);
        proof {
            let post = *self;
            let frames = post.spec_frames();
            let nodes = post.spec_replacer().spec_nodes();
            let pre_nodes = pre.spec_replacer().spec_nodes();
            assert(frames =~= pre.spec_frames().update(f as int, frames[f as int]));
            lemma_count_pinned_update(pre.spec_frames(), f as int, frames[f as int]);
            assert(forall|i: int|
                0 <= i < nodes.len() && (#[trigger] pre_nodes[i]).spec_frame_id() != f
                    ==> nodes[i] == pre_nodes[i]);
            assert forall|i: int| 0 <= i < nodes.len() implies {
                let node = #[trigger] nodes[i];
                &&& node.spec_frame_id() < post.pool_size()
                &&& frames[node.spec_frame_id() as int].spec_id() is Some
                &&& (node.spec_evictable() ==> frames[node.spec_frame_id() as int].spec_pin_count()
                    == 0)
            } by {
                let node = nodes[i];
                if pre_nodes[i].spec_frame_id() == f {
                    assert(node.spec_frame_id() == f);
                    assert(!node.spec_evictable());
                    assert(frames[f as int].spec_id() == pre.spec_frames()[f as int].spec_id());
                } else {
                    assert(node == pre_nodes[i]);
                    assert(node.spec_frame_id() != f);
                    assert(frames[node.spec_frame_id() as int] == pre.spec_frames()[
                        node.spec_frame_id() as int
                    ]);
                }
            }
            assert forall|g: int|
                0 <= g < post.pool_size() && (#[trigger] frames[g]).spec_id() is Some implies
                post.spec_replacer().has_node(g as usize) by {
                assert(pre.spec_frames()[g].spec_id() is Some);
                assert(pre.spec_replacer().has_node(g as usize));
            }
            assert forall|g: int|
                0 <= g < post.pool_size() && (#[trigger] frames[g]).spec_id() is Some && frames[
                g
            ].spec_pin_count() == 0 implies exists|i: int|
                0 <= i < nodes.len() && (#[trigger] nodes[i]).spec_frame_id() == g && nodes[
                    i
                ].spec_evictable() by {
                assert(g != f as int);
                let i = choose|i: int|
                    0 <= i < pre_nodes.len() && (#[trigger] pre_nodes[i]).spec_frame_id() == g
                        && pre_nodes[i].spec_evictable();
                assert(nodes[i] == pre_nodes[i]);
                assert(nodes[i].spec_frame_id() == g && nodes[i].spec_evictable());
            }
            assert forall|i: int|
                0 <= i < post.spec_free_list().len() implies {
                let fr = #[trigger] post.spec_free_list()[i];
                &&& fr < post.pool_size()
                &&& frames[fr as int].spec_id() is None
                &&& frames[fr as int].spec_pin_count() == 0
                &&& !frames[fr as int].spec_dirty()
            } by {
                assert(pre.spec_free_list()[i] != f);
            }
            assert forall|q: u64| #[trigger] post.page_bytes(q) == pre.page_bytes(q) by {
                if post.resident(q) && q != pid {
                    assert(post.table()[q] != f as int);
                }
            }
            assert forall|q: u64| q != pid implies post.pin_of(q) == pre.pin_of(q) by {
                if post.resident(q) {
                    assert(post.table()[q] != f as int);
                }
            }
            assert forall|q: u64| #[trigger] post.table().contains_key(q) implies (!frames[
                post.table()[q] as int
            ].spec_dirty() ==> frames[post.table()[q] as int].spec_data() == disk_read_spec(
                post.disk(),
                q,
            )) by {
                if q != pid {
                    assert(post.table()[q] != f as int);
                } else {
                    assert(post.table()[q] == f as int);
                    assert(frames[f as int].spec_dirty() == pre.spec_frames()[
                        f as int
                    ].spec_dirty());
                    assert(frames[f as int].spec_data() == pre.spec_frames()[f as int].spec_data());
                }
            }
            assert(post.table() == pre.table());
            assert forall|q: u64| #[trigger] post.table().contains_key(q) implies post.table()[q]
                < post.pool_size() && frames[post.table()[q] as int].spec_id() == Some(q) by {
                if post.table()[q] != f as int {
                    assert(frames[post.table()[q] as int] == pre.spec_frames()[
                        post.table()[q] as int
                    ]);
                } else {
                    assert(frames[f as int].spec_id() == pre.spec_frames()[f as int].spec_id());
                    assert(q == pid);
                }
            }
            assert forall|g: int| 0 <= g < post.pool_size() implies match (
            #[trigger] frames[g]).spec_id() {
                Some(q) => post.table().contains_key(q) && post.table()[q] == g,
                None => post.spec_free_list().contains(g as usize),
            } by {
                if g == f as int {
                    assert(frames[g].spec_id() == pre.spec_frames()[g].spec_id());
                } else {
                    assert(frames[g] == pre.spec_frames()[g]);
                }
            }
        }
    }

    /// Allocate a fresh page id, make it resident in a zeroed frame,
    /// and pin it for the caller to fill. Fails exactly when every
    /// frame is pinned; the failed attempt still advances the page-id
    /// counter, and the skipped id is never used.
    pub fn new_page(&mut self) -> (r: Option<u64>)
        requires
            old(self).wf(),
            old(self).spec_next_page_id() < u64::MAX,
        ensures
            final(self).wf(),
            final(self).pool_size() == old(self).pool_size(),
            r is None ==> old(self).num_pinned() == old(self).pool_size() && final(self).spec_next_page_id() == old(self).spec_next_page_id() + 1 && forall|q: u64|
                #[trigger] final(self).page_bytes(q) == old(self).page_bytes(q) && final(self).pin_of(q) == old(self).pin_of(q) && final(self).resident(q) == old(self).resident(q),
            r matches Some(pid) ==> {
                &&& pid == old(self).spec_next_page_id() + 1
                &&& final(self).spec_next_page_id() == pid
                &&& final(self).resident(pid)
                &&& final(self).pin_of(pid) == 1
                &&& final(self).page_bytes(pid) == zero_page()
                &&& final(self).num_pinned() == old(self).num_pinned() + 1
                &&& forall|q: u64|
                    #[trigger] final(self).page_bytes(q) == old(self).page_bytes(q)
                &&& forall|q: u64| q != pid ==> final(self).pin_of(q) == old(self).pin_of(q)
                &&& forall|q: u64|
                    q != pid && old(self).pin_of(q) > 0 ==> final(self).resident(q)
                &&& forall|q: u64|
                    q != pid && #[trigger] final(self).resident(q) ==> old(self).resident(q)
            },
    {
        let pid = self.allocate_page();
        proof {
            assert(self.spec_frames() == old(self).spec_frames());
            assert(self.table() == old(self).table());
            assert(self.disk() == old(self).disk());
            assert(self.spec_free_list() == old(self).spec_free_list());
            assert(self.spec_replacer() == old(self).spec_replacer());
            assert(self.spec_scheduler() == old(self).spec_scheduler());
            assert(self.wf());
            if self.resident(pid) {
                assert(old(self).table().contains_key(pid));
                assert(false);
            }
            if self.disk().contains_key(pid) {
                assert(old(self).disk().contains_key(pid));
                assert(false);
            }
        }
        let installed = self.install_page(pid);
        match installed {
            None => None,
            Some(_f) => {
                proof {
                    assert(self.page_bytes(pid) == disk_read_spec(old(self).disk(), pid));
                }
                Some(pid)
            },
        }
    }

    /// Fetch page `page_id` for reading: pin it, loading it into a
    /// frame first if need be, and hand back a snapshot of its bytes.
    /// Fails exactly when the page is absent and every frame is pinned.
    pub fn fetch_page_read(&mut self, page_id: u64) -> (r: Option<Vec<u8>>)
        requires
            old(self).wf(),
            1 <= page_id <= old(self).spec_next_page_id(),
            old(self).pin_of(page_id) < u64::MAX,
        ensures
            final(self).wf(),
            r is Some <==> (old(self).resident(page_id) || old(self).num_pinned() < old(self).pool_size()),
            r is None ==> *final(self) == *old(self),
            r matches Some(data) ==> {
                &&& data@ == old(self).page_bytes(page_id)
                &&& final(self).resident(page_id)
                &&& final(self).pin_of(page_id) == old(self).pin_of(page_id) + 1
                &&& forall|q: u64|
                    #[trigger] final(self).page_bytes(q) == old(self).page_bytes(q)
                &&& forall|q: u64|
                    q != page_id ==> final(self).pin_of(q) == old(self).pin_of(q)
                &&& forall|q: u64|
                    q != page_id && old(self).pin_of(q) > 0 ==> final(self).resident(q)
                &&& forall|q: u64|
                    q != page_id && #[trigger] final(self).resident(q) ==> old(self).resident(q)
                &&& final(self).num_pinned() == old(self).num_pinned() + (if old(self).pin_of(
                    page_id,
                ) == 0 {
                    1int
                } else {
                    0int
                })
                &&& final(self).pool_size() == old(self).pool_size()
                &&& final(self).spec_next_page_id() == old(self).spec_next_page_id()
            },
    {
        self.fetch_page(page_id)
    }

    /// Fetch page `page_id` with the intent to write it back through
    /// [`BufferPoolManager::write_page_data`]: pin it and hand back a
    /// snapshot of its bytes. Fails exactly when the page is absent and
    /// every frame is pinned.
    pub fn fetch_page_write(&mut self, page_id: u64) -> (r: Option<Vec<u8>>)
        requires
            old(self).wf(),
            1 <= page_id <= old(self).spec_next_page_id(),
            old(self).pin_of(page_id) < u64::MAX,
        ensures
            final(self).wf(),
            r is Some <==> (old(self).resident(page_id) || old(self).num_pinned() < old(self).pool_size()),
            r is None ==> *final(self) == *old(self),
            r matches Some(data) ==> {
                &&& data@ == old(self).page_bytes(page_id)
                &&& final(self).resident(page_id)
                &&& final(self).pin_of(page_id) == old(self).pin_of(page_id) + 1
                &&& forall|q: u64|
                    #[trigger] final(self).page_bytes(q) == old(self).page_bytes(q)
                &&& forall|q: u64|
                    q != page_id ==> final(self).pin_of(q) == old(self).pin_of(q)
                &&& forall|q: u64|
                    q != page_id && old(self).pin_of(q) > 0 ==> final(self).resident(q)
                &&& forall|q: u64|
                    q != page_id && #[trigger] final(self).resident(q) ==> old(self).resident(q)
                &&& final(self).num_pinned() == old(self).num_pinned() + (if old(self).pin_of(
                    page_id,
                ) == 0 {
                    1int
                } else {
                    0int
                })
                &&& final(self).pool_size() == old(self).pool_size()
                &&& final(self).spec_next_page_id() == old(self).spec_next_page_id()
            },
    {
        self.fetch_page(page_id)
    }

    /// The shared fetch path behind both fetch flavours.
    fn fetch_page(&mut self, page_id: u64) -> (r: Option<Vec<u8>>)
        requires
            old(self).wf(),
            1 <= page_id <= old(self).spec_next_page_id(),
            old(self).pin_of(page_id) < u64::MAX,
        ensures
            final(self).wf(),
            r is Some <==> (old(self).resident(page_id) || old(self).num_pinned() < old(self).pool_size()),
            r is None ==> *final(self) == *old(self),
            r matches Some(data) ==> {
                &&& data@ == old(self).page_bytes(page_id)
                &&& final(self).resident(page_id)
                &&& final(self).pin_of(page_id) == old(self).pin_of(page_id) + 1
                &&& forall|q: u64|
                    #[trigger] final(self).page_bytes(q) == old(self).page_bytes(q)
                &&& forall|q: u64|
                    q != page_id ==> final(self).pin_of(q) == old(self).pin_of(q)
                &&& forall|q: u64|
                    q != page_id && old(self).pin_of(q) > 0 ==> final(self).resident(q)
                &&& forall|q: u64|
                    q != page_id && #[trigger] final(self).resident(q) ==> old(self).resident(q)
                &&& final(self).num_pinned() == old(self).num_pinned() + (if old(self).pin_of(
                    page_id,
                ) == 0 {
                    1int
                } else {
                    0int
                })
                &&& final(self).pool_size() == old(self).pool_size()
                &&& final(self).spec_next_page_id() == old(self).spec_next_page_id()
            },
    {
        let found = page_table_get(&self.pages_map, page_id);
        match found {
            Some(f) => {
                let data = copy_bytes(self.pages[f].get_data());
                self.pin_resident(page_id, f);
                proof {
                    lemma_count_pinned_bounds(final(self).spec_frames());
                }
                Some(data)
            },
            None => {
                proof {
                    if old(self).num_pinned() < old(self).pool_size() {
                        lemma_count_pinned_bounds(old(self).spec_frames());
                    }
                }
                let installed = self.install_page(page_id);
                match installed {
                    None => None,
                    Some(f) => {
                        let data = copy_bytes(self.pages[f].get_data());
                        proof {
                            assert(data@ == self.page_bytes(page_id));
                            lemma_count_pinned_bounds(self.spec_frames());
                        }
                        Some(data)
                    },
                }
            },
        }
    }

    /// Replace the bytes of page `page_id`: through its frame when it
    /// is resident (marking the frame dirty, as writing through an
    /// exclusive data guard does), straight to the disk otherwise.
    /// Returns whether the page was resident.
    pub fn write_page_data(&mut self, page_id: u64, data: Vec<u8>) -> (r: bool)
        requires
            old(self).wf(),
            1 <= page_id <= old(self).spec_next_page_id(),
        ensures
            final(self).wf(),
            r == old(self).resident(page_id),
            final(self).page_bytes(page_id) == data@,
            forall|q: u64| q != page_id ==> final(self).page_bytes(q) == old(self).page_bytes(q),
            forall|q: u64| final(self).pin_of(q) == old(self).pin_of(q),
            final(self).table() == old(self).table(),
            final(self).num_pinned() == old(self).num_pinned(),
            final(self).pool_size() == old(self).pool_size(),
            final(self).spec_next_page_id() == old(self).spec_next_page_id(),
    {
        let ghost pre = *old(self);
        let found = page_table_get(&self.pages_map, page_id);
        match found {
            None => {
                self.disk_scheduler.write_page_sync(page_id, data);
                proof {
                    assert(self.table() == pre.table());
                    assert(self.spec_frames() == pre.spec_frames());
                    assert forall|q: u64|
                        q != page_id implies self.page_bytes(q) == pre.page_bytes(q) by {
                        if !self.resident(q) {
                            assert(disk_read_spec(self.disk(), q) == disk_read_spec(
                                pre.disk(),
                                q,
                            ));
                        }
                    }
                    assert forall|q: u64| #[trigger] self.table().contains_key(q) implies (
                    !self.spec_frames()[self.table()[q] as int].spec_dirty()
                        ==> self.spec_frames()[self.table()[q] as int].spec_data()
                        == disk_read_spec(self.disk(), q)) by {
                        assert(q != page_id);
                        assert(disk_read_spec(self.disk(), q) == disk_read_spec(pre.disk(), q));
                    }
                    assert forall|q: u64| #[trigger] self.disk().contains_key(q) implies 1 <= q
                        <= self.spec_next_page_id() by {
                        if q != page_id {
                            assert(pre.disk().contains_key(q));
                        }
                    }
                    assert forall|q: u64| #[trigger] self.table().contains_key(q) implies 1 <= q
                        <= self.spec_next_page_id() by {
                        assert(pre.table().contains_key(q));
                    }
                }
                false
            },
            Some(f) => {
                let mut frame = self.pages.remove(f);
                frame.set_data(data);
                frame.set_dirty(true);
                self.pages.insert(f, frame);
                proof {
                    let post = *self;
                    let frames = post.spec_frames();
                    assert(frames =~= pre.spec_frames().update(f as int, frames[f as int]));
                    lemma_count_pinned_update(pre.spec_frames(), f as int, frames[f as int]);
                    self.lemma_frame_update_wf(pre, page_id, f);
                    assert forall|q: u64|
                        q != page_id implies post.page_bytes(q) == pre.page_bytes(q) by {
                        if post.resident(q) {
                            assert(post.table()[q] != f as int);
                        }
                    }
                    assert forall|q: u64| post.pin_of(q) == pre.pin_of(q) by {
                        if post.resident(q) && q != page_id {
                            assert(post.table()[q] != f as int);
                        }
                    }
                }
                true
            },
        }
    }

    /// Decrement the pin count of the resident page `page_id`, fold
    /// `is_dirty` into its dirty flag, and make its frame evictable
    /// once no pin remains. Fails when the page is not resident.
    pub fn unpin_page(&mut self, page_id: u64, is_dirty: bool) -> (r: Result<
        (),
        BufferPoolError,
    >)
        requires
            old(self).wf(),
            old(self).resident(page_id) ==> old(self).pin_of(page_id) > 0,
        ensures
            final(self).wf(),
            r is Ok <==> old(self).resident(page_id),
            r is Err ==> *final(self) == *old(self) && r == Err::<(), BufferPoolError>(
                BufferPoolError::PageNotInPool,
            ),
            r is Ok ==> {
                &&& final(self).pin_of(page_id) == old(self).pin_of(page_id) - 1
                &&& forall|q: u64|
                    q != page_id ==> final(self).pin_of(q) == old(self).pin_of(q)
                &&& forall|q: u64|
                    #[trigger] final(self).page_bytes(q) == old(self).page_bytes(q)
                &&& final(self).table() == old(self).table()
                &&& final(self).num_pinned() == old(self).num_pinned() - (if old(self).pin_of(
                    page_id,
                ) == 1 {
                    1int
                } else {
                    0int
                })
                &&& final(self).pool_size() == old(self).pool_size()
                &&& final(self).spec_next_page_id() == old(self).spec_next_page_id()
            },
    {
        let ghost pre = *old(self);
        let found = page_table_get(&self.pages_map, page_id);
        match found {
            None => Err(BufferPoolError::PageNotInPool),
            Some(f) => {
                let mut frame = self.pages.remove(f);
                frame.unpin();
                let dirty_now = frame.is_dirty() || is_dirty;
                frame.set_dirty(dirty_now);
                let still_pinned = frame.is_pinned();
                self.pages.insert(f, frame);
                proof {
                    let frames = self.spec_frames();
                    assert(frames =~= pre.spec_frames().update(f as int, frames[f as int]));
                    lemma_count_pinned_update(pre.spec_frames(), f as int, frames[f as int]);
                }
                if !still_pinned {
                    self.replacer.set_evictable(f, true);
                }
                proof {
                    self.lemma_frame_update_wf(pre, page_id, f);
                }
                Ok(())
            },
        }
    }

    /// Write the bytes of the resident page `page_id` through to the
    /// disk and clear its dirty flag. Fails when the page is not
    /// resident.
    pub fn flush_page(&mut self, page_id: u64) -> (r: Result<(), BufferPoolError>)
        requires
            old(self).wf(),
        ensures
            final(self).wf(),
            r is Ok <==> old(self).resident(page_id),
            r is Err ==> *final(self) == *old(self) && r == Err::<(), BufferPoolError>(
                BufferPoolError::PageNotInPool,
            ),
            r is Ok ==> {
                &&& forall|q: u64|
                    #[trigger] final(self).page_bytes(q) == old(self).page_bytes(q)
                &&& forall|q: u64| final(self).pin_of(q) == old(self).pin_of(q)
                &&& final(self).disk() == old(self).disk().insert(
                    page_id,
                    old(self).page_bytes(page_id),
                )
                &&& final(self).table() == old(self).table()
                &&& final(self).num_pinned() == old(self).num_pinned()
                &&& final(self).pool_size() == old(self).pool_size()
                &&& final(self).spec_next_page_id() == old(self).spec_next_page_id()
            },
    {
        let ghost pre = *old(self);
        let found = page_table_get(&self.pages_map, page_id);
        match found {
            None => Err(BufferPoolError::PageNotInPool),
            Some(f) => {
                let data = copy_bytes(self.pages[f].get_data());
                self.disk_scheduler.write_page_sync(page_id, data);
                let mut frame = self.pages.remove(f);
                frame.set_dirty(false);
                self.pages.insert(f, frame);
                proof {
                    let frames = self.spec_frames();
                    assert(frames =~= pre.spec_frames().update(f as int, frames[f as int]));
                    lemma_count_pinned_update(pre.spec_frames(), f as int, frames[f as int]);
                    self.lemma_frame_update_wf_flush(pre, page_id, f);
                }
                Ok(())
            },
        }
    }

    /// Drop the resident page `page_id` from the pool: a no-op for a
    /// page that is not resident, an error for a pinned one; otherwise
    /// its frame is cleared and returned to the free list. The bytes
    /// last written to the disk remain whatever they were.
    pub fn delete_page(&mut self, page_id: u64) -> (r: Result<(), BufferPoolError>)
        requires
            old(self).wf(),
        ensures
            final(self).wf(),
            r is Ok <==> (!old(self).resident(page_id) || old(self).pin_of(page_id) == 0),
            !old(self).resident(page_id) ==> *final(self) == *old(self),
            r is Err ==> *final(self) == *old(self) && r == Err::<(), BufferPoolError>(
                BufferPoolError::PagePinned,
            ),
            r is Ok && old(self).resident(page_id) ==> {
                &&& !final(self).resident(page_id)
                &&& final(self).table() == old(self).table().remove(page_id)
                &&& forall|q: u64|
                    q != page_id ==> final(self).page_bytes(q) == old(self).page_bytes(q)
                &&& forall|q: u64| q != page_id ==> final(self).pin_of(q) == old(self).pin_of(q)
                &&& final(self).disk() == old(self).disk()
                &&& final(self).num_pinned() == old(self).num_pinned()
                &&& final(self).pool_size() == old(self).pool_size()
                &&& final(self).spec_next_page_id() == old(self).spec_next_page_id()
            },
    {
        let ghost pre = *old(self);
        let found = page_table_get(&self.pages_map, page_id);
        match found {
            None => {
                proof {
                    assert(*self == *old(self));
                    assert forall|q: u64| #[trigger] self.disk().contains_key(q) implies 1 <= q
                        <= self.spec_next_page_id() by {
                        assert(old(self).disk().contains_key(q));
                    }
                }
                Ok(())
            },
            Some(f) => {
                if self.pages[f].is_pinned() {
                    return Err(BufferPoolError::PagePinned);
                }
                page_table_remove(&mut self.pages_map, page_id);
                self.replacer.remove(f);
                self.free_list.push(f);
                let mut frame = self.pages.remove(f);
                frame.reset();
                self.pages.insert(f, frame);
                proof {
                    let post = *self;
                    let frames = post.spec_frames();
                    let nodes = post.spec_replacer().spec_nodes();
                    let pre_nodes = pre.spec_replacer().spec_nodes();
                    assert(frames =~= pre.spec_frames().update(f as int, frames[f as int]));
                    lemma_count_pinned_update(pre.spec_frames(), f as int, frames[f as int]);
                    assert(post.table() =~= pre.table().remove(page_id));
                    // The replacer dropped exactly the node of frame `f`.
                    assert(pre.spec_replacer().has_node(f));
                    let rem = choose|i: int|
                        0 <= i < pre_nodes.len() && (#[trigger] pre_nodes[i]).spec_frame_id() == f
                            && nodes == pre_nodes.remove(i);
                    assert(forall|j: int|
                        0 <= j < nodes.len() ==> #[trigger] nodes[j] == (if j < rem {
                            pre_nodes[j]
                        } else {
                            pre_nodes[j + 1]
                        }));
                    assert forall|j: int| 0 <= j < nodes.len() implies (
                    #[trigger] nodes[j]).spec_frame_id() != f by {
                        if j < rem {
                        } else {
                            assert(nodes[j] == pre_nodes[j + 1]);
                        }
                    }
                    // Occupied frames other than `f` keep their nodes.
                    assert forall|g: int|
                        0 <= g < post.pool_size() && (#[trigger] frames[g]).spec_id() is Some
                        implies post.spec_replacer().has_node(g as usize) by {
                        assert(g != f as int);
                        assert(pre.spec_frames()[g].spec_id() is Some);
                        assert(pre.spec_replacer().has_node(g as usize));
                    }
                    // Unpinned occupied frames keep evictable nodes.
                    assert forall|g: int|
                        0 <= g < post.pool_size() && (#[trigger] frames[g]).spec_id() is Some
                            && frames[g].spec_pin_count() == 0 implies exists|i: int|
                        0 <= i < nodes.len() && (#[trigger] nodes[i]).spec_frame_id() == g
                            && nodes[i].spec_evictable() by {
                        assert(g != f as int);
                        assert(pre.spec_frames()[g] == frames[g]);
                        let i = choose|i: int|
                            0 <= i < pre_nodes.len() && (#[trigger] pre_nodes[i]).spec_frame_id()
                                == g && pre_nodes[i].spec_evictable();
                        assert(i != rem);
                        if i < rem {
                            assert(nodes[i] == pre_nodes[i]);
                            assert(nodes[i].spec_frame_id() == g && nodes[i].spec_evictable());
                        } else {
                            assert(nodes[i - 1] == pre_nodes[i]);
                            assert(nodes[i - 1].spec_frame_id() == g && nodes[
                                i - 1
                            ].spec_evictable());
                        }
                    }
                    // Frame `f` joins the free list; everything else is
                    // untouched.
                    assert(post.spec_free_list() =~= pre.spec_free_list().push(f));
                    assert forall|i: int, j: int|
                        0 <= i < j < post.spec_free_list().len() implies post.spec_free_list()[i]
                        != post.spec_free_list()[j] by {
                        if j == post.spec_free_list().len() - 1 {
                            assert(post.spec_free_list()[j] == f);
                            if pre.spec_free_list()[i] == f {
                                assert(pre.spec_frames()[f as int].spec_id() is None);
                                assert(false);
                            }
                        }
                    }
                    assert forall|i: int|
                        0 <= i < post.spec_free_list().len() implies {
                        let fr = #[trigger] post.spec_free_list()[i];
                        &&& fr < post.pool_size()
                        &&& frames[fr as int].spec_id() is None
                        &&& frames[fr as int].spec_pin_count() == 0
                        &&& !frames[fr as int].spec_dirty()
                    } by {
                        if i < pre.spec_free_list().len() {
                            assert(post.spec_free_list()[i] == pre.spec_free_list()[i]);
                            assert(pre.spec_free_list()[i] != f);
                        } else {
                            assert(post.spec_free_list()[i] == f);
                        }
                    }
                    assert forall|g: int| 0 <= g < post.pool_size() implies match (
                    #[trigger] frames[g]).spec_id() {
                        Some(q) => post.table().contains_key(q) && post.table()[q] == g,
                        None => post.spec_free_list().contains(g as usize),
                    } by {
                        if g == f as int {
                            assert(post.spec_free_list().last() == f);
                        } else {
                            assert(frames[g] == pre.spec_frames()[g]);
                            match pre.spec_frames()[g].spec_id() {
                                Some(q) => {
                                    assert(q != page_id);
                                },
                                None => {
                                    let w = choose|w: int|
                                        0 <= w < pre.spec_free_list().len()
                                            && pre.spec_free_list()[w] == g as usize;
                                    assert(post.spec_free_list()[w] == g as usize);
                                },
                            }
                        }
                    }
                    assert forall|q: u64| #[trigger] post.table().contains_key(q) implies
                        post.table()[q] < post.pool_size() && frames[post.table()[q] as int].spec_id()
                        == Some(q) by {
                        assert(q != page_id);
                        assert(post.table()[q] == pre.table()[q]);
                        if post.table()[q] == f as int {
                            assert(pre.spec_frames()[f as int].spec_id() == Some(q));
                            assert(pre.table()[page_id] == f as int);
                            assert(false);
                        }
                    }
                    assert forall|q: u64| q != page_id implies post.page_bytes(q) == pre.page_bytes(
                        q,
                    ) by {
                        if post.resident(q) {
                            assert(post.table()[q] != f as int);
                        }
                    }
                    assert forall|q: u64| q != page_id implies post.pin_of(q) == pre.pin_of(q) by {
                        if post.resident(q) {
                            assert(post.table()[q] != f as int);
                        }
                    }
                    assert forall|q: u64| #[trigger] post.table().contains_key(q) implies (!frames[
                        post.table()[q] as int
                    ].spec_dirty() ==> frames[post.table()[q] as int].spec_data()
                        == disk_read_spec(post.disk(), q)) by {
                        assert(q != page_id);
                        assert(post.table()[q] != f as int);
                    }
                    assert(post.disk() == pre.disk());
                    assert forall|q: u64| #[trigger] post.table().contains_key(q) implies 1 <= q
                        <= post.spec_next_page_id() by {
                        assert(pre.table().contains_key(q));
                    }
                    assert forall|q: u64| #[trigger] post.disk().contains_key(q) implies 1 <= q
                        <= post.spec_next_page_id() by {
                        assert(pre.disk().contains_key(q));
                    }
                }
                Ok(())
            },
        }
    }

    /// The invariant bookkeeping shared by the operations that touch
    /// one resident frame in place: the frame of `page_id` may change
    /// its data, pin count or dirty flag, but keeps its identity, and
    /// a dirty frame owes the disk nothing.
    proof fn lemma_frame_update_wf(&self, pre: BufferPoolManager, page_id: u64, f: usize)
        requires
            pre.wf(),
            pre.resident(page_id),
            pre.table()[page_id] == f,
            self.table() == pre.table(),
            self.spec_free_list() == pre.spec_free_list(),
            self.spec_scheduler() == pre.spec_scheduler(),
            self.spec_next_page_id() == pre.spec_next_page_id(),
            self.spec_frames().len() == pre.spec_frames().len(),
            forall|g: int|
                0 <= g < pre.spec_frames().len() && g != f ==> self.spec_frames()[g]
                    == pre.spec_frames()[g],
            self.spec_frames()[f as int].spec_id() == pre.spec_frames()[f as int].spec_id(),
            !self.spec_frames()[f as int].spec_dirty() ==> self.spec_frames()[
                f as int
            ].spec_data() == disk_read_spec(self.disk(), page_id),
            self.spec_replacer().wf(),
            self.spec_replacer().spec_num_frames() == pre.spec_replacer().spec_num_frames(),
            self.spec_replacer().spec_nodes().len() == pre.spec_replacer().spec_nodes().len(),
            forall|i: int|
                0 <= i < pre.spec_replacer().spec_nodes().len() && (#[trigger] pre.spec_replacer().spec_nodes()[i]).spec_frame_id()
                    != f ==> self.spec_replacer().spec_nodes()[i] == pre.spec_replacer().spec_nodes()[i],
            forall|i: int|
                0 <= i < pre.spec_replacer().spec_nodes().len() && (#[trigger] pre.spec_replacer().spec_nodes()[i]).spec_frame_id()
                    == f ==> self.spec_replacer().spec_nodes()[i].spec_frame_id() == f,
            forall|i: int|
                0 <= i < self.spec_replacer().spec_nodes().len() && (
                #[trigger] self.spec_replacer().spec_nodes()[i]).spec_frame_id() == f ==> (
                self.spec_replacer().spec_nodes()[i].spec_evictable() ==> self.spec_frames()[
                    f as int
                ].spec_pin_count() == 0),
            self.spec_frames()[f as int].spec_pin_count() == 0 ==> exists|i: int|
                0 <= i < self.spec_replacer().spec_nodes().len() && (
                #[trigger] self.spec_replacer().spec_nodes()[i]).spec_frame_id() == f
                    && self.spec_replacer().spec_nodes()[i].spec_evictable(),
        ensures
            self.wf(),
    {
        let frames = self.spec_frames();
        let nodes = self.spec_replacer().spec_nodes();
        let pre_nodes = pre.spec_replacer().spec_nodes();
        assert forall|i: int|
            0 <= i < self.spec_free_list().len() implies {
            let fr = #[trigger] self.spec_free_list()[i];
            &&& fr < self.pool_size()
            &&& frames[fr as int].spec_id() is None
            &&& frames[fr as int].spec_pin_count() == 0
            &&& !frames[fr as int].spec_dirty()
        } by {
            assert(pre.spec_free_list()[i] != f);
        }
        assert forall|q: u64| #[trigger] self.table().contains_key(q) implies self.table()[q]
            < self.pool_size() && frames[self.table()[q] as int].spec_id() == Some(q) by {
            if self.table()[q] != f as int {
                assert(frames[self.table()[q] as int] == pre.spec_frames()[
                    self.table()[q] as int
                ]);
            } else {
                assert(q == page_id);
            }
        }
        assert forall|g: int| 0 <= g < self.pool_size() implies match (
        #[trigger] frames[g]).spec_id() {
            Some(q) => self.table().contains_key(q) && self.table()[q] == g,
            None => self.spec_free_list().contains(g as usize),
        } by {
            if g == f as int {
                assert(frames[g].spec_id() == pre.spec_frames()[g].spec_id());
            } else {
                assert(frames[g] == pre.spec_frames()[g]);
            }
        }
        assert forall|i: int| 0 <= i < nodes.len() implies {
            let node = #[trigger] nodes[i];
            &&& node.spec_frame_id() < self.pool_size()
            &&& frames[node.spec_frame_id() as int].spec_id() is Some
            &&& (node.spec_evictable() ==> frames[node.spec_frame_id() as int].spec_pin_count()
                == 0)
        } by {
            let node = nodes[i];
            let pre_node = pre_nodes[i];
            if pre_node.spec_frame_id() == f {
                assert(node.spec_frame_id() == f);
                assert(frames[f as int].spec_id() == pre.spec_frames()[f as int].spec_id());
            } else {
                assert(node == pre_node);
                assert(frames[node.spec_frame_id() as int] == pre.spec_frames()[
                    node.spec_frame_id() as int
                ]);
            }
        }
        assert forall|g: int|
            0 <= g < self.pool_size() && (#[trigger] frames[g]).spec_id() is Some implies
            self.spec_replacer().has_node(g as usize) by {
            assert(pre.spec_frames()[g].spec_id() is Some);
            assert(pre.spec_replacer().has_node(g as usize));
            let i = choose|i: int|
                0 <= i < pre_nodes.len() && (#[trigger] pre_nodes[i]).spec_frame_id()
                    == g as usize;
            assert(nodes[i].spec_frame_id() == g as usize);
        }
        assert forall|g: int|
            0 <= g < self.pool_size() && (#[trigger] frames[g]).spec_id() is Some && frames[
            g
        ].spec_pin_count() == 0 implies exists|i: int|
            0 <= i < nodes.len() && (#[trigger] nodes[i]).spec_frame_id() == g && nodes[
                i
            ].spec_evictable() by {
            if g != f as int {
                assert(pre.spec_frames()[g] == frames[g]);
                let i = choose|i: int|
                    0 <= i < pre_nodes.len() && (#[trigger] pre_nodes[i]).spec_frame_id() == g
                        && pre_nodes[i].spec_evictable();
                assert(nodes[i] == pre_nodes[i]);
                assert(nodes[i].spec_frame_id() == g && nodes[i].spec_evictable());
            }
        }
        assert forall|q: u64| #[trigger] self.table().contains_key(q) implies (!frames[
            self.table()[q] as int
        ].spec_dirty() ==> frames[self.table()[q] as int].spec_data() == disk_read_spec(
            self.disk(),
            q,
        )) by {
            if q != page_id {
                assert(self.table()[q] != f as int);
                assert(frames[self.table()[q] as int] == pre.spec_frames()[
                    self.table()[q] as int
                ]);
            }
        }
        assert(self.disk() == pre.disk());
        assert forall|q: u64| #[trigger] self.table().contains_key(q) implies 1 <= q
            <= self.spec_next_page_id() by {
            assert(pre.table().contains_key(q));
        }
        assert forall|q: u64| #[trigger] self.disk().contains_key(q) implies 1 <= q
            <= self.spec_next_page_id() by {
            assert(pre.disk().contains_key(q));
        }
    }

    /// As [`BufferPoolManager::lemma_frame_update_wf`], for the flush
    /// path, where the disk gains the flushed page's bytes.
    proof fn lemma_frame_update_wf_flush(&self, pre: BufferPoolManager, page_id: u64, f: usize)
        requires
            pre.wf(),
            pre.resident(page_id),
            pre.table()[page_id] == f,
            self.table() == pre.table(),
            self.spec_free_list() == pre.spec_free_list(),
            self.spec_replacer() == pre.spec_replacer(),
            self.spec_next_page_id() == pre.spec_next_page_id(),
            self.spec_scheduler().wf(),
            forall|p: u64| (#[trigger] self.spec_scheduler().pending(p)).len() == 0,
            self.disk() == pre.disk().insert(page_id, pre.spec_frames()[f as int].spec_data()),
            self.spec_frames().len() == pre.spec_frames().len(),
            forall|g: int|
                0 <= g < pre.spec_frames().len() && g != f ==> self.spec_frames()[g]
                    == pre.spec_frames()[g],
            self.spec_frames()[f as int].spec_id() == pre.spec_frames()[f as int].spec_id(),
            self.spec_frames()[f as int].spec_data() == pre.spec_frames()[f as int].spec_data(),
            self.spec_frames()[f as int].spec_pin_count() == pre.spec_frames()[
                f as int
            ].spec_pin_count(),
        ensures
            self.wf(),
    {
        let frames = self.spec_frames();
        assert forall|i: int|
            0 <= i < self.spec_free_list().len() implies {
            let fr = #[trigger] self.spec_free_list()[i];
            &&& fr < self.pool_size()
            &&& frames[fr as int].spec_id() is None
            &&& frames[fr as int].spec_pin_count() == 0
            &&& !frames[fr as int].spec_dirty()
        } by {
            assert(pre.spec_free_list()[i] != f);
        }
        assert forall|q: u64| #[trigger] self.table().contains_key(q) implies self.table()[q]
            < self.pool_size() && frames[self.table()[q] as int].spec_id() == Some(q) by {
            if self.table()[q] != f as int {
                assert(frames[self.table()[q] as int] == pre.spec_frames()[
                    self.table()[q] as int
                ]);
            } else {
                assert(q == page_id);
            }
        }
        assert forall|g: int| 0 <= g < self.pool_size() implies match (
        #[trigger] frames[g]).spec_id() {
            Some(q) => self.table().contains_key(q) && self.table()[q] == g,
            None => self.spec_free_list().contains(g as usize),
        } by {
            if g == f as int {
                assert(frames[g].spec_id() == pre.spec_frames()[g].spec_id());
            } else {
                assert(frames[g] == pre.spec_frames()[g]);
            }
        }
        assert forall|i: int| 0 <= i < self.spec_replacer().spec_nodes().len() implies {
            let node = #[trigger] self.spec_replacer().spec_nodes()[i];
            &&& node.spec_frame_id() < self.pool_size()
            &&& frames[node.spec_frame_id() as int].spec_id() is Some
            &&& (node.spec_evictable() ==> frames[node.spec_frame_id() as int].spec_pin_count()
                == 0)
        } by {
            let node = self.spec_replacer().spec_nodes()[i];
            if node.spec_frame_id() == f {
                assert(frames[f as int].spec_id() == pre.spec_frames()[f as int].spec_id());
            } else {
                assert(frames[node.spec_frame_id() as int] == pre.spec_frames()[
                    node.spec_frame_id() as int
                ]);
            }
        }
        assert forall|g: int|
            0 <= g < self.pool_size() && (#[trigger] frames[g]).spec_id() is Some implies
            self.spec_replacer().has_node(g as usize) by {
            assert(pre.spec_frames()[g].spec_id() is Some);
        }
        assert forall|g: int|
            0 <= g < self.pool_size() && (#[trigger] frames[g]).spec_id() is Some && frames[
            g
        ].spec_pin_count() == 0 implies exists|i: int|
            0 <= i < self.spec_replacer().spec_nodes().len() && (
            #[trigger] self.spec_replacer().spec_nodes()[i]).spec_frame_id() == g
                && self.spec_replacer().spec_nodes()[i].spec_evictable() by {
            assert(pre.spec_frames()[g].spec_id() is Some);
            assert(pre.spec_frames()[g].spec_pin_count() == frames[g].spec_pin_count());
        }
        assert forall|q: u64| #[trigger] self.table().contains_key(q) implies (!frames[
            self.table()[q] as int
        ].spec_dirty() ==> frames[self.table()[q] as int].spec_data() == disk_read_spec(
            self.disk(),
            q,
        )) by {
            if q != page_id {
                assert(self.table()[q] != f as int);
                assert(frames[self.table()[q] as int] == pre.spec_frames()[
                    self.table()[q] as int
                ]);
                assert(disk_read_spec(self.disk(), q) == disk_read_spec(pre.disk(), q));
            } else {
                assert(self.table()[q] == f as int);
                assert(disk_read_spec(self.disk(), q) == pre.spec_frames()[f as int].spec_data());
            }
        }
        assert forall|q: u64| #[trigger] self.disk().contains_key(q) implies 1 <= q
            <= self.spec_next_page_id() by {
            if q != page_id {
                assert(pre.disk().contains_key(q));
            } else {
                assert(pre.table().contains_key(page_id));
            }
        }
    }

    /// Bump the page id counter and return the fresh id.
    fn allocate_page(&mut self) -> (pid: u64)
        requires
            old(self).spec_next_page_id() < u64::MAX,
        ensures
            pid == old(self).spec_next_page_id() + 1,
            *final(self) == (BufferPoolManager {
                next_page_id: pid,
                ..*old(self)
            }),
    {
        self.next_page_id = self.next_page_id + 1;
        self.next_page_id
    }
}

/// In a run of frames none of which is pinned, no frame counts as
/// pinned.
pub proof fn lemma_count_pinned_all_unpinned(s: Seq<Page>)
    requires
        forall|j: int| 0 <= j < s.len() ==> (#[trigger] s[j]).spec_pin_count() == 0,
    ensures
        count_pinned(s) == 0,
    decreases s.len(),
{
    if s.len() > 0 {
        lemma_count_pinned_all_unpinned(s.drop_last());
    }
}

/// Replacing the frame at `i` moves the pinned-frame count by the
/// difference of the two frames' pin statuses.
pub proof fn lemma_count_pinned_update(s: Seq<Page>, i: int, p: Page)
    requires
        0 <= i < s.len(),
    ensures
        count_pinned(s.update(i, p)) == count_pinned(s) - (if s[i].spec_pin_count() > 0 {
            1int
        } else {
            0int
        }) + (if p.spec_pin_count() > 0 {
            1int
        } else {
            0int
        }),
    decreases s.len(),
{
    let t = s.update(i, p);
    if i == s.len() - 1 {
        assert(t.drop_last() =~= s.drop_last());
    } else {
        assert(t.drop_last() =~= s.drop_last().update(i, p));
        assert(t.last() == s.last());
        lemma_count_pinned_update(s.drop_last(), i, p);
    }
}

/// Pin counts are never negative: a pin count is an unsigned machine
/// word, and `unpin_page` refuses the call that would take one below
/// zero.
pub proof fn lemma_pin_count_nonnegative(p: BufferPoolManager, pid: u64)
    ensures
        p.pin_of(pid) >= 0,
{
}

/// Every page in the page table is held by the frame the table names,
/// and that frame carries the page's own id.
pub proof fn lemma_page_table_consistent(p: BufferPoolManager, pid: u64)
    requires
        p.wf(),
        p.resident(pid),
    ensures
        p.table()[pid] < p.pool_size(),
        p.spec_frames()[p.table()[pid] as int].spec_id() == Some(pid),
{
}

/// Free-list frames hold no pin and no page, so no page table entry
/// can name them.
pub proof fn lemma_free_frames_clear(p: BufferPoolManager, i: int)
    requires
        p.wf(),
        0 <= i < p.spec_free_list().len(),
    ensures
        p.spec_frames()[p.spec_free_list()[i] as int].spec_pin_count() == 0,
        p.spec_frames()[p.spec_free_list()[i] as int].spec_id() is None,
        forall|pid: u64| #[trigger] p.resident(pid) ==> p.table()[pid] != p.spec_free_list()[i],
{
    let f = p.spec_free_list()[i];
    assert forall|pid: u64| #[trigger] p.resident(pid) implies p.table()[pid] != f by {
        if p.table()[pid] == f {
            assert(p.spec_frames()[f as int].spec_id() == Some(pid));
        }
    }
}

/// A pool with no pinned frame pins no page.
pub proof fn lemma_no_pins(p: BufferPoolManager)
    requires
        p.wf(),
        p.num_pinned() == 0,
    ensures
        forall|q: u64| #[trigger] p.pin_of(q) == 0,
{
    lemma_count_pinned_zero(p.spec_frames());
}

/// A frame run counts no pinned frame exactly when none is pinned.
pub proof fn lemma_count_pinned_zero(s: Seq<Page>)
    ensures
        (count_pinned(s) == 0) <==> (forall|j: int|
            0 <= j < s.len() ==> (#[trigger] s[j]).spec_pin_count() == 0),
    decreases s.len(),
{
    if s.len() > 0 {
        lemma_count_pinned_zero(s.drop_last());
        if count_pinned(s) == 0 {
            assert forall|j: int|
                0 <= j < s.len() implies (#[trigger] s[j]).spec_pin_count() == 0 by {
                if j < s.len() - 1 {
                    assert(s.drop_last()[j] == s[j]);
                }
            }
        }
        if forall|j: int| 0 <= j < s.len() ==> (#[trigger] s[j]).spec_pin_count() == 0 {
            assert(forall|j: int|
                0 <= j < s.drop_last().len() ==> (#[trigger] s.drop_last()[j]).spec_pin_count()
                    == 0);
        }
    }
}

/// The pinned-frame count is bounded by the frame count, and reaches
/// it only when every frame is pinned.
pub proof fn lemma_count_pinned_bounds(s: Seq<Page>)
    ensures
        count_pinned(s) <= s.len(),
        count_pinned(s) == s.len() ==> forall|j: int|
            0 <= j < s.len() ==> (#[trigger] s[j]).spec_pin_count() > 0,
        (exists|j: int| 0 <= j < s.len() && (#[trigger] s[j]).spec_pin_count() == 0)
            ==> count_pinned(s) < s.len(),
        (forall|j: int| 0 <= j < s.len() ==> (#[trigger] s[j]).spec_pin_count() > 0)
            ==> count_pinned(s) == s.len(),
    decreases s.len(),
{
    if s.len() > 0 {
        lemma_count_pinned_bounds(s.drop_last());
        if exists|j: int| 0 <= j < s.len() && (#[trigger] s[j]).spec_pin_count() == 0 {
            let j = choose|j: int| 0 <= j < s.len() && (#[trigger] s[j]).spec_pin_count() == 0;
            if j < s.len() - 1 {
                assert(s.drop_last()[j].spec_pin_count() == 0);
            }
        }
    }
}

} // verus!
