//! Directory page of an extendible hash table.
//!
//! A directory holds `2^global_depth` slots; slot `i` names the bucket
//! page serving the keys whose hash ends in the bits of `i`, and
//! carries that bucket's local depth: how many of those bits the
//! bucket actually distinguishes. The governing depth invariant: any
//! two slots that agree on the low `local_depth` bits of either one
//! name the same bucket page with the same local depth, and a bucket
//! page is named only inside one such congruence class.

use vstd::prelude::*;

use vstd::arithmetic::power2::lemma2_to64;
use vstd::arithmetic::power2::lemma_pow2_adds;
use vstd::arithmetic::power2::lemma_pow2_pos;
use vstd::arithmetic::power2::lemma_pow2_strictly_increases;
use vstd::arithmetic::power2::pow2;

use crate::codec::bytes_to_words;
use crate::codec::bytes_to_words_exec;
use crate::codec::lemma_words_roundtrip;
use crate::codec::lemma_words_to_bytes_len;
use crate::codec::words_to_bytes;
use crate::codec::words_to_bytes_exec;
use crate::error::ExtendibleHashTableError;
use crate::hash_math::bit_at;
use crate::hash_math::cong;
use crate::hash_math::lemma_cong_succ;
use crate::hash_math::lemma_cong_weaken;
use crate::hash_math::lemma_small_mod_self;
use crate::hash_math::pow2_u64;
use crate::hash_math::pow2_usize;

verus! {

/// Widest permitted directory depth.
pub const DIRECTORY_MAX_DEPTH_LIMIT: u32 = 20;

/// The words a directory record decodes from: max depth, global depth,
/// the bucket page id of every slot, then the local depth of every
/// slot.
pub open spec fn directory_from_words(ws: Seq<u64>) -> Option<(u32, u32, Seq<u64>, Seq<u32>)> {
    if ws.len() >= 2 && ws[1] <= ws[0] && ws[0] <= DIRECTORY_MAX_DEPTH_LIMIT as u64 && ws.len()
        == 2 + 2 * pow2(ws[1] as nat) && (forall|i: int|
        2 + pow2(ws[1] as nat) <= i < ws.len() ==> #[trigger] ws[i] <= ws[1]) {
        let n = pow2(ws[1] as nat) as int;
        Some(
            (
                ws[0] as u32,
                ws[1] as u32,
                ws.subrange(2, 2 + n),
                ws.subrange(2 + n, 2 + 2 * n).map_values(|w: u64| w as u32),
            ),
        )
    } else {
        None
    }
}

/// What a directory page's bytes decode to.
pub open spec fn decode_directory(b: Seq<u8>) -> Option<(u32, u32, Seq<u64>, Seq<u32>)> {
    if b.len() % 8 == 0 {
        directory_from_words(bytes_to_words(b))
    } else {
        None
    }
}

/// The depth invariant over a directory's slots: slots congruent at a
/// slot's local depth share its bucket page and depth, and a bucket
/// page is shared only within one congruence class.
pub open spec fn directory_invariant(pids: Seq<u64>, lds: Seq<u32>, gd: nat) -> bool {
    &&& forall|i: int, j: int|
        #![trigger lds[i], lds[j]]
        0 <= i < pids.len() && 0 <= j < pids.len() && cong(i, j, lds[i] as nat) ==> lds[j]
            == lds[i] && pids[j] == pids[i]
    &&& forall|i: int, j: int|
        0 <= i < pids.len() && 0 <= j < pids.len() && (#[trigger] pids[i]) == (
        #[trigger] pids[j]) && pids[i] != 0 ==> cong(i, j, lds[i] as nat)
}

/// In-memory form of the directory page.
pub struct ExtendibleHTableDirectoryPage {
    bucket_page_ids: Vec<u64>,
    local_depths: Vec<u32>,
    max_depth: u32,
    global_depth: u32,
}

impl ExtendibleHTableDirectoryPage {
    /// Bucket page id per slot; 0 stands for none.
    pub closed spec fn pids(self) -> Seq<u64> {
        self.bucket_page_ids@
    }

    /// Local depth per slot.
    pub closed spec fn lds(self) -> Seq<u32> {
        self.local_depths@
    }

    pub closed spec fn spec_max_depth(self) -> u32 {
        self.max_depth
    }

    pub closed spec fn spec_global_depth(self) -> u32 {
        self.global_depth
    }

    /// Structural well-formedness: depths in range, slot vectors of
    /// the directory's size.
    pub open spec fn wf_shape(self) -> bool {
        &&& self.spec_global_depth() <= self.spec_max_depth()
        &&& self.spec_max_depth() <= DIRECTORY_MAX_DEPTH_LIMIT
        &&& self.pids().len() == pow2(self.spec_global_depth() as nat)
        &&& self.lds().len() == self.pids().len()
        &&& forall|i: int|
            0 <= i < self.lds().len() ==> #[trigger] self.lds()[i] <= self.spec_global_depth()
    }

    /// Full well-formedness: the shape plus the depth invariant.
    pub open spec fn wf(self) -> bool {
        &&& self.wf_shape()
        &&& directory_invariant(self.pids(), self.lds(), self.spec_global_depth() as nat)
    }

    pub fn new(max_depth: u32) -> (r: ExtendibleHTableDirectoryPage)
        requires
            max_depth <= DIRECTORY_MAX_DEPTH_LIMIT,
        ensures
            r.wf(),
            r.spec_max_depth() == max_depth,
            r.spec_global_depth() == 0,
            r.pids() == seq![0u64],
            r.lds() == seq![0u32],
    {
        let mut bucket_page_ids: Vec<u64> = Vec::new();
        bucket_page_ids.push(0);
        let mut local_depths: Vec<u32> = Vec::new();
        local_depths.push(0);
        let r = ExtendibleHTableDirectoryPage {
            bucket_page_ids,
            local_depths,
            max_depth,
            global_depth: 0,
        };
        proof {
            lemma2_to64();
            assert(r.pids() =~= seq![0u64]);
            assert(r.lds() =~= seq![0u32]);
            assert forall|i: int, j: int|
                #![trigger r.lds()[i], r.lds()[j]]
                0 <= i < r.pids().len() && 0 <= j < r.pids().len() && cong(
                    i,
                    j,
                    r.lds()[i] as nat,
                ) implies r.lds()[j] == r.lds()[i] && r.pids()[j] == r.pids()[i] by {
                assert(i == 0 && j == 0);
            }
        }
        r
    }

    /// Install the first bucket page of a fresh directory; does
    /// nothing once slots exist.
    pub fn init(&mut self, page_id: u64)
        requires
            old(self).wf_shape(),
        ensures
            *final(self) == *old(self),
    {
        if self.local_depths.len() == 0 {
            proof {
                lemma_pow2_pos(self.spec_global_depth() as nat);
            }
            self.local_depths.push(0);
            self.bucket_page_ids.push(page_id);
        }
    }

    /// The bucket slot the hash selects: its low `global_depth` bits.
    pub fn hash_to_bucket_index(&self, hash: u32) -> (r: usize)
        requires
            self.wf_shape(),
        ensures
            r == (hash as int) % (pow2(self.spec_global_depth() as nat) as int),
            r < self.pids().len(),
    {
        let m = pow2_u64(self.global_depth);
        proof {
            lemma2_to64();
            lemma_pow2_strictly_increases(self.global_depth as nat, 21);
        }
        ((hash as u64) % m) as usize
    }

    pub fn get_bucket_page_id(&self, bucket_index: usize) -> (r: Option<u64>)
        requires
            self.wf_shape(),
            bucket_index < self.pids().len(),
        ensures
            r == (if self.pids()[bucket_index as int] == 0 {
                None::<u64>
            } else {
                Some(self.pids()[bucket_index as int])
            }),
    {
        let pid = self.bucket_page_ids[bucket_index];
        if pid == 0 {
            None
        } else {
            Some(pid)
        }
    }

    /// The index this slot's bucket splits with: the slot differing
    /// from it exactly in bit `local_depth - 1`, or 0 at depth 0.
    pub fn get_split_image_index(&mut self, bucket_index: usize) -> (r: usize)
        requires
            old(self).wf_shape(),
            bucket_index < old(self).pids().len(),
        ensures
            *final(self) == *old(self),
            ({
                let ld = old(self).lds()[bucket_index as int] as nat;
                if ld == 0 {
                    r == 0
                } else if bit_at(bucket_index as int, (ld - 1) as nat) == 1 {
                    r == bucket_index - pow2((ld - 1) as nat)
                } else {
                    r == bucket_index + pow2((ld - 1) as nat)
                }
            }),
    {
        let ld = self.local_depths[bucket_index];
        if ld == 0 {
            return 0;
        }
        let half = pow2_usize(ld - 1);
        proof {
            lemma_pow2_pos((ld - 1) as nat);
            lemma2_to64();
            if ld <= 20 {
                lemma_pow2_strictly_increases((ld - 1) as nat, 20nat);
            }
            lemma_pow2_strictly_increases(self.spec_global_depth() as nat, 21);
        }
        if (bucket_index / half) % 2 == 1 {
            proof {
                assert(bucket_index / half >= 1);
                assert(bucket_index >= half) by (nonlinear_arith)
                    requires
                        half >= 1,
                        bucket_index / half >= 1,
                ;
            }
            bucket_index - half
        } else {
            bucket_index + half
        }
    }

    /// Mask of the bits the directory uses: `2^global_depth - 1`.
    pub fn get_global_depth_mask(&self) -> (r: u32)
        requires
            self.wf_shape(),
        ensures
            r == pow2(self.spec_global_depth() as nat) - 1,
    {
        let m = pow2_u64(self.global_depth);
        proof {
            lemma2_to64();
            lemma_pow2_strictly_increases(self.global_depth as nat, 21);
            lemma_pow2_strictly_increases(21, 32);
        }
        (m - 1) as u32
    }

    /// Mask of the bits this slot's bucket uses: `2^local_depth - 1`.
    pub fn get_local_depth_mask(&mut self, bucket_index: usize) -> (r: usize)
        requires
            old(self).wf_shape(),
            bucket_index < old(self).lds().len(),
        ensures
            *final(self) == *old(self),
            r == pow2(old(self).lds()[bucket_index as int] as nat) - 1,
    {
        let ld = self.local_depths[bucket_index];
        let m = pow2_usize(ld);
        m - 1
    }

    pub fn get_global_depth(&self) -> (r: u32)
        ensures
            r == self.spec_global_depth(),
    {
        self.global_depth
    }

    /// Number of slots: `2^global_depth`.
    pub fn get_size(&self) -> (r: usize)
        requires
            self.wf_shape(),
        ensures
            r == self.pids().len(),
    {
        self.bucket_page_ids.len()
    }

    pub fn get_local_depth(&mut self, bucket_index: usize) -> (r: Option<u32>)
        ensures
            *final(self) == *old(self),
            r == (if bucket_index < old(self).lds().len() {
                Some(old(self).lds()[bucket_index as int])
            } else {
                None::<u32>
            }),
    {
        if bucket_index < self.local_depths.len() {
            Some(self.local_depths[bucket_index])
        } else {
            None
        }
    }

    pub fn set_local_depth(&mut self, bucket_index: usize, local_depth: u32)
        requires
            bucket_index < old(self).lds().len(),
        ensures
            final(self).lds() == old(self).lds().update(bucket_index as int, local_depth),
            final(self).pids() == old(self).pids(),
            final(self).spec_max_depth() == old(self).spec_max_depth(),
            final(self).spec_global_depth() == old(self).spec_global_depth(),
    {
        let mut v = self.local_depths.remove(bucket_index);
        v = local_depth;
        self.local_depths.insert(bucket_index, v);
        proof {
            assert(self.lds() =~= old(self).lds().update(bucket_index as int, local_depth));
        }
    }

    pub fn increment_local_depth(&mut self, bucket_index: usize)
        requires
            bucket_index < old(self).lds().len(),
            old(self).lds()[bucket_index as int] < u32::MAX,
        ensures
            final(self).lds() == old(self).lds().update(
                bucket_index as int,
                (old(self).lds()[bucket_index as int] + 1) as u32,
            ),
            final(self).pids() == old(self).pids(),
            final(self).spec_max_depth() == old(self).spec_max_depth(),
            final(self).spec_global_depth() == old(self).spec_global_depth(),
    {
        let v = self.local_depths[bucket_index];
        self.set_local_depth(bucket_index, v + 1);
    }

    /// Lower this slot's local depth by one, saturating at zero.
    pub fn decrement_local_depth(&mut self, bucket_index: usize)
        requires
            bucket_index < old(self).lds().len(),
        ensures
            final(self).lds() == old(self).lds().update(
                bucket_index as int,
                (if old(self).lds()[bucket_index as int] > 0 {
                    (old(self).lds()[bucket_index as int] - 1) as u32
                } else {
                    0u32
                }),
            ),
            final(self).pids() == old(self).pids(),
            final(self).spec_max_depth() == old(self).spec_max_depth(),
            final(self).spec_global_depth() == old(self).spec_global_depth(),
    {
        let v = self.local_depths[bucket_index];
        if v > 0 {
            self.set_local_depth(bucket_index, v - 1);
        } else {
            self.set_local_depth(bucket_index, 0);
        }
    }

    pub fn set_bucket_page_id(&mut self, bucket_index: usize, bucket_page_id: u64)
        requires
            bucket_index < old(self).pids().len(),
        ensures
            final(self).pids() == old(self).pids().update(bucket_index as int, bucket_page_id),
            final(self).lds() == old(self).lds(),
            final(self).spec_max_depth() == old(self).spec_max_depth(),
            final(self).spec_global_depth() == old(self).spec_global_depth(),
    {
        let mut v = self.bucket_page_ids.remove(bucket_index);
        v = bucket_page_id;
        self.bucket_page_ids.insert(bucket_index, v);
        proof {
            assert(self.pids() =~= old(self).pids().update(bucket_index as int, bucket_page_id));
        }
    }

    /// Whether the directory cannot grow any further.
    pub fn is_full(&mut self, _bucket_index: usize) -> (r: bool)
        ensures
            *final(self) == *old(self),
            r == (old(self).spec_global_depth() == old(self).spec_max_depth()),
    {
        self.global_depth == self.max_depth
    }

    /// Double the directory: slot `i + old_size` receives slot `i`'s
    /// bucket page and local depth, and the global depth grows by one.
    /// Fails, changing nothing, when the directory is at its maximum
    /// depth.
    pub fn increment_global_depth(&mut self) -> (r: Result<(), ExtendibleHashTableError>)
        requires
            old(self).wf(),
        ensures
            final(self).wf(),
            final(self).spec_max_depth() == old(self).spec_max_depth(),
            old(self).spec_global_depth() == old(self).spec_max_depth() ==> r == Err::<
                (),
                ExtendibleHashTableError,
            >(ExtendibleHashTableError::DirectoryMaxSizeReached) && *final(self) == *old(self),
            old(self).spec_global_depth() < old(self).spec_max_depth() ==> r == Ok::<
                (),
                ExtendibleHashTableError,
            >(()) && {
                &&& final(self).spec_global_depth() == old(self).spec_global_depth() + 1
                &&& final(self).pids() == old(self).pids() + old(self).pids()
                &&& final(self).lds() == old(self).lds() + old(self).lds()
            },
    {
        if self.global_depth == self.max_depth {
            return Err(ExtendibleHashTableError::DirectoryMaxSizeReached);
        }
        let ghost pre = *old(self);
        let old_size = self.bucket_page_ids.len();
        let mut i: usize = 0;
        while i < old_size
            invariant
                i <= old_size,
                pre.wf(),
                old_size == pre.pids().len(),
                old_size == pre.lds().len(),
                self.spec_max_depth() == pre.spec_max_depth(),
                self.spec_global_depth() == pre.spec_global_depth(),
                self.pids() == pre.pids() + pre.pids().take(i as int),
                self.lds() == pre.lds() + pre.lds().take(i as int),
            decreases old_size - i,
        {
            let pid = self.bucket_page_ids[i];
            let ld = self.local_depths[i];
            self.bucket_page_ids.push(pid);
            self.local_depths.push(ld);
            proof {
                assert(self.pids() =~= pre.pids() + pre.pids().take(i + 1));
                assert(self.lds() =~= pre.lds() + pre.lds().take(i + 1));
            }
            i = i + 1;
        }
        self.global_depth = self.global_depth + 1;
        proof {
            assert(pre.pids().take(old_size as int) =~= pre.pids());
            assert(pre.lds().take(old_size as int) =~= pre.lds());
            let gd = pre.spec_global_depth() as nat;
            lemma_pow2_adds(gd, 1);
            lemma2_to64();
            lemma_pow2_pos(gd);
            let pids = self.pids();
            let lds = self.lds();
            let n = pow2(gd) as int;
            assert(pids.len() == 2 * n);
            // Each new slot mirrors the slot `2^gd` below it.
            assert forall|a: int| 0 <= a < 2 * n implies #[trigger] lds[a] == pre.lds()[a % n]
                && pids[a] == pre.pids()[a % n] && a % n == a % (pow2(gd) as int) by {
                if a < n {
                    lemma_small_mod_self(a, gd);
                } else {
                    crate::hash_math::lemma_upper_half_mod(a, gd);
                }
            }
            assert forall|a: int, b: int|
                #![trigger lds[a], lds[b]]
                0 <= a < pids.len() && 0 <= b < pids.len() && cong(a, b, lds[a] as nat) implies
                lds[b] == lds[a] && pids[b] == pids[a] by {
                let a0 = a % n;
                let b0 = b % n;
                let da = lds[a] as nat;
                assert(da <= gd);
                lemma_pow2_pos(gd);
                vstd::arithmetic::div_mod::lemma_mod_bound(a, n);
                vstd::arithmetic::div_mod::lemma_mod_bound(b, n);
                assert(cong(a, a0, gd)) by {
                    lemma_mod_mod_self(a, gd);
                }
                assert(cong(b, b0, gd)) by {
                    lemma_mod_mod_self(b, gd);
                }
                lemma_cong_weaken(a, a0, da, gd);
                lemma_cong_weaken(b, b0, da, gd);
                assert(cong(a0, b0, da));
                assert(pre.lds()[a0] == lds[a]);
                assert(pre.lds()[b0] == lds[b] && pre.pids()[b0] == pre.pids()[a0]);
            }
            assert forall|a: int, b: int|
                0 <= a < pids.len() && 0 <= b < pids.len() && (#[trigger] pids[a]) == (
                #[trigger] pids[b]) && pids[a] != 0 implies cong(a, b, lds[a] as nat) by {
                let a0 = a % n;
                let b0 = b % n;
                let da = lds[a] as nat;
                vstd::arithmetic::div_mod::lemma_mod_bound(a, n);
                vstd::arithmetic::div_mod::lemma_mod_bound(b, n);
                assert(lds =~= pre.lds() + pre.lds());
                assert(pids =~= pre.pids() + pre.pids());
                if a < n {
                    lemma_small_mod_self(a, gd);
                    assert(a0 == a);
                } else {
                    crate::hash_math::lemma_upper_half_mod(a, gd);
                    assert(a0 == a - n);
                }
                if b < n {
                    lemma_small_mod_self(b, gd);
                    assert(b0 == b);
                } else {
                    crate::hash_math::lemma_upper_half_mod(b, gd);
                    assert(b0 == b - n);
                }
                assert(lds[a] == pre.lds()[a0] && pids[a] == pre.pids()[a0]);
                assert(lds[b] == pre.lds()[b0] && pids[b] == pre.pids()[b0]);
                assert(pre.pids()[a0] == pre.pids()[b0] && pre.pids()[a0] != 0);
                assert(cong(a0, b0, pre.lds()[a0] as nat));
                assert(cong(a, a0, gd)) by {
                    lemma_mod_mod_self(a, gd);
                }
                assert(cong(b, b0, gd)) by {
                    lemma_mod_mod_self(b, gd);
                }
                lemma_cong_weaken(a, a0, da, gd);
                lemma_cong_weaken(b, b0, da, gd);
            }
        }
        Ok(())
    }

    /// Halve the directory. Callable only when every bucket uses
    /// strictly fewer bits than the global depth, so the two halves
    /// agree slot for slot.
    pub fn decrement_global_depth(&mut self)
        requires
            old(self).wf(),
            old(self).spec_global_depth() >= 1,
            forall|i: int|
                0 <= i < old(self).lds().len() ==> #[trigger] old(self).lds()[i] < old(
                    self,
                ).spec_global_depth(),
        ensures
            final(self).wf(),
            final(self).spec_max_depth() == old(self).spec_max_depth(),
            final(self).spec_global_depth() == old(self).spec_global_depth() - 1,
            final(self).pids() == old(self).pids().take(
                pow2((old(self).spec_global_depth() - 1) as nat) as int,
            ),
            final(self).lds() == old(self).lds().take(
                pow2((old(self).spec_global_depth() - 1) as nat) as int,
            ),
    {
        let ghost pre = *old(self);
        let gd = self.global_depth;
        let half = pow2_usize(gd - 1);
        proof {
            lemma_pow2_adds((gd - 1) as nat, 1);
            lemma2_to64();
            lemma_pow2_pos((gd - 1) as nat);
            lemma_pow2_strictly_increases((gd - 1) as nat, gd as nat);
        }
        self.bucket_page_ids.truncate(half);
        self.local_depths.truncate(half);
        self.global_depth = gd - 1;
        proof {
            let n = pow2((gd - 1) as nat) as int;
            assert(self.pids() =~= pre.pids().take(n));
            assert(self.lds() =~= pre.lds().take(n));
            assert forall|a: int, b: int|
                #![trigger self.lds()[a], self.lds()[b]]
                0 <= a < self.pids().len() && 0 <= b < self.pids().len() && cong(
                    a,
                    b,
                    self.lds()[a] as nat,
                ) implies self.lds()[b] == self.lds()[a] && self.pids()[b] == self.pids()[a] by {
                assert(pre.lds()[a] == self.lds()[a]);
            }
        }
    }

    /// Split the bucket of `bucket_index`, which uses `d` bits, into
    /// two buckets using `d + 1`: the slots of its class whose bit `d`
    /// matches the index keep the old bucket page, the others take
    /// `new_pid`, and the whole class moves to depth `d + 1`.
    pub fn split_slot(&mut self, bucket_index: usize, new_pid: u64)
        requires
            old(self).wf(),
            bucket_index < old(self).pids().len(),
            old(self).lds()[bucket_index as int] < old(self).spec_global_depth(),
            old(self).pids()[bucket_index as int] != 0,
            new_pid != 0,
            forall|j: int| 0 <= j < old(self).pids().len() ==> #[trigger] old(self).pids()[j] != new_pid,
        ensures
            final(self).wf(),
            final(self).spec_max_depth() == old(self).spec_max_depth(),
            final(self).spec_global_depth() == old(self).spec_global_depth(),
            final(self).pids().len() == old(self).pids().len(),
            final(self).lds().len() == old(self).lds().len(),
            ({
                let d = old(self).lds()[bucket_index as int] as nat;
                forall|j: int|
                    0 <= j < old(self).pids().len() ==> (if cong(j, bucket_index as int, d) {
                        final(self).lds()[j] == old(self).lds()[bucket_index as int] + 1 && (
                        #[trigger] final(self).pids()[j]) == (if cong(
                            j,
                            bucket_index as int,
                            d + 1,
                        ) {
                            old(self).pids()[bucket_index as int]
                        } else {
                            new_pid
                        })
                    } else {
                        final(self).lds()[j] == old(self).lds()[j] && final(self).pids()[j] == old(
                            self,
                        ).pids()[j]
                    })
            }),
    {
        let ghost pre = *old(self);
        let d = self.local_depths[bucket_index];
        let m = pow2_usize(d);
        let m2 = pow2_usize(d + 1);
        proof {
            lemma_pow2_adds(d as nat, 1);
            lemma2_to64();
            lemma_pow2_pos(d as nat);
        }
        let n = self.bucket_page_ids.len();
        let bi_lo = bucket_index % m;
        let bi_lo2 = bucket_index % m2;
        let mut j: usize = 0;
        while j < n
            invariant
                j <= n,
                n == pre.pids().len(),
                m == pow2(d as nat),
                m2 == pow2(d as nat + 1),
                m >= 1,
                m2 >= 1,
                d == pre.lds()[bucket_index as int],
                bucket_index < n,
                bi_lo == (bucket_index as int) % (pow2(d as nat) as int),
                bi_lo2 == (bucket_index as int) % (pow2(d as nat + 1) as int),
                self.spec_max_depth() == pre.spec_max_depth(),
                self.spec_global_depth() == pre.spec_global_depth(),
                self.pids().len() == n,
                self.lds().len() == n,
                pre.wf(),
                d < pre.spec_global_depth(),
                forall|t: int|
                    j <= t < n ==> self.lds()[t] == pre.lds()[t] && #[trigger] self.pids()[t]
                        == pre.pids()[t],
                forall|t: int|
                    0 <= t < j && cong(t, bucket_index as int, d as nat) ==> self.lds()[t]
                        == pre.lds()[bucket_index as int] + 1 && (#[trigger] self.pids()[t]) == (
                    if cong(t, bucket_index as int, d as nat + 1) {
                        pre.pids()[bucket_index as int]
                    } else {
                        new_pid
                    }),
                forall|t: int|
                    0 <= t < j && !cong(t, bucket_index as int, d as nat) ==> self.lds()[t]
                        == pre.lds()[t] && (#[trigger] self.pids()[t]) == pre.pids()[t],
            decreases n - j,
        {
            let ghost at_entry = *self;
            if j % m == bi_lo {
                proof {
                    assert(cong(j as int, bucket_index as int, d as nat));
                    assert(pre.lds()[j as int] == d && pre.pids()[j as int] == pre.pids()[
                        bucket_index as int
                    ]);
                    assert(d < pre.spec_global_depth());
                }
                self.set_local_depth(j, d + 1);
                if j % m2 != bi_lo2 {
                    self.set_bucket_page_id(j, new_pid);
                }
            } else {
                proof {
                    assert(!cong(j as int, bucket_index as int, d as nat));
                }
            }
            proof {
                let bi = bucket_index as int;
                let dn = d as nat;
                assert(self.lds().len() == n && self.pids().len() == n);
                assert forall|t: int| 0 <= t < j + 1 implies ((cong(t, bi, dn) ==> self.lds()[t]
                    == pre.lds()[bi] + 1 && (self.pids()[t]) == (if cong(t, bi, dn + 1) {
                    pre.pids()[bi]
                } else {
                    new_pid
                })) && (!cong(t, bi, dn) ==> self.lds()[t] == pre.lds()[t] && self.pids()[t]
                    == pre.pids()[t])) by {
                    if t == j as int {
                        if cong(t, bi, dn) {
                            assert(self.lds()[t] == d + 1);
                            if cong(t, bi, dn + 1) {
                                assert((j as int) % (pow2(dn + 1) as int) == bi_lo2 as int);
                                assert(self.pids()[t] == at_entry.pids()[t]);
                                assert(at_entry.pids()[t] == pre.pids()[t]);
                                assert(pre.pids()[t] == pre.pids()[bi]);
                            } else {
                                assert((j as int) % (pow2(dn + 1) as int) != bi_lo2 as int);
                                assert(self.pids()[t] == new_pid);
                            }
                        } else {
                            assert(self.lds()[t] == at_entry.lds()[t]);
                            assert(self.pids()[t] == at_entry.pids()[t]);
                            assert(at_entry.lds()[t] == pre.lds()[t]);
                            assert(at_entry.pids()[t] == pre.pids()[t]);
                        }
                    } else {
                        assert(self.lds()[t] == at_entry.lds()[t]);
                        assert(self.pids()[t] == at_entry.pids()[t]);
                    }
                }
                assert forall|t: int| j + 1 <= t < n implies self.lds()[t] == pre.lds()[t]
                    && self.pids()[t] == pre.pids()[t] by {
                    assert(self.lds()[t] == at_entry.lds()[t]);
                    assert(self.pids()[t] == at_entry.pids()[t]);
                    assert(at_entry.lds()[t] == pre.lds()[t]);
                    assert(at_entry.pids()[t] == pre.pids()[t]);
                }
            }
            j = j + 1;
        }
        proof {
            let post = *self;
            let gd = pre.spec_global_depth() as nat;
            let dn = d as nat;
            let bi = bucket_index as int;
            assert(d == pre.lds()[bi]);
            assert forall|t: int| 0 <= t < n && cong(t, bi, dn) implies post.lds()[t] == d + 1
                && post.pids()[t] == (if cong(t, bi, dn + 1) {
                pre.pids()[bi]
            } else {
                new_pid
            }) by {
                let probe = self.pids()[t];
                assert(post.pids()[t] == probe);
                assert(post.lds()[t] == self.lds()[t]);
            }
            assert forall|t: int| 0 <= t < n && !cong(t, bi, dn) implies post.lds()[t]
                == pre.lds()[t] && post.pids()[t] == pre.pids()[t] by {
                let probe = self.pids()[t];
                assert(post.pids()[t] == probe);
                assert(post.lds()[t] == self.lds()[t]);
            }
            // Everything in the old class had depth `d` and the old
            // bucket page; nothing outside it shares that page.
            assert forall|t: int|
                0 <= t < n && cong(t, bi, dn) implies pre.lds()[t] == d && pre.pids()[t]
                == pre.pids()[bi] by {}
            // Shape: depths stay within the global depth.
            assert forall|t: int| 0 <= t < n implies #[trigger] post.lds()[t] <= gd by {
                if cong(t, bi, dn) {
                } else {
                }
            }
            // The depth invariant, case by case.
            assert forall|a: int, b: int|
                #![trigger post.lds()[a], post.lds()[b]]
                0 <= a < n && 0 <= b < n && cong(a, b, post.lds()[a] as nat) implies
                post.lds()[b] == post.lds()[a] && post.pids()[b] == post.pids()[a] by {
                if cong(a, bi, dn) {
                    assert(post.lds()[a] == d + 1);
                    lemma_cong_weaken(a, b, dn, dn + 1);
                    assert(cong(b, a, dn));
                    assert(cong(b, bi, dn));
                    assert(post.lds()[b] == d + 1);
                    lemma_cong_succ(a, b, dn);
                    lemma_cong_succ(a, bi, dn);
                    lemma_cong_succ(b, bi, dn);
                    assert(post.pids()[b] == post.pids()[a]);
                } else {
                    let da = pre.lds()[a] as nat;
                    assert(post.lds()[a] == pre.lds()[a]);
                    if cong(b, bi, dn) {
                        assert(pre.lds()[b] == d);
                        assert(cong(b, a, da));
                        assert(pre.lds()[a] == pre.lds()[b]);
                        assert(cong(a, b, dn));
                        assert(cong(a, bi, dn));
                        assert(false);
                    }
                    assert(pre.lds()[b] == pre.lds()[a] && pre.pids()[b] == pre.pids()[a]);
                }
            }
            assert forall|a: int, b: int|
                0 <= a < n && 0 <= b < n && (#[trigger] post.pids()[a]) == (
                #[trigger] post.pids()[b]) && post.pids()[a] != 0 implies cong(
                a,
                b,
                post.lds()[a] as nat,
            ) by {
                let in_a = cong(a, bi, dn);
                let in_b = cong(b, bi, dn);
                if in_a && in_b {
                    lemma_cong_succ(a, bi, dn);
                    lemma_cong_succ(b, bi, dn);
                    lemma_cong_succ(a, b, dn);
                } else if in_a && !in_b {
                    if post.pids()[a] == new_pid {
                        assert(pre.pids()[b] == new_pid);
                        assert(false);
                    } else {
                        assert(post.pids()[a] == pre.pids()[bi]);
                        assert(pre.pids()[b] == pre.pids()[bi] && pre.pids()[bi] != 0);
                        assert(cong(b, bi, pre.lds()[b] as nat));
                        assert(pre.lds()[b] == pre.lds()[bi]);
                        assert(false);
                    }
                } else if !in_a && in_b {
                    if post.pids()[b] == new_pid {
                        assert(pre.pids()[a] == new_pid);
                        assert(false);
                    } else {
                        assert(post.pids()[b] == pre.pids()[bi]);
                        assert(pre.pids()[a] == pre.pids()[bi] && pre.pids()[bi] != 0);
                        assert(cong(a, bi, pre.lds()[a] as nat));
                        assert(pre.lds()[a] == pre.lds()[bi]);
                        assert(false);
                    }
                } else {
                    assert(post.pids()[a] == pre.pids()[a] && post.pids()[b] == pre.pids()[b]);
                    assert(cong(a, b, pre.lds()[a] as nat));
                }
            }
        }
    }

    /// Whether slot `a` agrees with every other slot as the depth
    /// invariant demands.
    pub open spec fn slot_ok(self, a: int) -> bool {
        &&& forall|b: int|
            #![trigger self.lds()[b]]
            0 <= b < self.pids().len() && cong(a, b, self.lds()[a] as nat) ==> self.lds()[b]
                == self.lds()[a] && self.pids()[b] == self.pids()[a]
        &&& forall|b: int|
            0 <= b < self.pids().len() && (#[trigger] self.pids()[b]) == self.pids()[a]
                && self.pids()[a] != 0 ==> cong(a, b, self.lds()[a] as nat)
    }

    /// Check one slot against every other.
    fn check_slot(&self, i: usize) -> (r: bool)
        requires
            self.wf_shape(),
            i < self.pids().len(),
        ensures
            r == self.slot_ok(i as int),
    {
        let n = self.bucket_page_ids.len();
        let ld = self.local_depths[i];
        let m = pow2_usize(ld);
        let i_lo = i % m;
        let pid = self.bucket_page_ids[i];
        let mut j: usize = 0;
        while j < n
            invariant
                j <= n,
                i < n,
                n == self.pids().len(),
                self.wf_shape(),
                ld == self.lds()[i as int],
                m == pow2(ld as nat),
                m >= 1,
                i_lo == (i as int) % (pow2(ld as nat) as int),
                pid == self.pids()[i as int],
                forall|b: int|
                    #![trigger self.lds()[b]]
                    0 <= b < j && cong(i as int, b, ld as nat) ==> self.lds()[b] == ld
                        && self.pids()[b] == pid,
                forall|b: int|
                    0 <= b < j && (#[trigger] self.pids()[b]) == pid && pid != 0 ==> cong(
                        i as int,
                        b,
                        ld as nat,
                    ),
            decreases n - j,
        {
            let congruent = j % m == i_lo;
            if congruent {
                if self.local_depths[j] != ld || self.bucket_page_ids[j] != pid {
                    proof {
                        assert(cong(i as int, j as int, ld as nat));
                        assert(!self.slot_ok(i as int));
                    }
                    return false;
                }
            } else if pid != 0 && self.bucket_page_ids[j] == pid {
                proof {
                    assert(!cong(i as int, j as int, ld as nat));
                    assert(!self.slot_ok(i as int));
                }
                return false;
            }
            proof {
                if congruent {
                    assert(cong(i as int, j as int, ld as nat));
                    assert(self.lds()[j as int] == ld && self.pids()[j as int] == pid);
                } else {
                    assert(!cong(i as int, j as int, ld as nat));
                }
                assert forall|b: int|
                    #![trigger self.lds()[b]]
                    0 <= b < j + 1 && cong(i as int, b, ld as nat) implies self.lds()[b] == ld
                    && self.pids()[b] == pid by {
                    let probe = self.pids()[b];
                }
                assert forall|b: int|
                    0 <= b < j + 1 && (#[trigger] self.pids()[b]) == pid && pid != 0 implies cong(
                        i as int,
                        b,
                        ld as nat,
                    ) by {
                    let probe = self.lds()[b];
                }
            }
            j = j + 1;
        }
        true
    }

    /// Check the depth invariant over the slots: slots congruent at a
    /// slot's local depth share its bucket page and depth, and a
    /// bucket page is shared only within one congruence class. Under
    /// that invariant every bucket page id occurs exactly
    /// `2^(global_depth - local_depth)` times.
    pub fn verify_integrity(&self) -> (r: bool)
        requires
            self.wf_shape(),
        ensures
            r == directory_invariant(
                self.pids(),
                self.lds(),
                self.spec_global_depth() as nat,
            ),
    {
        let n = self.bucket_page_ids.len();
        let mut i: usize = 0;
        while i < n
            invariant
                i <= n,
                n == self.pids().len(),
                self.wf_shape(),
                forall|a: int| 0 <= a < i ==> #[trigger] self.slot_ok(a),
            decreases n - i,
        {
            if !self.check_slot(i) {
                proof {
                    assert(!self.slot_ok(i as int));
                    if directory_invariant(
                        self.pids(),
                        self.lds(),
                        self.spec_global_depth() as nat,
                    ) {
                        assert forall|b: int|
                            #![trigger self.lds()[b]]
                            0 <= b < self.pids().len() && cong(
                                i as int,
                                b,
                                self.lds()[i as int] as nat,
                            ) implies self.lds()[b] == self.lds()[i as int] && self.pids()[b]
                            == self.pids()[i as int] by {
                            let probe = self.lds()[i as int];
                        }
                        assert forall|b: int|
                            0 <= b < self.pids().len() && (#[trigger] self.pids()[b])
                                == self.pids()[i as int] && self.pids()[i as int] != 0 implies
                            cong(i as int, b, self.lds()[i as int] as nat) by {
                            let probe = self.lds()[i as int];
                            let probe2 = self.lds()[b];
                        }
                        assert(self.slot_ok(i as int));
                        assert(false);
                    }
                }
                return false;
            }
            i = i + 1;
        }
        proof {
            assert forall|a: int, b: int|
                #![trigger self.lds()[a], self.lds()[b]]
                0 <= a < self.pids().len() && 0 <= b < self.pids().len() && cong(
                    a,
                    b,
                    self.lds()[a] as nat,
                ) implies self.lds()[b] == self.lds()[a] && self.pids()[b] == self.pids()[a] by {
                assert(self.slot_ok(a));
            }
            assert forall|a: int, b: int|
                0 <= a < self.pids().len() && 0 <= b < self.pids().len() && (
                #[trigger] self.pids()[a]) == (#[trigger] self.pids()[b]) && self.pids()[a] != 0
                implies cong(a, b, self.lds()[a] as nat) by {
                assert(self.slot_ok(a));
                let probe = self.lds()[b];
            }
        }
        true
    }

    /// Serialise this record; the bytes decode back to exactly this
    /// record's content.
    pub fn to_bytes(&self) -> (r: Vec<u8>)
        requires
            self.wf_shape(),
        ensures
            decode_directory(r@) == Some(
                (self.spec_max_depth(), self.spec_global_depth(), self.pids(), self.lds()),
            ),
    {
        let mut words: Vec<u64> = Vec::new();
        words.push(self.max_depth as u64);
        words.push(self.global_depth as u64);
        let n = self.bucket_page_ids.len();
        let mut i: usize = 0;
        while i < n
            invariant
                i <= n,
                n == self.pids().len(),
                self.wf_shape(),
                words@.len() == 2 + i,
                words@[0] == self.spec_max_depth() as u64,
                words@[1] == self.spec_global_depth() as u64,
                forall|j: int| 0 <= j < i ==> words@[j + 2] == self.pids()[j],
            decreases n - i,
        {
            words.push(self.bucket_page_ids[i]);
            i = i + 1;
        }
        let mut k: usize = 0;
        while k < n
            invariant
                k <= n,
                n == self.pids().len(),
                self.wf_shape(),
                words@.len() == 2 + n + k,
                words@[0] == self.spec_max_depth() as u64,
                words@[1] == self.spec_global_depth() as u64,
                forall|j: int| 0 <= j < n ==> words@[j + 2] == self.pids()[j],
                forall|j: int| 0 <= j < k ==> words@[j + 2 + n] == self.lds()[j] as u64,
            decreases n - k,
        {
            words.push(self.local_depths[k] as u64);
            k = k + 1;
        }
        let out = words_to_bytes_exec(&words);
        proof {
            lemma_words_roundtrip(words@);
            lemma_words_to_bytes_len(words@);
            let ws = words@;
            let nn = pow2(self.spec_global_depth() as nat) as int;
            assert(ws.subrange(2, 2 + nn) =~= self.pids());
            assert(forall|j: int|
                2 + nn <= j < ws.len() ==> #[trigger] ws[j] == self.lds()[j - 2 - nn] as u64);
            assert(forall|j: int| 2 + nn <= j < ws.len() ==> #[trigger] ws[j] <= ws[1]);
            assert(ws.subrange(2 + nn, 2 + 2 * nn).map_values(|w: u64| w as u32)
                =~= self.lds());
        }
        out
    }

    /// Rebuild a record from page bytes known to hold one.
    pub fn from_bytes(bytes: &Vec<u8>) -> (r: ExtendibleHTableDirectoryPage)
        requires
            decode_directory(bytes@) is Some,
        ensures
            r.wf_shape(),
            Some((r.spec_max_depth(), r.spec_global_depth(), r.pids(), r.lds()))
                == decode_directory(bytes@),
    {
        let words_opt = bytes_to_words_exec(bytes);
        let words = match words_opt {
            Some(w) => w,
            None => Vec::new(),
        };
        let max_depth = words[0] as u32;
        let global_depth = words[1] as u32;
        let wlen = words.len();
        let half = (wlen - 2) / 2;
        proof {
            assert(words@.len() == 2 + 2 * pow2(global_depth as nat));
            assert(half == pow2(global_depth as nat));
        }
        let mut bucket_page_ids: Vec<u64> = Vec::new();
        let mut i: usize = 0;
        while i < half
            invariant
                i <= half,
                2 + 2 * half == words@.len(),
                wlen == words@.len(),
                bucket_page_ids@.len() == i,
                forall|j: int| 0 <= j < i ==> bucket_page_ids@[j] == words@[j + 2],
            decreases half - i,
        {
            bucket_page_ids.push(words[2 + i]);
            i = i + 1;
        }
        let mut local_depths: Vec<u32> = Vec::new();
        let mut k: usize = 0;
        while k < half
            invariant
                k <= half,
                2 + 2 * half == words@.len(),
                wlen == words@.len(),
                local_depths@.len() == k,
                forall|j: int| 0 <= j < k ==> local_depths@[j] == words@[j + 2 + half] as u32,
            decreases half - k,
        {
            local_depths.push(words[2 + half + k] as u32);
            k = k + 1;
        }
        let r = ExtendibleHTableDirectoryPage {
            bucket_page_ids,
            local_depths,
            max_depth,
            global_depth,
        };
        proof {
            let ws = words@;
            let nn = pow2(global_depth as nat) as int;
            assert(r.pids() =~= ws.subrange(2, 2 + nn));
            assert(r.lds() =~= ws.subrange(2 + nn, 2 + 2 * nn).map_values(|w: u64| w as u32));
            assert forall|j: int| 0 <= j < r.lds().len() implies #[trigger] r.lds()[j]
                <= r.spec_global_depth() by {
                assert(ws[j + 2 + nn] <= ws[1]);
            }
        }
        r
    }
}

/// Congruence of a number with its remainder at a power of two.
proof fn lemma_mod_mod_self(a: int, d: nat)
    ensures
        cong(a, a % (pow2(d) as int), d),
{
    lemma_pow2_pos(d);
    vstd::arithmetic::div_mod::lemma_mod_twice(a, pow2(d) as int);
}


/// Occurrences of `p` among the first `n` entries of `pids`.
pub open spec fn count_occurrences(pids: Seq<u64>, p: u64, n: int) -> nat
    decreases n,
{
    if n <= 0 {
        0
    } else {
        count_occurrences(pids, p, n - 1) + (if pids[n - 1] == p {
            1nat
        } else {
            0nat
        })
    }
}

/// Indices in `[0, n)` congruent to `c` modulo `2^d`.
pub open spec fn count_congruent(n: int, c: int, d: nat) -> nat
    decreases n,
{
    if n <= 0 {
        0
    } else {
        count_congruent(n - 1, c, d) + (if (n - 1) % (pow2(d) as int) == c {
            1nat
        } else {
            0nat
        })
    }
}

/// Among fewer than `2^d` consecutive indices from zero, exactly the
/// index `c` itself is congruent to `c`.
proof fn lemma_count_congruent_small(n: int, c: int, d: nat)
    requires
        0 <= n <= pow2(d),
        0 <= c < pow2(d),
    ensures
        count_congruent(n, c, d) == (if c < n {
            1nat
        } else {
            0nat
        }),
    decreases n,
{
    lemma_pow2_pos(d);
    if n > 0 {
        lemma_count_congruent_small(n - 1, c, d);
        lemma_small_mod_self(n - 1, d);
    }
}

/// Counting over a window shifted by a multiple of `2^d` counts the
/// same congruence class.
proof fn lemma_count_congruent_shift(k: int, n: int, c: int, d: nat)
    requires
        0 <= k,
        0 <= n,
        k % (pow2(d) as int) == 0,
    ensures
        count_congruent(k + n, c, d) == count_congruent(k, c, d) + count_congruent(n, c, d),
    decreases n,
{
    lemma_pow2_pos(d);
    if n > 0 {
        lemma_count_congruent_shift(k, n - 1, c, d);
        let m = pow2(d) as int;
        vstd::arithmetic::div_mod::lemma_fundamental_div_mod(k, m);
        assert(k == m * (k / m));
        vstd::arithmetic::div_mod::lemma_mod_multiples_vanish(k / m, n - 1, m);
        assert(m * (k / m) + (n - 1) == k + n - 1);
        assert((k + n - 1) % m == (n - 1) % m);
    }
}

/// Among `2^g` consecutive indices, a congruence class modulo `2^d`
/// has exactly `2^(g - d)` members.
proof fn lemma_count_congruent_pow2(g: nat, c: int, d: nat)
    requires
        d <= g,
        0 <= c < pow2(d),
    ensures
        count_congruent(pow2(g) as int, c, d) == pow2((g - d) as nat),
    decreases g - d,
{
    lemma_pow2_pos(d);
    lemma_pow2_pos(g);
    if g == d {
        lemma_count_congruent_small(pow2(g) as int, c, d);
        assert(pow2((g - d) as nat) == 1) by {
            vstd::arithmetic::power2::lemma2_to64();
        }
    } else {
        let half = pow2((g - 1) as nat) as int;
        lemma_pow2_adds((g - 1) as nat, 1);
        assert(pow2(1) == 2) by {
            vstd::arithmetic::power2::lemma2_to64();
        }
        lemma_pow2_adds(d, (g - 1 - d) as nat);
        assert(half == pow2((g - 1 - d) as nat) * pow2(d)) by {
            lemma_pow2_adds((g - 1 - d) as nat, d);
        }
        vstd::arithmetic::div_mod::lemma_mod_multiples_basic(
            pow2((g - 1 - d) as nat) as int,
            pow2(d) as int,
        );
        assert(half % (pow2(d) as int) == 0);
        lemma_count_congruent_shift(half, half, c, d);
        lemma_count_congruent_pow2((g - 1) as nat, c, d);
        lemma_pow2_adds((g - 1 - d) as nat, 1);
    }
}

/// With the depth invariant, the slots naming `pids[i]` are exactly
/// the slots congruent to `i` at its local depth.
proof fn lemma_count_matches_class(pids: Seq<u64>, lds: Seq<u32>, i: int, n: int, gd: nat)
    requires
        pids.len() == lds.len(),
        0 <= i < pids.len(),
        pids[i] != 0,
        0 <= n <= pids.len(),
        directory_invariant(pids, lds, gd),
    ensures
        count_occurrences(pids, pids[i], n) == count_congruent(
            n,
            i % (pow2(lds[i] as nat) as int),
            lds[i] as nat,
        ),
    decreases n,
{
    lemma_pow2_pos(lds[i] as nat);
    if n > 0 {
        lemma_count_matches_class(pids, lds, i, n - 1, gd);
        let d = lds[i] as nat;
        let c = i % (pow2(d) as int);
        if pids[n - 1] == pids[i] {
            assert(cong(i, n - 1, d));
            vstd::arithmetic::div_mod::lemma_mod_twice(i, pow2(d) as int);
        } else {
            if (n - 1) % (pow2(d) as int) == c {
                assert(cong(i, n - 1, d)) by {
                    vstd::arithmetic::div_mod::lemma_mod_twice(i, pow2(d) as int);
                }
                let probe = lds[n - 1];
                let probe2 = lds[i];
                assert(lds[n - 1] == lds[i] && pids[n - 1] == pids[i]);
                assert(false);
            }
        }
    }
}

/// Every installed bucket page id appears exactly
/// `2^(global_depth - local_depth)` times among the directory's slots.
pub proof fn lemma_bucket_occurrence_count(dir: ExtendibleHTableDirectoryPage, i: int)
    requires
        dir.wf(),
        0 <= i < dir.pids().len(),
        dir.pids()[i] != 0,
    ensures
        count_occurrences(dir.pids(), dir.pids()[i], dir.pids().len() as int) == pow2(
            (dir.spec_global_depth() - dir.lds()[i]) as nat,
        ),
{
    let d = dir.lds()[i] as nat;
    let gd = dir.spec_global_depth() as nat;
    lemma_pow2_pos(d);
    vstd::arithmetic::div_mod::lemma_mod_bound(i, pow2(d) as int);
    lemma_count_matches_class(dir.pids(), dir.lds(), i, dir.pids().len() as int, gd);
    lemma_count_congruent_pow2(gd, i % (pow2(d) as int), d);
}

} // verus!
