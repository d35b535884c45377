//! Extendible hash table over buffer-pool pages.
//!
//! The table's persistent state is three kinds of page records living
//! in the buffer pool: one header page naming the directory page, one
//! directory page routing hash values to bucket pages, and the bucket
//! pages holding the key/value entries. A key's hash selects a
//! directory slot by its low `global_depth` bits; inserting into a
//! full bucket splits it, doubling the directory first when the
//! bucket already uses every directory bit.

use vstd::prelude::*;

use std::collections::hash_map::DefaultHasher;
use std::hash::Hasher;

use vstd::arithmetic::power2::lemma2_to64;
use vstd::arithmetic::power2::lemma_pow2_adds;
use vstd::arithmetic::power2::lemma_pow2_pos;
use vstd::arithmetic::power2::lemma_pow2_strictly_increases;
use vstd::arithmetic::power2::pow2;
use vstd::std_specs::hash::DefaultHasherAdditionalSpecFns;
use vstd::string::StrSliceExecFns;
use vstd::utf8::encode_utf8;

use crate::buffer_pool_manager::BufferPoolManager;
use crate::buffer_pool_manager::lemma_no_pins;
use crate::error::ExtendibleHashTableError;
use crate::extendible_hash_table_bucket_page::ExtendibleHTableBucketPage;
use crate::extendible_hash_table_bucket_page::decode_bucket;
use crate::extendible_hash_table_bucket_page::distinct_keys;
use crate::extendible_hash_table_bucket_page::entries_contents;
use crate::extendible_hash_table_directory_page::DIRECTORY_MAX_DEPTH_LIMIT;
use crate::extendible_hash_table_directory_page::ExtendibleHTableDirectoryPage;
use crate::extendible_hash_table_directory_page::decode_directory;
use crate::extendible_hash_table_directory_page::directory_invariant;
use crate::extendible_hash_table_header_page::ExtendibleHTableHeaderPage;
use crate::extendible_hash_table_header_page::decode_header;
use crate::hash_math::cong;
use crate::hash_math::lemma_cong_weaken;
use crate::hash_math::lemma_small_mod_self;

verus! {

/// The 32-bit hash of a key, as a function of its UTF-8 bytes: the
/// standard hasher's digest of the bytes, reduced modulo `2^32 - 1`.
pub open spec fn hash_of_bytes(kb: Seq<u8>) -> u32 {
    (DefaultHasher::spec_finish(seq![kb]) % 0xFFFFFFFF) as u32
}

/// The 32-bit hash of a key.
pub open spec fn hash_of_key(k: Seq<char>) -> u32 {
    hash_of_bytes(encode_utf8(k))
}

/// Hash a key to a 32-bit value.
pub fn hash_string(s: &str) -> (r: u32)
    ensures
        r == hash_of_key(s@),
{
    let mut hasher = DefaultHasher::new();
    hasher.write(s.as_bytes());
    let h = hasher.finish();
    proof {
        assert(hasher@ =~= seq![encode_utf8(s@)]);
    }
    (h % 0xFFFFFFFFu64) as u32
}

/// A disk-backed extendible hash table from string keys to values.
pub struct ExtendibleHashTable {
    name: String,
    directory_max_depth: u32,
    bucket_max_size: usize,
    header_page_id: u64,
    buffer_pool_manager: BufferPoolManager,
}

impl ExtendibleHashTable {
    pub closed spec fn bpm(self) -> BufferPoolManager {
        self.buffer_pool_manager
    }

    pub closed spec fn spec_header_page_id(self) -> u64 {
        self.header_page_id
    }

    pub closed spec fn spec_directory_max_depth(self) -> u32 {
        self.directory_max_depth
    }

    pub closed spec fn spec_bucket_max_size(self) -> usize {
        self.bucket_max_size
    }

    /// Highest page id the table's pool has handed out.
    pub open spec fn spec_next_page_id(self) -> u64 {
        self.bpm().spec_next_page_id()
    }

    /// The decoded header record.
    #[verifier::opaque]
    pub open spec fn header_slots(self) -> Seq<u64> {
        decode_header(self.bpm().page_bytes(self.spec_header_page_id())).unwrap().1
    }

    /// The directory's page id; 0 while no directory is installed.
    pub open spec fn dir_pid(self) -> u64 {
        self.header_slots()[0]
    }

    pub open spec fn has_dir(self) -> bool {
        self.dir_pid() != 0
    }

    /// The decoded directory record: max depth, global depth, bucket
    /// page ids, local depths.
    #[verifier::opaque]
    pub open spec fn dir(self) -> (u32, u32, Seq<u64>, Seq<u32>) {
        decode_directory(self.bpm().page_bytes(self.dir_pid())).unwrap()
    }

    /// The decoded bucket record at page `pid`.
    #[verifier::opaque]
    pub open spec fn bucket_at(self, pid: u64) -> (u64, Seq<(Seq<u8>, u64)>) {
        decode_bucket(self.bpm().page_bytes(pid)).unwrap()
    }

    /// Well-formedness of one installed bucket slot.
    #[verifier::opaque]
    pub open spec fn bucket_slot_wf(self, i: int) -> bool {
        let (md, gd, pids, lds) = self.dir();
        let pid = pids[i];
        let (ms, es) = self.bucket_at(pid);
        &&& pid != self.spec_header_page_id()
        &&& pid != self.dir_pid()
        &&& 1 <= pid <= self.spec_next_page_id()
        &&& decode_bucket(self.bpm().page_bytes(pid)) is Some
        &&& ms == self.spec_bucket_max_size() as u64
        &&& es.len() <= self.spec_bucket_max_size()
        &&& distinct_keys(es)
        &&& forall|j: int| 0 <= j < es.len() ==> (#[trigger] es[j]).0.len() < 0x10000000
        &&& forall|j: int|
            0 <= j < es.len() ==> cong(
                hash_of_bytes((#[trigger] es[j]).0) as int,
                i,
                lds[i] as nat,
            )
    }

    pub open spec fn wf(self) -> bool {
        &&& self.bpm().wf()
        &&& self.bpm().num_pinned() == 0
        &&& self.bpm().pool_size() >= 1
        &&& 1 <= self.spec_header_page_id() <= self.spec_next_page_id()
        &&& self.spec_bucket_max_size() >= 1
        &&& self.spec_directory_max_depth() <= DIRECTORY_MAX_DEPTH_LIMIT
        &&& decode_header(self.bpm().page_bytes(self.spec_header_page_id())) is Some
        &&& decode_header(self.bpm().page_bytes(self.spec_header_page_id())).unwrap().0 == 0
        &&& self.header_slots().len() == 1
        &&& (self.has_dir() ==> self.dir_wf())
    }

    /// Well-formedness of the installed directory and its buckets.
    pub open spec fn dir_wf(self) -> bool {
        let (md, gd, pids, lds) = self.dir();
        &&& self.dir_pid() != self.spec_header_page_id()
        &&& 1 <= self.dir_pid() <= self.spec_next_page_id()
        &&& decode_directory(self.bpm().page_bytes(self.dir_pid())) is Some
        &&& md == self.spec_directory_max_depth()
        &&& gd <= md
        &&& pids.len() == pow2(gd as nat)
        &&& lds.len() == pids.len()
        &&& (forall|i: int| 0 <= i < lds.len() ==> #[trigger] lds[i] <= gd)
        &&& directory_invariant(pids, lds, gd as nat)
        &&& (forall|i: int| 0 <= i < pids.len() && #[trigger] pids[i] == 0 ==> gd == 0)
        &&& (forall|i: int, j: int|
            0 <= i < j < pids.len() && (#[trigger] pids[i]) == (#[trigger] pids[j]) && pids[i]
                != 0 ==> true)
        &&& (forall|i: int|
            0 <= i < pids.len() && (#[trigger] pids[i]) != 0 ==> self.bucket_slot_wf(i))
    }

    /// What looking up a key with these bytes returns.
    #[verifier::opaque]
    pub open spec fn spec_get_bytes(self, kb: Seq<u8>) -> Option<u64> {
        if !self.has_dir() {
            None
        } else {
            let (md, gd, pids, lds) = self.dir();
            let slot = (hash_of_bytes(kb) as int) % (pow2(gd as nat) as int);
            if pids[slot] == 0 {
                None
            } else {
                let es = self.bucket_at(pids[slot]).1;
                if entries_contents(es).contains_key(kb) {
                    Some(entries_contents(es)[kb])
                } else {
                    None
                }
            }
        }
    }

    /// What looking up a key returns.
    pub open spec fn spec_get(self, k: Seq<char>) -> Option<u64> {
        self.spec_get_bytes(encode_utf8(k))
    }

    /// The key-to-value map the table holds.
    pub open spec fn as_map(self) -> Map<Seq<char>, u64> {
        Map::new(|k: Seq<char>| self.spec_get(k) is Some, |k: Seq<char>| self.spec_get(k).unwrap())
    }

    /// A set of keys that blocks an insert routed to hash `h`: at
    /// least `bucket_max_size` stored keys whose hashes agree with `h`
    /// on every directory bit the table may ever use. Such keys can
    /// never be told apart by the directory, so the bucket they share
    /// cannot make room by splitting.
    pub open spec fn blocking_keys(self, ks: Set<Seq<u8>>, h: u32) -> bool {
        &&& ks.finite()
        &&& ks.len() >= self.spec_bucket_max_size()
        &&& forall|kb: Seq<u8>|
            #[trigger] ks.contains(kb) ==> self.spec_get_bytes(kb) is Some && cong(
                hash_of_bytes(kb) as int,
                h as int,
                self.spec_directory_max_depth() as nat,
            )
    }

    /// Whether an insert routed to hash `h` is blocked: the table
    /// already holds a full bucket's worth of keys inseparable from
    /// `h` at the directory's maximum depth.
    pub open spec fn blocked_at(self, h: u32) -> bool {
        exists|ks: Set<Seq<u8>>| self.blocking_keys(ks, h)
    }

    /// Create a table: allocates its header page in the pool, with no
    /// directory installed yet.
    pub fn new(
        name: String,
        buffer_pool_manager: BufferPoolManager,
        directory_max_depth: u32,
        bucket_max_size: usize,
    ) -> (r: ExtendibleHashTable)
        requires
            buffer_pool_manager.wf(),
            buffer_pool_manager.num_pinned() == 0,
            buffer_pool_manager.pool_size() >= 1,
            buffer_pool_manager.spec_next_page_id() < u64::MAX,
            directory_max_depth <= DIRECTORY_MAX_DEPTH_LIMIT,
            bucket_max_size >= 1,
        ensures
            r.wf(),
            r.spec_directory_max_depth() == directory_max_depth,
            r.spec_bucket_max_size() == bucket_max_size,
            r.as_map() == Map::<Seq<char>, u64>::empty(),
            r.spec_next_page_id() == buffer_pool_manager.spec_next_page_id() + 1,
    {
        let mut bpm = buffer_pool_manager;
        let header_page_id = match bpm.new_page() {
            Some(pid) => pid,
            None => 0,
        };
        let header = ExtendibleHTableHeaderPage::new(0);
        let bytes = header.to_bytes();
        bpm.write_page_data(header_page_id, bytes);
        let unpinned = bpm.unpin_page(header_page_id, true);
        proof {
            assert(unpinned is Ok);
        }
        let r = ExtendibleHashTable {
            name,
            directory_max_depth,
            bucket_max_size,
            header_page_id,
            buffer_pool_manager: bpm,
        };
        proof {
            reveal(ExtendibleHashTable::spec_get_bytes);
            reveal(ExtendibleHashTable::header_slots);
            reveal(ExtendibleHashTable::dir);
            reveal(ExtendibleHashTable::bucket_at);
            lemma2_to64();
            assert(r.header_slots().len() == 1);
            assert(r.header_slots()[0] == 0);
            assert(!r.has_dir());
            assert(r.as_map() =~= Map::<Seq<char>, u64>::empty());
        }
        r
    }

    /// Look the key up: walk header, directory and bucket; absence of
    /// a directory or bucket on the way means the key is absent.
    pub fn get(&mut self, key: String) -> (r: Option<u64>)
        requires
            old(self).wf(),
        ensures
            final(self).wf(),
            final(self).as_map() == old(self).as_map(),
            final(self).spec_next_page_id() == old(self).spec_next_page_id(),
            r == old(self).spec_get(key@),
            r == (if old(self).as_map().contains_key(key@) {
                Some(old(self).as_map()[key@])
            } else {
                None::<u64>
            }),
    {
        let h = hash_string(key.as_str());
        let kb = key.as_str().as_bytes_vec();
        proof {
            assert(kb@ == encode_utf8(key@));
        }
        proof {
            lemma_no_pins(old(self).bpm());
        }
        let header_bytes = match self.buffer_pool_manager.fetch_page_read(self.header_page_id) {
            Some(b) => b,
            None => Vec::new(),
        };
        let unpinned = self.buffer_pool_manager.unpin_page(self.header_page_id, false);
        proof {
            reveal(ExtendibleHashTable::header_slots);
        }
        let header = ExtendibleHTableHeaderPage::from_bytes(&header_bytes);
        let directory_index = header.hash_to_directory_index(h);
        proof {
            reveal(ExtendibleHashTable::header_slots);
            lemma2_to64();
            assert(directory_index == 0);
        }
        let dpid = match header.get_directory_page_id(directory_index) {
            Some(d) => d,
            None => {
                proof {
                    reveal(ExtendibleHashTable::spec_get_bytes);
                    reveal(ExtendibleHashTable::header_slots);
                    assert(!old(self).has_dir());
                    assert(old(self).spec_get(key@) is None);
                    self.lemma_unchanged_map(*old(self));
                    lemma_get_matches_map(*old(self), key@);
                }
                return None;
            },
        };
        let dir_bytes = match self.buffer_pool_manager.fetch_page_read(dpid) {
            Some(b) => b,
            None => Vec::new(),
        };
        proof {
            reveal(ExtendibleHashTable::header_slots);
            reveal(ExtendibleHashTable::dir);
            assert(old(self).has_dir() && old(self).dir_pid() == dpid);
            assert(decode_directory(dir_bytes@) == Some(old(self).dir()));
        }
        let unpinned2 = self.buffer_pool_manager.unpin_page(dpid, false);
        let directory = ExtendibleHTableDirectoryPage::from_bytes(&dir_bytes);
        proof {
            assert((
                directory.spec_max_depth(),
                directory.spec_global_depth(),
                directory.pids(),
                directory.lds(),
            ) == old(self).dir());
        }
        let bucket_index = directory.hash_to_bucket_index(h);
        let bpid = match directory.get_bucket_page_id(bucket_index) {
            Some(b) => b,
            None => {
                proof {
                    reveal(ExtendibleHashTable::spec_get_bytes);
                    let (md, gd, pids, lds) = old(self).dir();
                    assert(gd == 0);
                    self.lemma_unchanged_map(*old(self));
                }
                return None;
            },
        };
        proof {
            reveal(ExtendibleHashTable::bucket_slot_wf);
            reveal(ExtendibleHashTable::bucket_at);
            assert(old(self).bucket_slot_wf(bucket_index as int));
            assert(1 <= bpid <= old(self).spec_next_page_id());
            assert(decode_bucket(old(self).bpm().page_bytes(bpid)) == Some(
                (old(self).spec_bucket_max_size() as u64, old(self).bucket_at(bpid).1),
            ));
        }
        let bucket_bytes = match self.buffer_pool_manager.fetch_page_read(bpid) {
            Some(b) => b,
            None => Vec::new(),
        };
        let unpinned3 = self.buffer_pool_manager.unpin_page(bpid, false);
        proof {
            reveal(ExtendibleHashTable::bucket_slot_wf);
            assert(old(self).bucket_slot_wf(bucket_index as int));
            assert(bucket_bytes@ == old(self).bpm().page_bytes(bpid));
        }
        let bucket = ExtendibleHTableBucketPage::from_bytes(&bucket_bytes);
        proof {
            assert(bucket.spec_entries() == old(self).bucket_at(bpid).1);
            reveal(ExtendibleHashTable::bucket_slot_wf);
            assert(bucket.wf()) by {
                assert(old(self).bucket_slot_wf(bucket_index as int));
            }
        }
        let r = bucket.get(&kb);
        proof {
            reveal(ExtendibleHashTable::spec_get_bytes);
            reveal(ExtendibleHashTable::bucket_slot_wf);
            reveal(ExtendibleHashTable::header_slots);
            reveal(ExtendibleHashTable::dir);
            reveal(ExtendibleHashTable::bucket_at);
            self.lemma_unchanged_map(*old(self));
            assert(r == old(self).spec_get_bytes(kb@));
            lemma_get_matches_map(*old(self), key@);
        }
        r
    }

    /// The directory slot serving hash `h`.
    pub open spec fn key_slot(self, h: u32) -> int {
        (h as int) % (pow2(self.dir().1 as nat) as int)
    }

    /// The local depth of the bucket serving hash `h`.
    pub open spec fn key_ld(self, h: u32) -> u32 {
        self.dir().3[self.key_slot(h)]
    }

    /// Insert the key with the given value, replacing any value the
    /// key already holds. A full bucket is split, doubling the
    /// directory when the bucket already uses every directory bit.
    /// The insert fails, leaving the table as it was, exactly when it
    /// is blocked: the table already holds a full bucket's worth of
    /// keys whose hashes agree with this key's on every bit the
    /// directory may ever use, so no amount of splitting can make
    /// room. Otherwise success is owed.
    #[verifier::rlimit(100)]
    pub fn insert(&mut self, key: String, value: u64) -> (r: Result<
        (),
        ExtendibleHashTableError,
    >)
        requires
            old(self).wf(),
            old(self).spec_next_page_id() + 64 <= u64::MAX,
            encode_utf8(key@).len() < 0x10000000,
        ensures
            final(self).wf(),
            r is Ok ==> final(self).as_map() == old(self).as_map().insert(key@, value),
            r is Err ==> final(self).as_map() == old(self).as_map() && r == Err::<
                (),
                ExtendibleHashTableError,
            >(ExtendibleHashTableError::DirectoryMaxSizeReached),
            r is Err <==> old(self).blocked_at(hash_of_key(key@)),
            final(self).spec_next_page_id() <= old(self).spec_next_page_id() + 43,
            final(self).spec_directory_max_depth() == old(self).spec_directory_max_depth(),
            final(self).spec_bucket_max_size() == old(self).spec_bucket_max_size(),
    {
        let ghost initial = *old(self);
        let h = hash_string(key.as_str());
        let kb = key.as_str().as_bytes_vec();
        proof {
            assert(kb@ == encode_utf8(key@));
            lemma_no_pins(old(self).bpm());
        }
        let header_bytes = match self.buffer_pool_manager.fetch_page_read(self.header_page_id) {
            Some(b) => b,
            None => Vec::new(),
        };
        let u0 = self.buffer_pool_manager.unpin_page(self.header_page_id, false);
        proof {
            reveal(ExtendibleHashTable::header_slots);
            assert(decode_header(header_bytes@) == Some((0u32, old(self).header_slots())));
        }
        let header = ExtendibleHTableHeaderPage::from_bytes(&header_bytes);
        proof {
            assert(header.slots() == old(self).header_slots());
            assert(header.spec_max_depth() == 0);
        }
        let directory_index = header.hash_to_directory_index(h);
        proof {
            lemma2_to64();
            assert(directory_index == 0);
        }
        let dpid = match header.get_directory_page_id(directory_index) {
            Some(d) => {
                proof {
                    assert(old(self).header_slots()[0] == d && d != 0);
                    assert(old(self).has_dir() && old(self).dir_pid() == d);
                    self.lemma_unchanged_map(*old(self));
                }
                d
            },
            None => {
                // Install an empty directory and point the header at it.
                proof {
                    lemma_no_pins(self.bpm());
                }
                let new_dpid = match self.buffer_pool_manager.new_page() {
                    Some(p) => p,
                    None => 0,
                };
                let directory = ExtendibleHTableDirectoryPage::new(self.directory_max_depth);
                let dir_out = directory.to_bytes();
                self.buffer_pool_manager.write_page_data(new_dpid, dir_out);
                let u1 = self.buffer_pool_manager.unpin_page(new_dpid, true);
                let mut header2 = header;
                header2.set_directory_page_id(0, new_dpid);
                self.buffer_pool_manager.write_page_data(self.header_page_id, header2.to_bytes());
                proof {
                    reveal(ExtendibleHashTable::spec_get_bytes);
                    reveal(ExtendibleHashTable::header_slots);
                    reveal(ExtendibleHashTable::dir);
                    reveal(ExtendibleHashTable::bucket_at);
                    assert(header2.slots() =~= seq![new_dpid]);
                    assert(self.header_slots() == seq![new_dpid]);
                    assert(self.has_dir() && self.dir_pid() == new_dpid);
                    let (md, gd, pids, lds) = self.dir();
                    assert(pids == seq![0u64] && lds == seq![0u32] && gd == 0);
                    assert(self.dir_wf());
                    assert(self.wf());
                    assert forall|kb2: Seq<u8>|
                        #[trigger] self.spec_get_bytes(kb2) == initial.spec_get_bytes(kb2) by {
                        lemma_pow2_pos(0nat);
                        lemma2_to64();
                    }
                }
                new_dpid
            },
        };
        proof {
            assert(self.wf() && self.has_dir() && self.dir_pid() == dpid);
            assert(self.key_ld(h) <= self.dir().1 <= self.spec_directory_max_depth()) by {
                let (md, gd, pids, lds) = self.dir();
                lemma_pow2_pos(gd as nat);
                vstd::arithmetic::div_mod::lemma_mod_bound(h as int, pow2(gd as nat) as int);
            }
        }
        loop
            invariant
                initial == *old(self),
                self.wf(),
                self.has_dir(),
                self.dir_pid() == dpid,
                self.spec_header_page_id() == initial.spec_header_page_id(),
                self.spec_directory_max_depth() == initial.spec_directory_max_depth(),
                self.spec_bucket_max_size() == initial.spec_bucket_max_size(),
                h == hash_of_key(key@),
                kb@ == encode_utf8(key@),
                kb@.len() < 0x10000000,
                forall|kb2: Seq<u8>|
                    #[trigger] self.spec_get_bytes(kb2) == initial.spec_get_bytes(kb2),
                self.key_ld(h) <= self.dir().1,
                self.spec_next_page_id() + 3 + 2 * (
                (self.spec_directory_max_depth() - self.key_ld(h)) as int) <= u64::MAX,
                self.spec_next_page_id() + 2 * (
                (self.spec_directory_max_depth() - self.key_ld(h)) as int) <= initial.spec_next_page_id()
                    + 1 + 2 * (initial.spec_directory_max_depth() as int),
            decreases (self.spec_directory_max_depth() + 1 - self.key_ld(h)) as int,
        {
            let ghost pre = *self;
            proof {
                lemma_no_pins(self.bpm());
                assert(pre.bpm().num_pinned() < pre.bpm().pool_size());
            }
            let dir_bytes = match self.buffer_pool_manager.fetch_page_read(dpid) {
                Some(b) => b,
                None => Vec::new(),
            };
            proof {
                assert(dir_bytes@ == pre.bpm().page_bytes(dpid));
            }
            let u1 = self.buffer_pool_manager.unpin_page(dpid, false);
            proof {
                reveal(ExtendibleHashTable::dir);
                assert(decode_directory(dir_bytes@) == Some(pre.dir()));
            }
            let mut directory = ExtendibleHTableDirectoryPage::from_bytes(&dir_bytes);
            proof {
                self.lemma_unchanged_map(pre);
            }
            proof {
                assert((
                    directory.spec_max_depth(),
                    directory.spec_global_depth(),
                    directory.pids(),
                    directory.lds(),
                ) == pre.dir());
                assert(self.dir() == pre.dir());
                assert((
                    directory.spec_max_depth(),
                    directory.spec_global_depth(),
                    directory.pids(),
                    directory.lds(),
                ) == self.dir());
                assert(directory.wf());
            }
            let slot = directory.hash_to_bucket_index(h);
            let bpid_opt = directory.get_bucket_page_id(slot);
            match bpid_opt {
                None => {
                    proof {
                        lemma2_to64();
                        assert(self.dir().2[slot as int] == 0);
                        assert(self.dir().1 == 0);
                        assert(slot == 0);
                        // An empty directory holds no key at all, so
                        // nothing can block this insert.
                        assert forall|ks: Set<Seq<u8>>|
                            !initial.blocking_keys(ks, h) by {
                            if initial.blocking_keys(ks, h) {
                                let kb = lemma_nonempty_member(ks);
                                assert(initial.spec_get_bytes(kb) is Some);
                                assert(self.spec_get_bytes(kb) is Some);
                                reveal(ExtendibleHashTable::spec_get_bytes);
                                vstd::arithmetic::div_mod::lemma_mod_bound(
                                    hash_of_bytes(kb) as int,
                                    1,
                                );
                                assert(false);
                            }
                        }
                        assert(!initial.blocked_at(h));
                    }
                    self.install_first_bucket(dpid, directory, crate::disk_manager::copy_bytes(
                        &kb,
                    ), value, h);
                    proof {
                        lemma_map_insert(initial, *self, key@, value);
                    }
                    return Ok(());
                },
                Some(bpid) => {
                    proof {
                        reveal(ExtendibleHashTable::bucket_slot_wf);
                        reveal(ExtendibleHashTable::bucket_at);
                        assert(pre.bucket_slot_wf(slot as int));
                        assert(1 <= bpid <= pre.spec_next_page_id() && bpid != 0);
                        assert(decode_bucket(pre.bpm().page_bytes(bpid)) == Some(
                            (pre.spec_bucket_max_size() as u64, pre.bucket_at(bpid).1),
                        ));
                        assert(distinct_keys(pre.bucket_at(bpid).1));
                        assert(pre.bucket_at(bpid).1.len() <= pre.spec_bucket_max_size());
                        assert(forall|j: int|
                            0 <= j < pre.bucket_at(bpid).1.len() ==> (#[trigger] pre.bucket_at(
                                bpid,
                            ).1[j]).0.len() < 0x10000000);
                        assert(forall|j: int|
                            0 <= j < pre.bucket_at(bpid).1.len() ==> cong(
                                hash_of_bytes((#[trigger] pre.bucket_at(bpid).1[j]).0) as int,
                                slot as int,
                                pre.dir().3[slot as int] as nat,
                            ));
                        lemma_no_pins(self.bpm());
                    }
                    let bucket_bytes = match self.buffer_pool_manager.fetch_page_read(bpid) {
                        Some(b) => b,
                        None => Vec::new(),
                    };
                    let u2 = self.buffer_pool_manager.unpin_page(bpid, false);
                    proof {
                        assert(bucket_bytes@ == pre.bpm().page_bytes(bpid));
                    }
                    let mut bucket = ExtendibleHTableBucketPage::from_bytes(&bucket_bytes);
                    proof {
                        self.lemma_unchanged_map(pre);
                    }
                    proof {
                        assert(Some(
                            (bucket.spec_max_size() as u64, bucket.spec_entries()),
                        ) == decode_bucket(bucket_bytes@));
                        assert(bucket.spec_entries() == pre.bucket_at(bpid).1);
                        assert(bucket.spec_max_size() == pre.spec_bucket_max_size());
                        assert(bucket.wf());
                    }
                    if !bucket.is_full() {
                        proof {
                            // The key's bucket has room, so no blocking
                            // set can exist: its members would all sit
                            // in this very bucket.
                            let es_cur = bucket.spec_entries();
                            let gd = self.dir().1 as nat;
                            let md = self.spec_directory_max_depth() as nat;
                            lemma_entry_key_set(es_cur);
                            assert forall|ks: Set<Seq<u8>>|
                                !initial.blocking_keys(ks, h) by {
                                if initial.blocking_keys(ks, h) {
                                    assert forall|kb: Seq<u8>| #[trigger] ks.contains(kb) implies
                                        entry_key_set(es_cur).contains(kb) by {
                                        assert(initial.spec_get_bytes(kb) is Some);
                                        assert(self.spec_get_bytes(kb) is Some);
                                        lemma_cong_weaken(
                                            hash_of_bytes(kb) as int,
                                            h as int,
                                            gd,
                                            md,
                                        );
                                        reveal(ExtendibleHashTable::spec_get_bytes);
                                        assert((hash_of_bytes(kb) as int) % (pow2(gd) as int)
                                            == slot as int);
                                        crate::extendible_hash_table_bucket_page::lemma_contents_member(
                                            es_cur,
                                            kb,
                                        );
                                    }
                                    assert(ks.subset_of(entry_key_set(es_cur)));
                                    vstd::set_lib::lemma_len_subset(
                                        ks,
                                        entry_key_set(es_cur),
                                    );
                                    assert(false);
                                }
                            }
                            assert(!initial.blocked_at(h));
                        }
                        self.insert_into_bucket(dpid, bpid, slot, directory, bucket,
                            crate::disk_manager::copy_bytes(&kb), value, h);
                        proof {
                            lemma_map_insert(initial, *self, key@, value);
                        }
                        return Ok(());
                    }
                    // Full bucket: split it.
                    let ghost es_full = bucket.spec_entries();
                    let split_result = self.split_bucket(dpid, bpid, slot, directory, bucket, h);
                    match split_result {
                        Err(e) => {
                            proof {
                                assert(self.as_map() =~= initial.as_map());
                                // The refused doubling pins the blocked
                                // state down: the full bucket's keys all
                                // agree with the key's hash on every bit
                                // the directory may ever use.
                                let gd = pre.dir().1 as nat;
                                let md = pre.spec_directory_max_depth() as nat;
                                assert(gd == md);
                                assert(pre.dir().3[slot as int] as nat == md);
                                let ks = entry_key_set(es_full);
                                lemma_entry_key_set(es_full);
                                assert(ks.len() == initial.spec_bucket_max_size());
                                crate::hash_math::lemma_mod_mod_pow2(h as int, gd);
                                assert forall|kb: Seq<u8>| #[trigger] ks.contains(kb) implies
                                    initial.spec_get_bytes(kb) is Some && cong(
                                    hash_of_bytes(kb) as int,
                                    h as int,
                                    initial.spec_directory_max_depth() as nat,
                                ) by {
                                    let j = choose|j: int|
                                        0 <= j < es_full.len() && (#[trigger] es_full[j]).0
                                            == kb;
                                    assert(cong(
                                        hash_of_bytes(kb) as int,
                                        slot as int,
                                        md,
                                    ));
                                    assert(cong(h as int, slot as int, gd));
                                    assert(cong(hash_of_bytes(kb) as int, h as int, md));
                                    crate::extendible_hash_table_bucket_page::lemma_contents_found(
                                        es_full,
                                        j,
                                    );
                                    reveal(ExtendibleHashTable::spec_get_bytes);
                                    vstd::arithmetic::div_mod::lemma_mod_bound(
                                        h as int,
                                        pow2(gd) as int,
                                    );
                                    assert((hash_of_bytes(kb) as int) % (pow2(gd) as int)
                                        == slot as int) by {
                                        lemma_cong_weaken(
                                            hash_of_bytes(kb) as int,
                                            h as int,
                                            gd,
                                            md,
                                        );
                                    }
                                    assert(self.spec_get_bytes(kb) is Some);
                                }
                                assert(initial.blocking_keys(ks, h));
                                assert(initial.blocked_at(h));
                            }
                            return Err(ExtendibleHashTableError::DirectoryMaxSizeReached);
                        },
                        Ok(()) => {},
                    }
                },
            }
        }
    }

    /// Install the very first bucket of an empty directory, holding
    /// exactly the new entry.
    #[verifier::rlimit(100)]
    fn install_first_bucket(
        &mut self,
        dpid: u64,
        directory: ExtendibleHTableDirectoryPage,
        kb: Vec<u8>,
        value: u64,
        h: u32,
    )
        requires
            old(self).wf(),
            old(self).has_dir(),
            old(self).dir_pid() == dpid,
            directory.spec_max_depth() == old(self).dir().0,
            directory.spec_global_depth() == old(self).dir().1,
            directory.pids() == old(self).dir().2,
            directory.lds() == old(self).dir().3,
            directory.wf(),
            directory.spec_global_depth() == 0,
            old(self).dir().2[0] == 0,
            kb@.len() < 0x10000000,
            h == hash_of_bytes(kb@),
            old(self).spec_next_page_id() + 2 <= u64::MAX,
        ensures
            final(self).wf(),
            final(self).spec_header_page_id() == old(self).spec_header_page_id(),
            final(self).spec_directory_max_depth() == old(self).spec_directory_max_depth(),
            final(self).spec_bucket_max_size() == old(self).spec_bucket_max_size(),
            final(self).spec_next_page_id() == old(self).spec_next_page_id() + 1,
            forall|kb2: Seq<u8>|
                #[trigger] final(self).spec_get_bytes(kb2) == (if kb2 == kb@ {
        Some(value)
                } else {
        old(self).spec_get_bytes(kb2)
                }),
    {
        let ghost pre = *old(self);
        let mut directory = directory;
        let slot: usize = 0;
        proof {
            lemma2_to64();
            assert(pre.dir().2.len() == 1);
        }
        proof {
            assert(directory.spec_global_depth() == 0);
            lemma2_to64();
            lemma_small_mod_self(h as int % 1, 0);
        }
        let mut bucket = ExtendibleHTableBucketPage::new(self.bucket_max_size);
        bucket.insert(crate::disk_manager::copy_bytes(&kb), value);
        proof {
            lemma_no_pins(self.bpm());
        }
        let new_bpid = match self.buffer_pool_manager.new_page() {
            Some(p) => p,
            None => 0,
        };
        let u2 = self.buffer_pool_manager.unpin_page(new_bpid, true);
        self.buffer_pool_manager.write_page_data(new_bpid, bucket.to_bytes());
        directory.set_bucket_page_id(slot, new_bpid);
        self.buffer_pool_manager.write_page_data(dpid, directory.to_bytes());
        proof {
            reveal(ExtendibleHashTable::bucket_slot_wf);
            reveal(ExtendibleHashTable::spec_get_bytes);
            reveal(ExtendibleHashTable::header_slots);
            reveal(ExtendibleHashTable::dir);
            reveal(ExtendibleHashTable::bucket_at);
            let post = *self;
            assert(post.header_slots() == pre.header_slots());
            assert(post.dir() == (
                directory.spec_max_depth(),
                directory.spec_global_depth(),
                directory.pids(),
                directory.lds(),
            ));
            assert(directory.pids() =~= seq![new_bpid]);
            assert forall|i: int, j: int|
                #![trigger directory.lds()[i], directory.lds()[j]]
                0 <= i < 1 && 0 <= j < 1 && cong(i, j, directory.lds()[i] as nat)
                implies directory.lds()[j] == directory.lds()[i] && directory.pids()[j]
                == directory.pids()[i] by {}
            assert(directory_invariant(
                directory.pids(),
                directory.lds(),
                directory.spec_global_depth() as nat,
            ));
            assert(bucket.contents() =~= Map::<Seq<u8>, u64>::empty().insert(
                kb@,
                value,
            ));
            assert(post.bucket_slot_wf(0)) by {
                assert(post.bucket_at(new_bpid).1 == bucket.spec_entries());
                assert forall|j: int|
                    0 <= j < bucket.spec_entries().len() implies cong(
                    hash_of_bytes((#[trigger] bucket.spec_entries()[j]).0) as int,
                    0,
                    directory.lds()[0] as nat,
                ) by {
                    lemma2_to64();
                }
            }
            assert(post.dir_wf());
            assert(post.wf());
            assert forall|kb2: Seq<u8>|
                #[trigger] post.spec_get_bytes(kb2) == (if kb2 == kb@ {
                Some(value)
            } else {
                pre.spec_get_bytes(kb2)
            }) by {
                lemma2_to64();
                lemma_small_mod_self(0, 0);
                vstd::arithmetic::div_mod::lemma_mod_bound(
                    hash_of_bytes(kb2) as int,
                    1,
                );
            }
        }
    }

    /// Insert the entry into the (not yet full) bucket serving its
    /// hash.
    #[verifier::rlimit(100)]
    fn insert_into_bucket(
        &mut self,
        dpid: u64,
        bpid: u64,
        slot: usize,
        directory: ExtendibleHTableDirectoryPage,
        bucket: ExtendibleHTableBucketPage,
        kb: Vec<u8>,
        value: u64,
        h: u32,
    )
        requires
            old(self).wf(),
            old(self).has_dir(),
            old(self).dir_pid() == dpid,
            directory.spec_max_depth() == old(self).dir().0,
            directory.spec_global_depth() == old(self).dir().1,
            directory.pids() == old(self).dir().2,
            directory.lds() == old(self).dir().3,
            directory.wf(),
            (slot as int) < old(self).dir().2.len(),
            slot as int == old(self).key_slot(h),
            old(self).dir().2[slot as int] == bpid,
            bpid != 0,
            bucket.spec_entries() == old(self).bucket_at(bpid).1,
            bucket.wf(),
            bucket.spec_max_size() == old(self).spec_bucket_max_size(),
            bucket.spec_entries().len() < bucket.spec_max_size(),
            kb@.len() < 0x10000000,
            h == hash_of_bytes(kb@),
        ensures
            final(self).wf(),
            final(self).spec_header_page_id() == old(self).spec_header_page_id(),
            final(self).spec_directory_max_depth() == old(self).spec_directory_max_depth(),
            final(self).spec_bucket_max_size() == old(self).spec_bucket_max_size(),
            final(self).spec_next_page_id() == old(self).spec_next_page_id(),
            forall|kb2: Seq<u8>|
                #[trigger] final(self).spec_get_bytes(kb2) == (if kb2 == kb@ {
        Some(value)
                } else {
        old(self).spec_get_bytes(kb2)
                }),
    {
        let ghost pre = *old(self);
        let mut directory = directory;
        let mut bucket = bucket;
        proof {
            reveal(ExtendibleHashTable::bucket_slot_wf);
            reveal(ExtendibleHashTable::dir);
            assert(pre.bucket_slot_wf(slot as int));
        }
            bucket.insert(crate::disk_manager::copy_bytes(&kb), value);
            self.buffer_pool_manager.write_page_data(bpid, bucket.to_bytes());
            self.buffer_pool_manager.write_page_data(dpid, directory.to_bytes());
            proof {
                reveal(ExtendibleHashTable::bucket_slot_wf);
                reveal(ExtendibleHashTable::spec_get_bytes);
                reveal(ExtendibleHashTable::header_slots);
                reveal(ExtendibleHashTable::dir);
                reveal(ExtendibleHashTable::bucket_at);
                let post = *self;
                let gdp = pre.dir().1;
                let np = pow2(gdp as nat) as int;
                let pids_p = pre.dir().2;
                let lds_p = pre.dir().3;
                let sl = slot as int;
                lemma_pow2_pos(gdp as nat);
                vstd::arithmetic::div_mod::lemma_mod_bound(h as int, np);
                assert(pre.bucket_slot_wf(sl));
                assert(post.bpm().page_bytes(pre.spec_header_page_id())
                    == pre.bpm().page_bytes(pre.spec_header_page_id()));
                assert(post.header_slots() == pre.header_slots());
                assert(post.has_dir() && post.dir_pid() == dpid);
                assert(post.dir() == pre.dir());
                assert(post.bucket_at(bpid).1 == bucket.spec_entries());
                // Every installed slot still has a sound bucket.
                assert forall|i: int|
                    0 <= i < pids_p.len() && (#[trigger] pids_p[i]) != 0 implies
                    post.bucket_slot_wf(i) by {
                    assert(pre.bucket_slot_wf(i));
                    if pids_p[i] == bpid {
                        assert(cong(i, sl, lds_p[i] as nat));
                        assert(lds_p[i] == lds_p[sl]);
                        let esq = bucket.spec_entries();
                        assert forall|j: int|
                            0 <= j < esq.len() implies cong(
                            hash_of_bytes((#[trigger] esq[j]).0) as int,
                            i,
                            lds_p[i] as nat,
                        ) by {
                            crate::extendible_hash_table_bucket_page::lemma_contents_found(
                                esq,
                                j,
                            );
                            let kbj = esq[j].0;
                            let h2 = hash_of_bytes(kbj) as int;
                            assert(bucket.contents().contains_key(kbj));
                            if kbj == kb@ {
                                crate::hash_math::lemma_mod_mod_pow2(
                                    h as int,
                                    gdp as nat,
                                );
                                lemma_cong_weaken(
                                    h as int,
                                    sl,
                                    lds_p[sl] as nat,
                                    gdp as nat,
                                );
                                assert(cong(h2, sl, lds_p[sl] as nat));
                            } else {
                                let es0 = pre.bucket_at(bpid).1;
                                assert(entries_contents(es0).contains_key(kbj));
                                crate::extendible_hash_table_bucket_page::lemma_contents_member(
                                    es0,
                                    kbj,
                                );
                                let w = choose|w: int|
                                    0 <= w < es0.len() && (#[trigger] es0[w]).0
                                        == kbj;
                                assert(cong(h2, sl, lds_p[sl] as nat));
                            }
                        }
                    } else {
                        assert(post.bpm().page_bytes(pids_p[i])
                            == pre.bpm().page_bytes(pids_p[i]));
                    }
                }
                assert(post.dir_wf());
                assert(post.wf());
                assert forall|kb2: Seq<u8>|
                    #[trigger] post.spec_get_bytes(kb2) == (if kb2 == kb@ {
                    Some(value)
                } else {
                    pre.spec_get_bytes(kb2)
                }) by {
                    let h2 = hash_of_bytes(kb2) as int;
                    let sp = h2 % np;
                    vstd::arithmetic::div_mod::lemma_mod_bound(h2, np);
                    if kb2 == kb@ {
                        assert(sp == sl);
                        assert(pids_p[sp] == bpid);
                        assert(bucket.contents() == entries_contents(
                            pre.bucket_at(bpid).1,
                        ).insert(kb@, value));
                    } else {
                        if pids_p[sp] == bpid {
                            assert(bucket.contents() == entries_contents(
                                pre.bucket_at(bpid).1,
                            ).insert(kb@, value));
                        } else if pids_p[sp] != 0 {
                            assert(pre.bucket_slot_wf(sp));
                            assert(post.bpm().page_bytes(pids_p[sp])
                                == pre.bpm().page_bytes(pids_p[sp]));
                        }
                    }
                }
            }
    }

    /// Write the split's three pages back and re-establish the table's
    /// shape: the old bucket page now holds the keys staying put, the
    /// fresh page the keys that moved, and the directory the finer
    /// routing.
    #[verifier::rlimit(100)]
    fn commit_split(
        &mut self,
        Ghost(pre): Ghost<ExtendibleHashTable>,
        Ghost(es): Ghost<Seq<(Seq<u8>, u64)>>,
        dpid: u64,
        bpid: u64,
        new_bpid: u64,
        slot: usize,
        slot2: usize,
        ld: u32,
        directory: ExtendibleHTableDirectoryPage,
        keep: ExtendibleHTableBucketPage,
        moved: ExtendibleHTableBucketPage,
        h: u32,
        Ghost(grew): Ghost<bool>,
    )
        requires
            pre.wf(),
            pre.has_dir(),
            pre.dir_pid() == dpid,
            (slot as int) < pre.dir().2.len(),
            slot as int == pre.key_slot(h),
            pre.dir().2[slot as int] == bpid,
            bpid != 0,
            pre.dir().3[slot as int] == ld,
            es == pre.bucket_at(bpid).1,
            es.len() == pre.spec_bucket_max_size(),
            directory.spec_max_depth() == pre.dir().0,
            directory.wf(),
            grew ==> directory.spec_global_depth() == pre.dir().1 + 1 && ld == pre.dir().1,
            !grew ==> directory.spec_global_depth() == pre.dir().1,
            ld < directory.spec_global_depth(),
            slot2 as int == (h as int) % (pow2(directory.spec_global_depth() as nat) as int),
            forall|j: int|
                #![trigger directory.lds()[j]]
                0 <= j < pow2(directory.spec_global_depth() as nat) && cong(
                    j,
                    slot2 as int,
                    ld as nat,
                ) ==> directory.lds()[j] == ld + 1,
            forall|j: int|
                #![trigger directory.pids()[j]]
                0 <= j < pow2(directory.spec_global_depth() as nat) && cong(
                    j,
                    slot2 as int,
                    ld as nat,
                ) ==> directory.pids()[j] == (if cong(j, slot2 as int, ld as nat + 1) {
                    bpid
                } else {
                    new_bpid
                }),
            forall|j: int|
                #![trigger directory.lds()[j]]
                0 <= j < pow2(directory.spec_global_depth() as nat) && !cong(
                    j,
                    slot2 as int,
                    ld as nat,
                ) ==> directory.lds()[j] == pre.dir().3[j % (pow2(pre.dir().1 as nat) as int)],
            forall|j: int|
                #![trigger directory.pids()[j]]
                0 <= j < pow2(directory.spec_global_depth() as nat) && !cong(
                    j,
                    slot2 as int,
                    ld as nat,
                ) ==> directory.pids()[j] == pre.dir().2[j % (pow2(pre.dir().1 as nat) as int)],
            (slot2 as int) % (pow2(pre.dir().1 as nat) as int) == slot as int,
            keep.wf(),
            moved.wf(),
            keep.spec_max_size() == pre.spec_bucket_max_size(),
            moved.spec_max_size() == pre.spec_bucket_max_size(),
            keep.spec_entries().len() + moved.spec_entries().len() == es.len(),
            forall|kb2: Seq<u8>|
                #[trigger] keep.contents().contains_key(kb2) == (entries_contents(
                    es,
                ).contains_key(kb2) && cong(
                    hash_of_bytes(kb2) as int,
                    slot2 as int,
                    ld as nat + 1,
                )),
            forall|kb2: Seq<u8>|
                #[trigger] moved.contents().contains_key(kb2) == (entries_contents(
                    es,
                ).contains_key(kb2) && !cong(
                    hash_of_bytes(kb2) as int,
                    slot2 as int,
                    ld as nat + 1,
                )),
            forall|kb2: Seq<u8>|
                #[trigger] keep.contents().contains_key(kb2) ==> keep.contents()[kb2]
                    == entries_contents(es)[kb2],
            forall|kb2: Seq<u8>|
                #[trigger] moved.contents().contains_key(kb2) ==> moved.contents()[kb2]
                    == entries_contents(es)[kb2],
            new_bpid == pre.spec_next_page_id() + 1,
            old(self).spec_header_page_id() == pre.spec_header_page_id(),
            old(self).spec_directory_max_depth() == pre.spec_directory_max_depth(),
            old(self).spec_bucket_max_size() == pre.spec_bucket_max_size(),
            old(self).spec_next_page_id() == pre.spec_next_page_id() + 1,
            old(self).bpm().wf(),
            old(self).bpm().num_pinned() == 0,
            old(self).bpm().pool_size() == pre.bpm().pool_size(),
            forall|q: u64| #[trigger] old(self).bpm().page_bytes(q) == pre.bpm().page_bytes(q),
        ensures
            final(self).wf(),
            final(self).has_dir(),
            final(self).dir_pid() == dpid,
            forall|kb2: Seq<u8>|
                #[trigger] final(self).spec_get_bytes(kb2) == pre.spec_get_bytes(kb2),
            final(self).key_ld(h) == ld + 1,
            final(self).key_ld(h) <= final(self).dir().1,
            final(self).spec_next_page_id() == pre.spec_next_page_id() + 1,
            final(self).spec_header_page_id() == pre.spec_header_page_id(),
            final(self).spec_directory_max_depth() == pre.spec_directory_max_depth(),
            final(self).spec_bucket_max_size() == pre.spec_bucket_max_size(),
    {
        proof {
            reveal(ExtendibleHashTable::bucket_slot_wf);
            assert(pre.bucket_slot_wf(slot as int));
            assert(1 <= bpid <= pre.spec_next_page_id());
            assert(1 <= dpid <= pre.spec_next_page_id());
        }
        self.buffer_pool_manager.write_page_data(bpid, keep.to_bytes());
        self.buffer_pool_manager.write_page_data(new_bpid, moved.to_bytes());
        self.buffer_pool_manager.write_page_data(dpid, directory.to_bytes());
        proof {
            assert forall|q: u64|
                q != dpid && q != bpid && q != new_bpid implies #[trigger] self.bpm().page_bytes(
                q,
            ) == pre.bpm().page_bytes(q) by {}
            lemma_split_wf(pre, *self, directory, keep, moved, dpid, bpid, new_bpid,
                slot as int, slot2 as int, ld, directory.spec_global_depth(), grew, h, es);
            lemma_split_lookup(pre, *self, directory, keep, moved, dpid, bpid, new_bpid,
                slot as int, slot2 as int, ld, directory.spec_global_depth(), grew, h, es);
        }
    }

    /// Split the full bucket serving hash `h`: grow the directory if
    /// the bucket already uses every directory bit, allocate a second
    /// bucket page, and deal the entries between the two buckets of
    /// the finer class. Fails, changing nothing, when the directory
    /// cannot grow.
    #[verifier::rlimit(100)]
    fn split_bucket(
        &mut self,
        dpid: u64,
        bpid: u64,
        slot: usize,
        directory: ExtendibleHTableDirectoryPage,
        bucket: ExtendibleHTableBucketPage,
        h: u32,
    ) -> (r: Result<(), ExtendibleHashTableError>)
        requires
            old(self).wf(),
            old(self).has_dir(),
            old(self).dir_pid() == dpid,
            directory.spec_max_depth() == old(self).dir().0,
            directory.spec_global_depth() == old(self).dir().1,
            directory.pids() == old(self).dir().2,
            directory.lds() == old(self).dir().3,
            directory.wf(),
            (slot as int) < old(self).dir().2.len(),
            slot as int == old(self).key_slot(h),
            old(self).dir().2[slot as int] == bpid,
            bpid != 0,
            bucket.spec_entries() == old(self).bucket_at(bpid).1,
            bucket.wf(),
            bucket.spec_max_size() == old(self).spec_bucket_max_size(),
            bucket.spec_entries().len() == bucket.spec_max_size(),
            old(self).spec_next_page_id() + 2 <= u64::MAX,
        ensures
            final(self).wf(),
            final(self).spec_header_page_id() == old(self).spec_header_page_id(),
            final(self).spec_directory_max_depth() == old(self).spec_directory_max_depth(),
            final(self).spec_bucket_max_size() == old(self).spec_bucket_max_size(),
            r is Err ==> *final(self) == *old(self) && r == Err::<(), ExtendibleHashTableError>(
                ExtendibleHashTableError::DirectoryMaxSizeReached,
            ) && old(self).dir().1 == old(self).spec_directory_max_depth() && old(
                self,
            ).dir().3[slot as int] == old(self).spec_directory_max_depth(),
            r is Ok ==> {
                &&& final(self).has_dir()
                &&& final(self).dir_pid() == dpid
                &&& forall|kb2: Seq<u8>|
        #[trigger] final(self).spec_get_bytes(kb2) == old(self).spec_get_bytes(kb2)
                &&& final(self).key_ld(h) == old(self).key_ld(h) + 1
                &&& final(self).key_ld(h) <= final(self).dir().1
                &&& final(self).spec_next_page_id() == old(self).spec_next_page_id() + 1
            },
    {
        let ghost pre = *old(self);
        let mut directory = directory;
        let mut bucket = bucket;
        proof {
            reveal(ExtendibleHashTable::bucket_slot_wf);
            reveal(ExtendibleHashTable::dir);
            assert(pre.bucket_slot_wf(slot as int));
            lemma_pow2_pos(pre.dir().1 as nat);
            vstd::arithmetic::div_mod::lemma_mod_bound(h as int, pow2(pre.dir().1 as nat) as int);
        }
        let ld = match directory.get_local_depth(slot) {
            Some(l) => l,
            None => 0,
        };
        let gd = directory.get_global_depth();
        let ghost grew = ld == gd;
        if ld == gd {
            let grow_result = directory.increment_global_depth();
            match grow_result {
                Err(e) => {
                    return Err(ExtendibleHashTableError::DirectoryMaxSizeReached);
                },
                Ok(()) => {},
            }
        }
        let slot2 = directory.hash_to_bucket_index(h);
        let ghost gdp = pre.dir().1;
        let ghost np = pow2(gdp as nat) as int;
        let ghost pids_p = pre.dir().2;
        let ghost lds_p = pre.dir().3;
        let ghost gd2 = directory.spec_global_depth();
        let ghost n2 = pow2(gd2 as nat) as int;
        let ghost pids_g = directory.pids();
        let ghost lds_g = directory.lds();
        proof {
            lemma_pow2_pos(gdp as nat);
            lemma_pow2_pos(gd2 as nat);
            vstd::arithmetic::div_mod::lemma_mod_bound(h as int, np);
            vstd::arithmetic::div_mod::lemma_mod_bound(h as int, n2);
            assert(slot == (h as int) % np);
            assert(lds_p[slot as int] == ld);
            if grew {
                assert(gd2 == gdp + 1);
                assert(directory.pids() == pids_p + pids_p);
                assert(directory.lds() == lds_p + lds_p);
                lemma_pow2_adds(gdp as nat, 1);
                lemma2_to64();
            } else {
                assert(gd2 == gdp);
                assert(directory.pids() == pids_p);
                assert(directory.lds() == lds_p);
            }
            assert forall|j: int|
                0 <= j < n2 implies #[trigger] pids_g[j] == pids_p[j % np] && lds_g[j]
                == lds_p[j % np] by {
                if j < np {
                    lemma_small_mod_self(j, gdp as nat);
                } else {
                    crate::hash_math::lemma_upper_half_mod(j, gdp as nat);
                }
            }
            if grew {
                vstd::arithmetic::div_mod::lemma_mod_mod(h as int, np, 2);
                assert((slot2 as int) % np == slot as int);
            } else {
                lemma_small_mod_self(slot2 as int, gdp as nat);
                assert((slot2 as int) % np == slot as int);
            }
            assert(pids_g[slot2 as int] == bpid);
            assert(lds_g[slot2 as int] == ld);
            assert(ld < gd2);
            assert(directory.wf());
        }
        proof {
            lemma_no_pins(self.bpm());
        }
        let new_bpid = match self.buffer_pool_manager.new_page() {
            Some(p) => p,
            None => 0,
        };
        let u3 = self.buffer_pool_manager.unpin_page(new_bpid, true);
        proof {
            reveal(ExtendibleHashTable::bucket_slot_wf);
            assert forall|j: int|
                0 <= j < pids_g.len() implies #[trigger] pids_g[j] != new_bpid by {
                if pids_g[j] != 0 {
                    let j0 = j % np;
                    vstd::arithmetic::div_mod::lemma_mod_bound(j, np);
                    assert(pids_p[j0] != 0);
                    assert(pre.bucket_slot_wf(j0));
                }
            }
        }
        directory.split_slot(slot2, new_bpid);
        // Redistribute the full bucket's entries between
        // the two buckets of the finer class.
        let d2 = ld + 1;
        let m2 = crate::hash_math::pow2_u64(d2);
        let slot2_lo = (slot2 as u64) % m2;
        let mut entries = bucket.get_entries();
        let mut keep = ExtendibleHTableBucketPage::new(self.bucket_max_size);
        let mut moved = ExtendibleHTableBucketPage::new(self.bucket_max_size);
        let ghost es = pre.bucket_at(bpid).1;
        let ghost total = es.len();
        proof {
            assert(crate::extendible_hash_table_bucket_page::entry_views(entries@)
                == es);
            assert(es.skip(0) =~= es);
            assert(es.take(0) =~= Seq::<(Seq<u8>, u64)>::empty());
        }
        while entries.len() > 0
            invariant
                crate::extendible_hash_table_bucket_page::entry_views(entries@)
                    =~= es.skip(total - entries@.len()),
                entries@.len() <= total,
                total == es.len(),
                distinct_keys(es),
                forall|j: int|
                    0 <= j < es.len() ==> (#[trigger] es[j]).0.len() < 0x10000000,
                keep.wf(),
                moved.wf(),
                keep.spec_max_size() == pre.spec_bucket_max_size(),
                moved.spec_max_size() == pre.spec_bucket_max_size(),
                total <= pre.spec_bucket_max_size(),
                keep.spec_entries().len() + moved.spec_entries().len() == total
                    - entries@.len(),
                m2 == pow2(d2 as nat),
                m2 >= 1,
                d2 < 64,
                slot2_lo == (slot2 as int) % (pow2(d2 as nat) as int),
                forall|kb2: Seq<u8>|
                    #[trigger] keep.contents().contains_key(kb2) == (entries_contents(
                        es.take(total - entries@.len()),
                    ).contains_key(kb2) && cong(
                        hash_of_bytes(kb2) as int,
                        slot2 as int,
                        d2 as nat,
                    )),
                forall|kb2: Seq<u8>|
                    #[trigger] moved.contents().contains_key(kb2) == (entries_contents(
                        es.take(total - entries@.len()),
                    ).contains_key(kb2) && !cong(
                        hash_of_bytes(kb2) as int,
                        slot2 as int,
                        d2 as nat,
                    )),
                forall|kb2: Seq<u8>|
                    #[trigger] keep.contents().contains_key(kb2)
                        ==> keep.contents()[kb2] == entries_contents(
                        es.take(total - entries@.len()),
                    )[kb2],
                forall|kb2: Seq<u8>|
                    #[trigger] moved.contents().contains_key(kb2)
                        ==> moved.contents()[kb2] == entries_contents(
                        es.take(total - entries@.len()),
                    )[kb2],
            decreases entries@.len(),
        {
            let ghost i = total - entries@.len();
            let ghost before = entries@;
            let e = entries.remove(0);
            proof {
                let ev = crate::extendible_hash_table_bucket_page::entry_views(
                    before,
                );
                assert(ev =~= es.skip(i as int));
                assert(ev[0] == (before[0].0@, before[0].1));
                assert(e == before[0]);
                assert((e.0@, e.1) == es[i]);
                assert forall|t: int|
                    0 <= t < entries@.len() implies
                    crate::extendible_hash_table_bucket_page::entry_views(
                    entries@,
                )[t] == es.skip(i + 1)[t] by {
                    assert(entries@[t] == before[t + 1]);
                    assert(ev[t + 1] == (before[t + 1].0@, before[t + 1].1));
                }
                assert(crate::extendible_hash_table_bucket_page::entry_views(
                    entries@,
                ) =~= es.skip(i + 1));
                assert(es.take(i + 1) =~= es.take(i).push(es[i]));
                assert(es.take(i + 1).drop_last() =~= es.take(i));
                assert(entries_contents(es.take(i + 1)) == entries_contents(
                    es.take(i),
                ).insert(es[i].0, es[i].1));
                assert forall|j: int|
                    0 <= j < es.take(i).len() implies (#[trigger] es.take(i)[j]).0
                    != es[i].0 by {
                    assert(es.take(i)[j] == es[j]);
                }
                crate::extendible_hash_table_bucket_page::lemma_contents_absent(
                    es.take(i),
                    es[i].0,
                );
            }
            let eh = hash_bytes(&e.0);
            let keep_side = (eh as u64) % m2 == slot2_lo;
            proof {
                assert(keep_side == cong(
                    hash_of_bytes(e.0@) as int,
                    slot2 as int,
                    d2 as nat,
                ));
            }
            if keep_side {
                keep.insert(e.0, e.1);
            } else {
                moved.insert(e.0, e.1);
            }
        }
        proof {
            assert(es.take(total as int) =~= es);
        }
        proof {
            assert(es.take(total as int) =~= es);
            let gq = directory.spec_global_depth() as nat;
            assert forall|j: int|
                0 <= j < pow2(gq) && cong(j, slot2 as int, ld as nat) implies
                #[trigger] directory.lds()[j] == ld + 1 by {
                let probe = directory.pids()[j];
            }
            assert forall|j: int|
                0 <= j < pow2(gq) && cong(j, slot2 as int, ld as nat) implies
                #[trigger] directory.pids()[j] == (if cong(
                    j,
                    slot2 as int,
                    ld as nat + 1,
                ) {
                    bpid
                } else {
                    new_bpid
                }) by {
                let probe = directory.pids()[j];
            }
            assert forall|j: int|
                0 <= j < pow2(gq) && !cong(j, slot2 as int, ld as nat) implies
                #[trigger] directory.lds()[j] == pre.dir().3[j % (pow2(
                    pre.dir().1 as nat,
                ) as int)] by {
                let probe = directory.pids()[j];
                assert(directory.lds()[j] == lds_g[j]);
                assert(lds_g[j] == lds_p[j % np]);
            }
            assert forall|j: int|
                0 <= j < pow2(gq) && !cong(j, slot2 as int, ld as nat) implies
                #[trigger] directory.pids()[j] == pre.dir().2[j % (pow2(
                    pre.dir().1 as nat,
                ) as int)] by {
                let probe = directory.pids()[j];
                assert(directory.pids()[j] == pids_g[j]);
                assert(pids_g[j] == pids_p[j % np]);
            }
        }
        self.commit_split(
            Ghost(pre),
            Ghost(es),
            dpid,
            bpid,
            new_bpid,
            slot,
            slot2,
            ld,
            directory,
            keep,
            moved,
            h,
            Ghost(grew),
        );
        Ok(())
    }

    /// Check the directory's depth invariant, as a diagnostic: under
    /// this table's own well-formedness the check always passes.
    pub fn verify_integrity(&mut self) -> (r: bool)
        requires
            old(self).wf(),
        ensures
            final(self).wf(),
            final(self).as_map() == old(self).as_map(),
            r == true,
    {
        proof {
            lemma_no_pins(old(self).bpm());
        }
        let header_bytes = match self.buffer_pool_manager.fetch_page_read(self.header_page_id) {
            Some(b) => b,
            None => Vec::new(),
        };
        let u0 = self.buffer_pool_manager.unpin_page(self.header_page_id, false);
        proof {
            reveal(ExtendibleHashTable::header_slots);
            assert(decode_header(header_bytes@) == Some((0u32, old(self).header_slots())));
        }
        let header = ExtendibleHTableHeaderPage::from_bytes(&header_bytes);
        proof {
            assert(header.slots() == old(self).header_slots());
            assert(header.spec_max_depth() == 0);
        }
        let dpid = match header.get_directory_page_id(0) {
            Some(d) => d,
            None => {
                proof {
                    self.lemma_unchanged_map(*old(self));
                }
                return true;
            },
        };
        proof {
            assert(old(self).header_slots()[0] == dpid && dpid != 0);
            assert(old(self).has_dir() && old(self).dir_pid() == dpid);
            reveal(ExtendibleHashTable::dir);
            assert(1 <= dpid <= old(self).spec_next_page_id());
        }
        let dir_bytes = match self.buffer_pool_manager.fetch_page_read(dpid) {
            Some(b) => b,
            None => Vec::new(),
        };
        proof {
            reveal(ExtendibleHashTable::dir);
            assert(decode_directory(dir_bytes@) == Some(old(self).dir()));
        }
        let u1 = self.buffer_pool_manager.unpin_page(dpid, false);
        let directory = ExtendibleHTableDirectoryPage::from_bytes(&dir_bytes);
        proof {
            self.lemma_unchanged_map(*old(self));
        }
        proof {
            assert((
                directory.spec_max_depth(),
                directory.spec_global_depth(),
                directory.pids(),
                directory.lds(),
            ) == old(self).dir());
            assert(directory.wf());
        }
        let ok = directory.verify_integrity();
        proof {
            assert(ok == true);
        }
        ok
    }

    /// Two table states whose pages read the same hold the same map.
    proof fn lemma_unchanged_map(&self, pre: ExtendibleHashTable)
        requires
            pre.wf(),
            self.spec_header_page_id() == pre.spec_header_page_id(),
            self.spec_directory_max_depth() == pre.spec_directory_max_depth(),
            self.spec_bucket_max_size() == pre.spec_bucket_max_size(),
            self.bpm().wf(),
            self.bpm().num_pinned() == 0,
            self.bpm().pool_size() == pre.bpm().pool_size(),
            self.bpm().spec_next_page_id() == pre.bpm().spec_next_page_id(),
            forall|q: u64| #[trigger] self.bpm().page_bytes(q) == pre.bpm().page_bytes(q),
        ensures
            self.wf(),
            self.as_map() == pre.as_map(),
            forall|kb: Seq<u8>| #[trigger] self.spec_get_bytes(kb) == pre.spec_get_bytes(kb),
            self.header_slots() == pre.header_slots(),
            self.dir_pid() == pre.dir_pid(),
            self.has_dir() == pre.has_dir(),
            self.dir() == pre.dir(),
            forall|pid: u64| #[trigger] self.bucket_at(pid) == pre.bucket_at(pid),
    {
        reveal(ExtendibleHashTable::bucket_slot_wf);
        reveal(ExtendibleHashTable::spec_get_bytes);
        reveal(ExtendibleHashTable::header_slots);
        reveal(ExtendibleHashTable::dir);
        reveal(ExtendibleHashTable::bucket_at);
        assert(self.bpm().page_bytes(self.spec_header_page_id()) == pre.bpm().page_bytes(
            pre.spec_header_page_id(),
        ));
        assert(self.header_slots() == pre.header_slots());
        assert(self.bpm().page_bytes(self.dir_pid()) == pre.bpm().page_bytes(pre.dir_pid()));
        assert(self.dir() == pre.dir());
        assert(forall|pid: u64| #[trigger] self.bucket_at(pid) == pre.bucket_at(pid));
        if pre.has_dir() {
            assert(self.bpm().page_bytes(self.dir_pid()) == pre.bpm().page_bytes(pre.dir_pid()));
            assert(self.dir() == pre.dir());
            let (md, gd, pids, lds) = pre.dir();
            assert forall|i: int|
                0 <= i < pids.len() && (#[trigger] pids[i]) != 0 implies self.bucket_slot_wf(
                i,
            ) by {
                assert(pre.bucket_slot_wf(i));
                assert(self.bpm().page_bytes(pids[i]) == pre.bpm().page_bytes(pids[i]));
            }
            assert forall|kb: Seq<u8>| #[trigger] self.spec_get_bytes(kb) == pre.spec_get_bytes(
                kb,
            ) by {
                let slot = (hash_of_bytes(kb) as int) % (pow2(gd as nat) as int);
                lemma_pow2_pos(gd as nat);
                vstd::arithmetic::div_mod::lemma_mod_bound(
                    hash_of_bytes(kb) as int,
                    pow2(gd as nat) as int,
                );
                if pids[slot] != 0 {
                    assert(self.bpm().page_bytes(pids[slot]) == pre.bpm().page_bytes(pids[slot]));
                }
            }
        } else {
            assert(forall|kb: Seq<u8>| #[trigger] self.spec_get_bytes(kb) == pre.spec_get_bytes(
                kb,
            ));
        }
        assert(self.as_map() =~= pre.as_map());
    }
}

/// Hash raw key bytes to a 32-bit value.
pub fn hash_bytes(b: &Vec<u8>) -> (r: u32)
    ensures
        r == hash_of_bytes(b@),
{
    let mut hasher = DefaultHasher::new();
    hasher.write(b.as_slice());
    let h = hasher.finish();
    proof {
        assert(hasher@ =~= seq![b@]);
    }
    (h % 0xFFFFFFFFu64) as u32
}

/// A table whose byte-level lookups are those of `initial` with one
/// key bound to `v` holds `initial`'s map with that key bound to `v`.
proof fn lemma_map_insert(
    initial: ExtendibleHashTable,
    post: ExtendibleHashTable,
    k: Seq<char>,
    v: u64,
)
    requires
        forall|kb2: Seq<u8>|
            #[trigger] post.spec_get_bytes(kb2) == (if kb2 == encode_utf8(k) {
                Some(v)
            } else {
                initial.spec_get_bytes(kb2)
            }),
    ensures
        post.as_map() == initial.as_map().insert(k, v),
{
    assert forall|k2: Seq<char>| #[trigger] post.spec_get(k2) == (if k2 == k {
        Some(v)
    } else {
        initial.spec_get(k2)
    }) by {
        if encode_utf8(k2) == encode_utf8(k) {
            vstd::utf8::encode_utf8_decode_utf8(k2);
            vstd::utf8::encode_utf8_decode_utf8(k);
            assert(k2 == k);
        }
    }
    assert(post.as_map() =~= initial.as_map().insert(k, v));
}

/// The well-formedness half of the split argument: after the three
/// page writes the table is well formed and the key's bucket uses one
/// more bit.
#[verifier::rlimit(100)]
proof fn lemma_split_wf(
    pre: ExtendibleHashTable,
    post: ExtendibleHashTable,
    directory: ExtendibleHTableDirectoryPage,
    keep: ExtendibleHTableBucketPage,
    moved: ExtendibleHTableBucketPage,
    dpid: u64,
    bpid: u64,
    new_bpid: u64,
    slot: int,
    slot2: int,
    ld: u32,
    gd2: u32,
    grew: bool,
    h: u32,
    es: Seq<(Seq<u8>, u64)>,
)
    requires
        pre.wf(),
        pre.has_dir(),
        pre.dir_pid() == dpid,
        0 <= slot < pre.dir().2.len(),
        slot == pre.key_slot(h),
        pre.dir().2[slot] == bpid,
        bpid != 0,
        pre.dir().3[slot] == ld,
        es == pre.bucket_at(bpid).1,
        es.len() == pre.spec_bucket_max_size(),
        gd2 == directory.spec_global_depth(),
        directory.spec_max_depth() == pre.dir().0,
        directory.wf(),
        grew ==> gd2 == pre.dir().1 + 1 && ld == pre.dir().1,
        !grew ==> gd2 == pre.dir().1 && ld < gd2,
        ld < gd2,
        slot2 == (h as int) % (pow2(gd2 as nat) as int),
        // the split's elementwise outcome relative to the old arrays
        forall|j: int|
            #![trigger directory.lds()[j]]
            0 <= j < pow2(gd2 as nat) && cong(j, slot2, ld as nat) ==> directory.lds()[j] == ld
                + 1,
        forall|j: int|
            #![trigger directory.pids()[j]]
            0 <= j < pow2(gd2 as nat) && cong(j, slot2, ld as nat) ==> directory.pids()[j] == (
            if cong(j, slot2, ld as nat + 1) {
                bpid
            } else {
                new_bpid
            }),
        forall|j: int|
            #![trigger directory.lds()[j]]
            0 <= j < pow2(gd2 as nat) && !cong(j, slot2, ld as nat) ==> directory.lds()[j]
                == pre.dir().3[j % (pow2(pre.dir().1 as nat) as int)],
        forall|j: int|
            #![trigger directory.pids()[j]]
            0 <= j < pow2(gd2 as nat) && !cong(j, slot2, ld as nat) ==> directory.pids()[j]
                == pre.dir().2[j % (pow2(pre.dir().1 as nat) as int)],
        (slot2 as int) % (pow2(pre.dir().1 as nat) as int) == slot,
        // the redistributed buckets
        keep.wf(),
        moved.wf(),
        keep.spec_max_size() == pre.spec_bucket_max_size(),
        moved.spec_max_size() == pre.spec_bucket_max_size(),
        keep.spec_entries().len() + moved.spec_entries().len() == es.len(),
        forall|kb2: Seq<u8>|
            #[trigger] keep.contents().contains_key(kb2) == (entries_contents(
                es,
            ).contains_key(kb2) && cong(hash_of_bytes(kb2) as int, slot2, ld as nat + 1)),
        forall|kb2: Seq<u8>|
            #[trigger] moved.contents().contains_key(kb2) == (entries_contents(
                es,
            ).contains_key(kb2) && !cong(hash_of_bytes(kb2) as int, slot2, ld as nat + 1)),
        forall|kb2: Seq<u8>|
            #[trigger] keep.contents().contains_key(kb2) ==> keep.contents()[kb2]
                == entries_contents(es)[kb2],
        forall|kb2: Seq<u8>|
            #[trigger] moved.contents().contains_key(kb2) ==> moved.contents()[kb2]
                == entries_contents(es)[kb2],
        // the post state's pages
        new_bpid == pre.spec_next_page_id() + 1,
        post.spec_header_page_id() == pre.spec_header_page_id(),
        post.spec_directory_max_depth() == pre.spec_directory_max_depth(),
        post.spec_bucket_max_size() == pre.spec_bucket_max_size(),
        post.spec_next_page_id() == pre.spec_next_page_id() + 1,
        post.bpm().wf(),
        post.bpm().num_pinned() == 0,
        post.bpm().pool_size() == pre.bpm().pool_size(),
        decode_directory(post.bpm().page_bytes(dpid)) == Some(
            (directory.spec_max_depth(), gd2, directory.pids(), directory.lds()),
        ),
        decode_bucket(post.bpm().page_bytes(bpid)) == Some(
            (pre.spec_bucket_max_size() as u64, keep.spec_entries()),
        ),
        decode_bucket(post.bpm().page_bytes(new_bpid)) == Some(
            (pre.spec_bucket_max_size() as u64, moved.spec_entries()),
        ),
        forall|q: u64|
            q != dpid && q != bpid && q != new_bpid ==> #[trigger] post.bpm().page_bytes(q)
                == pre.bpm().page_bytes(q),
    ensures
        post.wf(),
        post.has_dir(),
        post.dir_pid() == dpid,
        post.key_ld(h) == ld + 1,
        post.key_ld(h) <= post.dir().1,
{
    reveal(ExtendibleHashTable::bucket_slot_wf);
    reveal(ExtendibleHashTable::spec_get_bytes);
    reveal(ExtendibleHashTable::header_slots);
    reveal(ExtendibleHashTable::dir);
    reveal(ExtendibleHashTable::bucket_at);
    let gdp = pre.dir().1;
    let np = pow2(gdp as nat) as int;
    let pids_p = pre.dir().2;
    let lds_p = pre.dir().3;
    let n2 = pow2(gd2 as nat) as int;
    lemma_pow2_pos(gdp as nat);
    lemma_pow2_pos(gd2 as nat);
    vstd::arithmetic::div_mod::lemma_mod_bound(h as int, np);
    vstd::arithmetic::div_mod::lemma_mod_bound(h as int, n2);
    assert(pre.bucket_slot_wf(slot));
    lemma_small_mod_self(slot, gdp as nat);
    assert(cong(slot2, slot, gdp as nat));
    lemma_pow2_adds(gdp as nat, 1);
    lemma2_to64();
    if grew {
        assert(n2 == 2 * np);
    }
    let pids_g = Seq::<u64>::new(pow2(gd2 as nat), |j: int| pids_p[j % np]);
    let lds_g = Seq::<u32>::new(pow2(gd2 as nat), |j: int| lds_p[j % np]);
                        
                        let d = ld as nat;
                        let s2 = slot2;
                        let pids_q = directory.pids();
                        let lds_q = directory.lds();
                        // Page identities stay distinct.
                        assert(pre.bucket_slot_wf(slot));
                        assert(new_bpid == pre.spec_next_page_id() + 1);
                        assert(bpid <= pre.spec_next_page_id());
                        assert(dpid <= pre.spec_next_page_id());
                        assert(pre.spec_header_page_id() <= pre.spec_next_page_id());
                        // Decoded page records after the three writes.
                        assert(post.bpm().page_bytes(pre.spec_header_page_id())
                            == pre.bpm().page_bytes(pre.spec_header_page_id()));
                        assert(post.header_slots() == pre.header_slots());
                        assert(post.has_dir() && post.dir_pid() == dpid);
                        assert(post.dir() == (
                            directory.spec_max_depth(),
                            gd2,
                            pids_q,
                            lds_q,
                        ));
                        assert(post.bucket_at(bpid).1 == keep.spec_entries());
                        assert(post.bucket_at(new_bpid).1 == moved.spec_entries());
                        // Outside the split class nothing shares the split pages.
                        assert forall|i: int|
                            0 <= i < n2 && !cong(i, s2, d) && (#[trigger] pids_q[i]) != 0 implies
                            pids_q[i] != bpid && pids_q[i] != new_bpid && pids_q[i] != dpid
                                && pids_q[i] != pre.spec_header_page_id() && pre.bucket_slot_wf(
                                i % np,
                            ) && post.bpm().page_bytes(pids_q[i]) == pre.bpm().page_bytes(
                                pids_q[i],
                            ) by {
                            let i0 = i % np;
                            vstd::arithmetic::div_mod::lemma_mod_bound(i, np);
                            assert(pids_q[i] == pids_g[i] && pids_g[i] == pids_p[i0]);
                            assert(pre.bucket_slot_wf(i0));
                            assert(pids_q[i] != new_bpid);
                            if pids_p[i0] == bpid {
                                assert(pids_p[i0] == pids_p[slot] && pids_p[i0] != 0);
                                assert(cong(i0, slot, lds_p[i0] as nat));
                                assert(lds_p[slot] == lds_p[i0]);
                                assert(lds_p[i0] == ld);
                                crate::hash_math::lemma_mod_mod_pow2(i, gdp as nat);
                                lemma_cong_weaken(i, i0, d, gdp as nat);
                                lemma_cong_weaken(s2, slot, d, gdp as nat);
                                assert(cong(i, s2, d));
                                assert(false);
                            }
                        }
                        // The directory keeps its shape and invariant.
                        assert(directory.wf());
                        assert forall|i: int|
                            0 <= i < pids_q.len() && (#[trigger] pids_q[i]) == 0 implies gd2
                            == 0 by {
                            if cong(i, s2, d) {
                                assert(pids_q[i] != 0);
                            } else {
                                let i0 = i % np;
                                vstd::arithmetic::div_mod::lemma_mod_bound(i, np);
                                assert(pids_p[i0] == 0);
                                assert(gdp == 0);
                                lemma2_to64();
                                assert(i0 == 0 && slot == 0);
                                assert(pids_p[0] == bpid);
                                assert(false);
                            }
                        }
                        // Buckets behind every installed slot.
                        assert(keep.spec_entries().len() + moved.spec_entries().len()
                            == es.len());
                        assert forall|i: int|
                            0 <= i < pids_q.len() && (#[trigger] pids_q[i]) != 0 implies
                            post.bucket_slot_wf(i) by {
                            if cong(i, s2, d) {
                                assert(lds_q[i] == ld + 1);
                                let side_keep = cong(i, s2, d + 1);
                                let b = (if side_keep {
                                    keep
                                } else {
                                    moved
                                });
                                assert(post.bucket_at(pids_q[i]).1 == b.spec_entries());
                                assert forall|j: int|
                                    0 <= j < b.spec_entries().len() implies cong(
                                    hash_of_bytes((#[trigger] b.spec_entries()[j]).0) as int,
                                    i,
                                    lds_q[i] as nat,
                                ) by {
                                    crate::extendible_hash_table_bucket_page::lemma_contents_found(
                                        b.spec_entries(),
                                        j,
                                    );
                                    let kbj = b.spec_entries()[j].0;
                                    let h2 = hash_of_bytes(kbj) as int;
                                    assert(b.contents().contains_key(kbj));
                                    assert(entries_contents(es).contains_key(kbj));
                                    crate::extendible_hash_table_bucket_page::lemma_contents_member(
                                        es,
                                        kbj,
                                    );
                                    let w = choose|w: int|
                                        0 <= w < es.len() && (#[trigger] es[w]).0 == kbj;
                                    assert(cong(h2, slot, d));
                                    lemma_cong_weaken(s2, slot, d, gdp as nat);
                                    assert(cong(h2, s2, d));
                                    if side_keep {
                                        assert(cong(h2, s2, d + 1));
                                        assert(cong(h2, i, d + 1));
                                    } else {
                                        assert(!cong(h2, s2, d + 1));
                                        assert(!cong(i, s2, d + 1));
                                        crate::hash_math::lemma_cong_succ(h2, s2, d);
                                        crate::hash_math::lemma_cong_succ(i, s2, d);
                                        crate::hash_math::lemma_cong_succ(h2, i, d);
                                        vstd::arithmetic::div_mod::lemma_mod_bound(
                                            h2 / (pow2(d) as int),
                                            2,
                                        );
                                        vstd::arithmetic::div_mod::lemma_mod_bound(
                                            i / (pow2(d) as int),
                                            2,
                                        );
                                        vstd::arithmetic::div_mod::lemma_mod_bound(
                                            s2 / (pow2(d) as int),
                                            2,
                                        );
                                        lemma_pow2_pos(d);
                                        vstd::arithmetic::div_mod::lemma_div_pos_is_pos(
                                            h2,
                                            pow2(d) as int,
                                        );
                                        vstd::arithmetic::div_mod::lemma_div_pos_is_pos(
                                            i,
                                            pow2(d) as int,
                                        );
                                        vstd::arithmetic::div_mod::lemma_div_pos_is_pos(
                                            s2,
                                            pow2(d) as int,
                                        );
                                        assert(crate::hash_math::bit_at(h2, d)
                                            == crate::hash_math::bit_at(i, d));
                                        assert(cong(h2, i, d + 1));
                                    }
                                }
                            } else {
                                let i0 = i % np;
                                vstd::arithmetic::div_mod::lemma_mod_bound(i, np);
                                assert(pre.bucket_slot_wf(i0));
                                assert(pids_q[i] == pids_p[i0]);
                                assert(lds_q[i] == lds_p[i0]);
                                assert(post.bpm().page_bytes(pids_q[i]) == pre.bpm().page_bytes(
                                    pids_q[i],
                                ));
                                let es0 = pre.bucket_at(pids_p[i0]).1;
                                assert forall|j: int|
                                    0 <= j < es0.len() implies cong(
                                    hash_of_bytes((#[trigger] es0[j]).0) as int,
                                    i,
                                    lds_q[i] as nat,
                                ) by {
                                    assert(cong(
                                        hash_of_bytes(es0[j].0) as int,
                                        i0,
                                        lds_p[i0] as nat,
                                    ));
                                    crate::hash_math::lemma_mod_mod_pow2(i, gdp as nat);
                                    lemma_cong_weaken(i, i0, lds_p[i0] as nat, gdp as nat);
                                }
                            }
                        }
                        assert(post.dir_wf());
                        assert(post.wf());
                        // The loop invariant strengthens: the key's
                        // bucket now uses one more bit.
                        assert(cong(s2, s2, d));
                        assert(post.dir() == (directory.spec_max_depth(), gd2, pids_q, lds_q));
                        assert(post.key_slot(h) == s2) by {
                            vstd::arithmetic::div_mod::lemma_mod_bound(h as int, n2);
                        }
                        let probe = directory.pids()[s2];
                        assert(directory.pids()[s2] == probe);
                        assert(lds_q[s2] == ld + 1);
                        assert(post.key_ld(h) == ld + 1);
                        assert(post.spec_next_page_id() == pre.spec_next_page_id() + 1);
}

/// The lookup half of the split argument: every key reads after the
/// split exactly what it read before.
#[verifier::rlimit(100)]
proof fn lemma_split_lookup(
    pre: ExtendibleHashTable,
    post: ExtendibleHashTable,
    directory: ExtendibleHTableDirectoryPage,
    keep: ExtendibleHTableBucketPage,
    moved: ExtendibleHTableBucketPage,
    dpid: u64,
    bpid: u64,
    new_bpid: u64,
    slot: int,
    slot2: int,
    ld: u32,
    gd2: u32,
    grew: bool,
    h: u32,
    es: Seq<(Seq<u8>, u64)>,
)
    requires
        pre.wf(),
        pre.has_dir(),
        pre.dir_pid() == dpid,
        0 <= slot < pre.dir().2.len(),
        slot == pre.key_slot(h),
        pre.dir().2[slot] == bpid,
        bpid != 0,
        pre.dir().3[slot] == ld,
        es == pre.bucket_at(bpid).1,
        es.len() == pre.spec_bucket_max_size(),
        gd2 == directory.spec_global_depth(),
        directory.spec_max_depth() == pre.dir().0,
        directory.wf(),
        grew ==> gd2 == pre.dir().1 + 1 && ld == pre.dir().1,
        !grew ==> gd2 == pre.dir().1 && ld < gd2,
        ld < gd2,
        slot2 == (h as int) % (pow2(gd2 as nat) as int),
        // the split's elementwise outcome relative to the old arrays
        forall|j: int|
            #![trigger directory.lds()[j]]
            0 <= j < pow2(gd2 as nat) && cong(j, slot2, ld as nat) ==> directory.lds()[j] == ld
                + 1,
        forall|j: int|
            #![trigger directory.pids()[j]]
            0 <= j < pow2(gd2 as nat) && cong(j, slot2, ld as nat) ==> directory.pids()[j] == (
            if cong(j, slot2, ld as nat + 1) {
                bpid
            } else {
                new_bpid
            }),
        forall|j: int|
            #![trigger directory.lds()[j]]
            0 <= j < pow2(gd2 as nat) && !cong(j, slot2, ld as nat) ==> directory.lds()[j]
                == pre.dir().3[j % (pow2(pre.dir().1 as nat) as int)],
        forall|j: int|
            #![trigger directory.pids()[j]]
            0 <= j < pow2(gd2 as nat) && !cong(j, slot2, ld as nat) ==> directory.pids()[j]
                == pre.dir().2[j % (pow2(pre.dir().1 as nat) as int)],
        (slot2 as int) % (pow2(pre.dir().1 as nat) as int) == slot,
        // the redistributed buckets
        keep.wf(),
        moved.wf(),
        keep.spec_max_size() == pre.spec_bucket_max_size(),
        moved.spec_max_size() == pre.spec_bucket_max_size(),
        keep.spec_entries().len() + moved.spec_entries().len() == es.len(),
        forall|kb2: Seq<u8>|
            #[trigger] keep.contents().contains_key(kb2) == (entries_contents(
                es,
            ).contains_key(kb2) && cong(hash_of_bytes(kb2) as int, slot2, ld as nat + 1)),
        forall|kb2: Seq<u8>|
            #[trigger] moved.contents().contains_key(kb2) == (entries_contents(
                es,
            ).contains_key(kb2) && !cong(hash_of_bytes(kb2) as int, slot2, ld as nat + 1)),
        forall|kb2: Seq<u8>|
            #[trigger] keep.contents().contains_key(kb2) ==> keep.contents()[kb2]
                == entries_contents(es)[kb2],
        forall|kb2: Seq<u8>|
            #[trigger] moved.contents().contains_key(kb2) ==> moved.contents()[kb2]
                == entries_contents(es)[kb2],
        // the post state's pages
        new_bpid == pre.spec_next_page_id() + 1,
        post.spec_header_page_id() == pre.spec_header_page_id(),
        post.spec_directory_max_depth() == pre.spec_directory_max_depth(),
        post.spec_bucket_max_size() == pre.spec_bucket_max_size(),
        post.spec_next_page_id() == pre.spec_next_page_id() + 1,
        post.bpm().wf(),
        post.bpm().num_pinned() == 0,
        post.bpm().pool_size() == pre.bpm().pool_size(),
        decode_directory(post.bpm().page_bytes(dpid)) == Some(
            (directory.spec_max_depth(), gd2, directory.pids(), directory.lds()),
        ),
        decode_bucket(post.bpm().page_bytes(bpid)) == Some(
            (pre.spec_bucket_max_size() as u64, keep.spec_entries()),
        ),
        decode_bucket(post.bpm().page_bytes(new_bpid)) == Some(
            (pre.spec_bucket_max_size() as u64, moved.spec_entries()),
        ),
        forall|q: u64|
            q != dpid && q != bpid && q != new_bpid ==> #[trigger] post.bpm().page_bytes(q)
                == pre.bpm().page_bytes(q),
    ensures
        forall|kb2: Seq<u8>| #[trigger] post.spec_get_bytes(kb2) == pre.spec_get_bytes(kb2),
{
    reveal(ExtendibleHashTable::bucket_slot_wf);
    reveal(ExtendibleHashTable::spec_get_bytes);
    reveal(ExtendibleHashTable::header_slots);
    reveal(ExtendibleHashTable::dir);
    reveal(ExtendibleHashTable::bucket_at);
    let gdp = pre.dir().1;
    let np = pow2(gdp as nat) as int;
    let pids_p = pre.dir().2;
    let lds_p = pre.dir().3;
    let n2 = pow2(gd2 as nat) as int;
    lemma_pow2_pos(gdp as nat);
    lemma_pow2_pos(gd2 as nat);
    vstd::arithmetic::div_mod::lemma_mod_bound(h as int, np);
    vstd::arithmetic::div_mod::lemma_mod_bound(h as int, n2);
    assert(pre.bucket_slot_wf(slot));
    lemma_small_mod_self(slot, gdp as nat);
    assert(cong(slot2, slot, gdp as nat));
    lemma_pow2_adds(gdp as nat, 1);
    lemma2_to64();
    if grew {
        assert(n2 == 2 * np);
    }
    let pids_g = Seq::<u64>::new(pow2(gd2 as nat), |j: int| pids_p[j % np]);
    let lds_g = Seq::<u32>::new(pow2(gd2 as nat), |j: int| lds_p[j % np]);
                        
                        let d = ld as nat;
                        let s2 = slot2;
                        let pids_q = directory.pids();
                        let lds_q = directory.lds();
                        // Page identities stay distinct.
                        assert(pre.bucket_slot_wf(slot));
                        assert(new_bpid == pre.spec_next_page_id() + 1);
                        assert(bpid <= pre.spec_next_page_id());
                        assert(dpid <= pre.spec_next_page_id());
                        assert(pre.spec_header_page_id() <= pre.spec_next_page_id());
                        // Decoded page records after the three writes.
                        assert(post.bpm().page_bytes(pre.spec_header_page_id())
                            == pre.bpm().page_bytes(pre.spec_header_page_id()));
                        assert(post.header_slots() == pre.header_slots());
                        assert(post.has_dir() && post.dir_pid() == dpid);
                        assert(post.dir() == (
                            directory.spec_max_depth(),
                            gd2,
                            pids_q,
                            lds_q,
                        ));
                        assert(post.bucket_at(bpid).1 == keep.spec_entries());
                        assert(post.bucket_at(new_bpid).1 == moved.spec_entries());
                        // Outside the split class nothing shares the split pages.
                        assert forall|i: int|
                            0 <= i < n2 && !cong(i, s2, d) && (#[trigger] pids_q[i]) != 0 implies
                            pids_q[i] != bpid && pids_q[i] != new_bpid && pids_q[i] != dpid
                                && pids_q[i] != pre.spec_header_page_id() && pre.bucket_slot_wf(
                                i % np,
                            ) && post.bpm().page_bytes(pids_q[i]) == pre.bpm().page_bytes(
                                pids_q[i],
                            ) by {
                            let i0 = i % np;
                            vstd::arithmetic::div_mod::lemma_mod_bound(i, np);
                            assert(pids_q[i] == pids_g[i] && pids_g[i] == pids_p[i0]);
                            assert(pre.bucket_slot_wf(i0));
                            assert(pids_q[i] != new_bpid);
                            if pids_p[i0] == bpid {
                                assert(pids_p[i0] == pids_p[slot] && pids_p[i0] != 0);
                                assert(cong(i0, slot, lds_p[i0] as nat));
                                assert(lds_p[slot] == lds_p[i0]);
                                assert(lds_p[i0] == ld);
                                crate::hash_math::lemma_mod_mod_pow2(i, gdp as nat);
                                lemma_cong_weaken(i, i0, d, gdp as nat);
                                lemma_cong_weaken(s2, slot, d, gdp as nat);
                                assert(cong(i, s2, d));
                                assert(false);
                            }
                        }
                        // Every key still reads the same.
                        assert forall|kb2: Seq<u8>|
                            #[trigger] post.spec_get_bytes(kb2) == pre.spec_get_bytes(kb2) by {
                            let h2 = hash_of_bytes(kb2) as int;
                            let sq = h2 % n2;
                            let sp = h2 % np;
                            vstd::arithmetic::div_mod::lemma_mod_bound(h2, n2);
                            vstd::arithmetic::div_mod::lemma_mod_bound(h2, np);
                            lemma_pow2_pos(gd2 as nat);
                            lemma_pow2_pos(gdp as nat);
                            if grew {
                                vstd::arithmetic::div_mod::lemma_mod_mod(h2, np, 2);
                            } else {
                                lemma_small_mod_self(sq, gdp as nat);
                            }
                            assert(sq % np == sp);
                            assert(pids_q[sq] == pids_g[sq] || cong(sq, s2, d));
                            if pids_p[sp] == 0 {
                                assert(gdp == 0);
                                lemma2_to64();
                                assert(sp == 0 && slot == 0);
                                assert(false);
                            }
                            if cong(sq, s2, d) {
                                // This key's slot splits with the bucket.
                                assert(lds_p[slot] == ld);
                                lemma_cong_weaken(s2, slot, d, gdp as nat);
                                crate::hash_math::lemma_mod_mod_pow2(sq, gdp as nat);
                                lemma_cong_weaken(sq, sp, d, gdp as nat);
                                assert(cong(sp, slot, d));
                                assert(lds_p[sp] == lds_p[slot] && pids_p[sp] == pids_p[
                                    slot
                                ]);
                                assert(pids_p[sp] == bpid);
                                crate::hash_math::lemma_mod_mod_pow2(h2, gd2 as nat);
                                lemma_cong_weaken(h2, sq, d + 1, gd2 as nat);
                                if entries_contents(es).contains_key(kb2) {
                                    crate::extendible_hash_table_bucket_page::lemma_contents_member(
                                        es,
                                        kb2,
                                    );
                                    let w = choose|w: int|
                                        0 <= w < es.len() && (#[trigger] es[w]).0 == kb2;
                                    assert(cong(h2, slot, d));
                                    assert(cong(h2, s2, d));
                                    crate::hash_math::lemma_cong_succ(h2, s2, d);
                                    crate::hash_math::lemma_cong_succ(sq, s2, d);
                                    crate::hash_math::lemma_cong_succ(h2, sq, d);
                                    if cong(h2, s2, d + 1) {
                                        assert(keep.contents().contains_key(kb2));
                                        assert(cong(sq, s2, d + 1));
                                        assert(pids_q[sq] == bpid);
                                        assert(keep.contents()[kb2] == entries_contents(es)[kb2]);
                                    } else {
                                        assert(moved.contents().contains_key(kb2));
                                        assert(!cong(sq, s2, d + 1));
                                        assert(pids_q[sq] == new_bpid);
                                        assert(moved.contents()[kb2] == entries_contents(
                                            es,
                                        )[kb2]);
                                    }
                                } else {
                                    assert(!keep.contents().contains_key(kb2));
                                    assert(!moved.contents().contains_key(kb2));
                                }
                            } else {
                                assert(pids_q[sq] == pids_g[sq] && pids_g[sq] == pids_p[sp]);
                                assert(pids_q[sq] != 0);
                                assert(post.bpm().page_bytes(pids_q[sq]) == pre.bpm().page_bytes(
                                    pids_q[sq],
                                ));
                            }
                        }
}

/// Insert/get round trip: an insert makes the table's map
/// `m.insert(k, v)`, and a lookup with no intervening remove reads
/// that map, so it finds `v` at `k`.
pub proof fn lemma_insert_get_round_trip(m: Map<Seq<char>, u64>, k: Seq<char>, v: u64)
    ensures
        m.insert(k, v).contains_key(k),
        m.insert(k, v)[k] == v,
{
}

/// Idempotent insert: inserting the same key and value twice leaves
/// the same table map as inserting it once.
pub proof fn lemma_insert_idempotent(m: Map<Seq<char>, u64>, k: Seq<char>, v: u64)
    ensures
        m.insert(k, v).insert(k, v) == m.insert(k, v),
{
    assert(m.insert(k, v).insert(k, v) =~= m.insert(k, v));
}

/// Overwrite: of two inserts of one key, the second value wins, and
/// every other key is untouched.
pub proof fn lemma_insert_overwrite(m: Map<Seq<char>, u64>, k: Seq<char>, v1: u64, v2: u64)
    ensures
        m.insert(k, v1).insert(k, v2) == m.insert(k, v2),
        m.insert(k, v1).insert(k, v2)[k] == v2,
{
    assert(m.insert(k, v1).insert(k, v2) =~= m.insert(k, v2));
}

/// Remove/get: dropping a key from a table map makes it read as
/// absent, whatever was inserted before.
pub proof fn lemma_insert_remove_get(m: Map<Seq<char>, u64>, k: Seq<char>, v: u64)
    ensures
        !m.insert(k, v).remove(k).contains_key(k),
{
}

/// The set of keys an entry sequence holds.
pub open spec fn entry_key_set(es: Seq<(Seq<u8>, u64)>) -> Set<Seq<u8>> {
    es.map_values(|e: (Seq<u8>, u64)| e.0).to_set()
}

/// With no key repeated, an entry sequence holds exactly as many keys
/// as entries, and membership in the key set is membership in some
/// entry.
proof fn lemma_entry_key_set(es: Seq<(Seq<u8>, u64)>)
    requires
        distinct_keys(es),
    ensures
        entry_key_set(es).finite(),
        entry_key_set(es).len() == es.len(),
        forall|kb: Seq<u8>|
            #[trigger] entry_key_set(es).contains(kb) <==> exists|j: int|
                0 <= j < es.len() && (#[trigger] es[j]).0 == kb,
{
    broadcast use vstd::seq_lib::seq_to_set_is_finite;

    let keys = es.map_values(|e: (Seq<u8>, u64)| e.0);
    assert(keys.no_duplicates()) by {
        assert forall|i: int, j: int|
            0 <= i < keys.len() && 0 <= j < keys.len() && i != j implies keys[i] != keys[j] by {
            assert(keys[i] == es[i].0 && keys[j] == es[j].0);
        }
    }
    keys.unique_seq_to_set();
    assert forall|kb: Seq<u8>| #[trigger] entry_key_set(es).contains(kb) implies exists|j: int|
        0 <= j < es.len() && (#[trigger] es[j]).0 == kb by {
        assert(keys.contains(kb));
        let j = choose|j: int| 0 <= j < keys.len() && keys[j] == kb;
        assert(es[j].0 == kb);
    }
    assert forall|kb: Seq<u8>|
        (exists|j: int| 0 <= j < es.len() && (#[trigger] es[j]).0 == kb) implies
        entry_key_set(es).contains(kb) by {
        let j = choose|j: int| 0 <= j < es.len() && (#[trigger] es[j]).0 == kb;
        assert(keys[j] == kb);
        assert(keys.contains(kb));
    }
}

/// A nonempty finite set has a member.
proof fn lemma_nonempty_member<A>(s: Set<A>) -> (x: A)
    requires
        s.finite(),
        s.len() > 0,
    ensures
        s.contains(x),
{
    broadcast use vstd::set::group_set_axioms;

    if forall|a: A| !(#[trigger] s.contains(a)) {
        assert(s =~= Set::<A>::empty());
        assert(false);
    }
    choose|a: A| s.contains(a)
}

/// A lookup returns exactly what the table's map holds at the key.
pub proof fn lemma_get_matches_map(t: ExtendibleHashTable, k: Seq<char>)
    ensures
        t.spec_get(k) == (if t.as_map().contains_key(k) {
            Some(t.as_map()[k])
        } else {
            None::<u64>
        }),
{
}

} // verus!
