//! Header page of an extendible hash table: a fixed vector of
//! `2^max_depth` directory page ids, indexed by the low bits of a
//! key's hash. The id 0 stands for a slot with no directory yet.

use vstd::prelude::*;

use vstd::arithmetic::power2::pow2;
use vstd::arithmetic::power2::lemma2_to64;

use crate::hash_math::pow2_u64;
use crate::codec::bytes_to_words;
use crate::codec::bytes_to_words_exec;
use crate::codec::lemma_words_roundtrip;
use crate::codec::words_to_bytes;
use crate::codec::words_to_bytes_exec;

verus! {

/// Widest permitted header depth: keeps `2^max_depth` comfortably
/// within address space.
pub const HEADER_MAX_DEPTH_LIMIT: u32 = 20;

/// The words a header page record decodes from: the depth, then one
/// word per directory slot.
pub open spec fn header_from_words(ws: Seq<u64>) -> Option<(u32, Seq<u64>)> {
    if ws.len() >= 1 && ws[0] <= HEADER_MAX_DEPTH_LIMIT as u64 && ws.len() == 1 + pow2(
        ws[0] as nat,
    ) {
        Some((ws[0] as u32, ws.drop_first()))
    } else {
        None
    }
}

/// What a header page's bytes decode to: a depth and the directory
/// page id of every slot (0 for an empty slot).
pub open spec fn decode_header(b: Seq<u8>) -> Option<(u32, Seq<u64>)> {
    if b.len() % 8 == 0 {
        header_from_words(bytes_to_words(b))
    } else {
        None
    }
}

/// In-memory form of the header page.
pub struct ExtendibleHTableHeaderPage {
    directory_page_ids: Vec<u64>,
    max_depth: u32,
}

impl ExtendibleHTableHeaderPage {
    /// Directory page id per slot; 0 stands for none.
    pub closed spec fn slots(self) -> Seq<u64> {
        self.directory_page_ids@
    }

    pub closed spec fn spec_max_depth(self) -> u32 {
        self.max_depth
    }

    pub open spec fn wf(self) -> bool {
        &&& self.spec_max_depth() <= HEADER_MAX_DEPTH_LIMIT
        &&& self.slots().len() == pow2(self.spec_max_depth() as nat)
    }

    pub fn new(max_depth: u32) -> (r: ExtendibleHTableHeaderPage)
        requires
            max_depth <= HEADER_MAX_DEPTH_LIMIT,
        ensures
            r.wf(),
            r.spec_max_depth() == max_depth,
            r.slots().len() == pow2(max_depth as nat),
            forall|i: int| 0 <= i < r.slots().len() ==> r.slots()[i] == 0,
    {
        let n = pow2_u64(max_depth);
        proof {
            lemma2_to64();
            vstd::arithmetic::power2::lemma_pow2_strictly_increases(
                max_depth as nat,
                21,
            );
        }
        let count: usize = n as usize;
        let mut slots: Vec<u64> = Vec::new();
        let mut i: usize = 0;
        while i < count
            invariant
                i <= count,
                slots@.len() == i,
                forall|j: int| 0 <= j < i ==> slots@[j] == 0,
            decreases count - i,
        {
            slots.push(0);
            i = i + 1;
        }
        ExtendibleHTableHeaderPage { directory_page_ids: slots, max_depth }
    }

    /// The directory slot the hash selects: its low `max_depth` bits.
    pub fn hash_to_directory_index(&self, hash: u32) -> (r: usize)
        requires
            self.wf(),
        ensures
            r == (hash as int) % (pow2(self.spec_max_depth() as nat) as int),
            r < self.slots().len(),
    {
        let m = pow2_u64(self.max_depth);
        proof {
            lemma2_to64();
            vstd::arithmetic::power2::lemma_pow2_strictly_increases(
                self.max_depth as nat,
                21,
            );
        }
        ((hash as u64) % m) as usize
    }

    pub fn get_directory_page_id(&self, directory_index: usize) -> (r: Option<u64>)
        requires
            self.wf(),
            directory_index < self.slots().len(),
        ensures
            r == (if self.slots()[directory_index as int] == 0 {
                None::<u64>
            } else {
                Some(self.slots()[directory_index as int])
            }),
    {
        let pid = self.directory_page_ids[directory_index];
        if pid == 0 {
            None
        } else {
            Some(pid)
        }
    }

    pub fn set_directory_page_id(&mut self, directory_index: usize, directory_page_id: u64)
        requires
            old(self).wf(),
            directory_index < old(self).slots().len(),
            directory_page_id != 0,
        ensures
            final(self).wf(),
            final(self).spec_max_depth() == old(self).spec_max_depth(),
            final(self).slots() == old(self).slots().update(
                directory_index as int,
                directory_page_id,
            ),
    {
        let mut slot = self.directory_page_ids.remove(directory_index);
        slot = directory_page_id;
        self.directory_page_ids.insert(directory_index, slot);
        proof {
            assert(self.slots() =~= old(self).slots().update(
                directory_index as int,
                directory_page_id,
            ));
        }
    }

    /// Number of directory slots.
    pub fn get_max_size(&self) -> (r: usize)
        requires
            self.wf(),
        ensures
            r == self.slots().len(),
    {
        self.directory_page_ids.len()
    }

    /// Serialise this record; the bytes decode back to exactly this
    /// record's content.
    pub fn to_bytes(&self) -> (r: Vec<u8>)
        requires
            self.wf(),
        ensures
            decode_header(r@) == Some((self.spec_max_depth(), self.slots())),
    {
        let mut words: Vec<u64> = Vec::new();
        words.push(self.max_depth as u64);
        let mut i: usize = 0;
        let n = self.directory_page_ids.len();
        while i < n
            invariant
                i <= n,
                n == self.slots().len(),
                words@.len() == 1 + i,
                words@[0] == self.spec_max_depth() as u64,
                forall|j: int| 0 <= j < i ==> words@[j + 1] == self.slots()[j],
            decreases n - i,
        {
            words.push(self.directory_page_ids[i]);
            i = i + 1;
        }
        let out = words_to_bytes_exec(&words);
        proof {
            lemma_words_roundtrip(words@);
            crate::codec::lemma_words_to_bytes_len(words@);
            assert(words@.drop_first() =~= self.slots());
        }
        out
    }

    /// Rebuild a record from page bytes known to hold one.
    pub fn from_bytes(bytes: &Vec<u8>) -> (r: ExtendibleHTableHeaderPage)
        requires
            decode_header(bytes@) is Some,
        ensures
            r.wf(),
            Some((r.spec_max_depth(), r.slots())) == decode_header(bytes@),
    {
        let words_opt = bytes_to_words_exec(bytes);
        let words = match words_opt {
            Some(w) => w,
            None => Vec::new(),
        };
        let max_depth = words[0] as u32;
        let mut slots: Vec<u64> = Vec::new();
        let mut i: usize = 1;
        let n = words.len();
        while i < n
            invariant
                1 <= i <= n,
                n == words@.len(),
                slots@.len() == i - 1,
                forall|j: int| 0 <= j < i - 1 ==> slots@[j] == words@[j + 1],
            decreases n - i,
        {
            slots.push(words[i]);
            i = i + 1;
        }
        proof {
            assert(slots@ =~= words@.drop_first());
        }
        ExtendibleHTableHeaderPage { directory_page_ids: slots, max_depth }
    }
}

} // verus!
