//! The disk: an addressable store of page bytes, read and written one
//! page at a time. Pages never read before are all zeroes, like a fresh
//! file extended on demand.

use vstd::prelude::*;

use crate::page::zero_page;

verus! {

/// The page contents a store maps an identifier to, with absent pages
/// reading as all zeroes.
pub open spec fn disk_read_spec(m: Map<u64, Seq<u8>>, id: u64) -> Seq<u8> {
    if m.contains_key(id) {
        m[id]
    } else {
        zero_page()
    }
}

/// Map denoted by an association list, later entries winning.
pub open spec fn entries_map(s: Seq<(u64, Vec<u8>)>) -> Map<u64, Seq<u8>>
    decreases s.len(),
{
    if s.len() == 0 {
        Map::empty()
    } else {
        entries_map(s.drop_last()).insert(s.last().0, s.last().1@)
    }
}

/// An in-memory disk: the bytes of every page ever written, by page id.
pub struct DiskManager {
    pages: Vec<(u64, Vec<u8>)>,
}

impl DiskManager {
    /// The pages the disk holds.
    pub closed spec fn contents(self) -> Map<u64, Seq<u8>> {
        entries_map(self.pages@)
    }

    pub closed spec fn wf(self) -> bool {
        forall|i: int, j: int|
            0 <= i < j < self.pages@.len() ==> (#[trigger] self.pages@[i]).0 != (
            #[trigger] self.pages@[j]).0
    }

    pub fn new() -> (r: DiskManager)
        ensures
            r.wf(),
            r.contents() == Map::<u64, Seq<u8>>::empty(),
    {
        DiskManager { pages: Vec::new() }
    }

    /// Bytes of page `id`: what was last written there, or all zeroes
    /// for a page never written.
    pub fn read_page(&self, id: u64) -> (r: Vec<u8>)
        requires
            self.wf(),
        ensures
            r@ == disk_read_spec(self.contents(), id),
    {
        let mut i: usize = 0;
        let n = self.pages.len();
        while i < n
            invariant
                i <= n,
                n == self.pages@.len(),
                self.wf(),
                forall|j: int| 0 <= j < i ==> (#[trigger] self.pages@[j]).0 != id,
            decreases n - i,
        {
            if self.pages[i].0 == id {
                proof {
                    lemma_entries_map_found(self.pages@, i as int);
                }
                return copy_bytes(&self.pages[i].1);
            }
            i = i + 1;
        }
        proof {
            lemma_entries_map_absent(self.pages@, id);
        }
        crate::page::zero_vec()
    }

    /// Store `data` as the bytes of page `id`.
    pub fn write_page(&mut self, id: u64, data: Vec<u8>)
        requires
            old(self).wf(),
        ensures
            final(self).wf(),
            final(self).contents() == old(self).contents().insert(id, data@),
    {
        let mut i: usize = 0;
        let n = self.pages.len();
        while i < n
            invariant
                i <= n,
                n == self.pages@.len(),
                self.wf(),
                self.pages@ == old(self).pages@,
                forall|j: int| 0 <= j < i ==> (#[trigger] self.pages@[j]).0 != id,
            decreases n - i,
        {
            if self.pages[i].0 == id {
                let mut entry = self.pages.remove(i);
                entry.1 = data;
                self.pages.insert(i, entry);
                proof {
                    assert(self.pages@ =~= old(self).pages@.update(i as int, self.pages@[i as int]));
                    lemma_entries_map_update(old(self).pages@, i as int, self.pages@[i as int]);
                }
                return ;
            }
            i = i + 1;
        }
        self.pages.push((id, data));
        proof {
            assert(self.pages@.drop_last() =~= old(self).pages@);
        }
    }
}

/// A fresh vector holding the same bytes.
pub fn copy_bytes(src: &Vec<u8>) -> (r: Vec<u8>)
    ensures
        r@ == src@,
{
    let mut out: Vec<u8> = Vec::new();
    let mut i: usize = 0;
    let n = src.len();
    while i < n
        invariant
            i <= n,
            n == src@.len(),
            out@ == src@.take(i as int),
        decreases n - i,
    {
        out.push(src[i]);
        proof {
            assert(out@ =~= src@.take(i + 1));
        }
        i = i + 1;
    }
    proof {
        assert(src@.take(n as int) =~= src@);
    }
    out
}

/// In a list with distinct keys, the denoted map sends the key at `i`
/// to the bytes at `i`.
proof fn lemma_entries_map_found(s: Seq<(u64, Vec<u8>)>, i: int)
    requires
        0 <= i < s.len(),
        forall|a: int, b: int|
            0 <= a < b < s.len() ==> (#[trigger] s[a]).0 != (#[trigger] s[b]).0,
    ensures
        entries_map(s).contains_key(s[i].0),
        entries_map(s)[s[i].0] == s[i].1@,
    decreases s.len(),
{
    if i < s.len() - 1 {
        lemma_entries_map_found(s.drop_last(), i);
        assert(s.drop_last()[i] == s[i]);
        assert(s[i].0 != s.last().0);
    }
}

/// A key occurring nowhere in the list is absent from the denoted map.
proof fn lemma_entries_map_absent(s: Seq<(u64, Vec<u8>)>, id: u64)
    requires
        forall|j: int| 0 <= j < s.len() ==> (#[trigger] s[j]).0 != id,
    ensures
        !entries_map(s).contains_key(id),
    decreases s.len(),
{
    if s.len() > 0 {
        lemma_entries_map_absent(s.drop_last(), id);
    }
}

/// Replacing the entry at `i` by one with the same key updates the
/// denoted map at that key alone.
proof fn lemma_entries_map_update(s: Seq<(u64, Vec<u8>)>, i: int, e: (u64, Vec<u8>))
    requires
        0 <= i < s.len(),
        e.0 == s[i].0,
        forall|a: int, b: int|
            0 <= a < b < s.len() ==> (#[trigger] s[a]).0 != (#[trigger] s[b]).0,
    ensures
        entries_map(s.update(i, e)) == entries_map(s).insert(e.0, e.1@),
    decreases s.len(),
{
    let t = s.update(i, e);
    if i == s.len() - 1 {
        assert(t.drop_last() =~= s.drop_last());
        assert(entries_map(t) =~= entries_map(s).insert(e.0, e.1@));
    } else {
        assert(t.drop_last() =~= s.drop_last().update(i, e));
        assert(s.drop_last()[i] == s[i]);
        lemma_entries_map_update(s.drop_last(), i, e);
        assert(t.last() == s.last());
        assert(e.0 != s.last().0);
        assert(entries_map(t) =~= entries_map(s).insert(e.0, e.1@));
    }
}

} // verus!
