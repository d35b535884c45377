//! Bucket page of an extendible hash table: at most `max_size` entries
//! mapping a key (its UTF-8 bytes) to a value, with no key repeated.

use vstd::prelude::*;

use crate::codec::bytes_to_words;
use crate::codec::bytes_to_words_exec;
use crate::codec::lemma_words_roundtrip;
use crate::codec::lemma_words_to_bytes_len;
use crate::codec::words_to_bytes;
use crate::codec::words_to_bytes_exec;

verus! {

/// The views of a bucket's entries.
pub open spec fn entry_views(s: Seq<(Vec<u8>, u64)>) -> Seq<(Seq<u8>, u64)> {
    s.map_values(|e: (Vec<u8>, u64)| (e.0@, e.1))
}

/// Map denoted by an entry sequence, later entries winning.
pub open spec fn entries_contents(s: Seq<(Seq<u8>, u64)>) -> Map<Seq<u8>, u64>
    decreases s.len(),
{
    if s.len() == 0 {
        Map::empty()
    } else {
        entries_contents(s.drop_last()).insert(s.last().0, s.last().1)
    }
}

/// No key occurs twice.
pub open spec fn distinct_keys(s: Seq<(Seq<u8>, u64)>) -> bool {
    forall|i: int, j: int|
        0 <= i < j < s.len() ==> (#[trigger] s[i]).0 != (#[trigger] s[j]).0
}

/// The words one entry serialises to: the key length, one word per
/// key byte, then the value.
pub open spec fn entry_words(e: (Seq<u8>, u64)) -> Seq<u64> {
    seq![e.0.len() as u64] + e.0.map_values(|b: u8| b as u64) + seq![e.1]
}

/// The words an entry sequence serialises to.
pub open spec fn entries_words(s: Seq<(Seq<u8>, u64)>) -> Seq<u64>
    decreases s.len(),
{
    if s.len() == 0 {
        Seq::empty()
    } else {
        entry_words(s[0]) + entries_words(s.drop_first())
    }
}

/// The entry sequence `n` serialised entries decode from.
pub open spec fn entries_from_words(ws: Seq<u64>, n: nat) -> Option<Seq<(Seq<u8>, u64)>>
    decreases n,
{
    if n == 0 {
        if ws.len() == 0 {
            Some(Seq::empty())
        } else {
            None
        }
    } else if ws.len() >= 1 && ws[0] < 0x10000000 && ws.len() >= 2 + ws[0] && (forall|i: int|
        1 <= i <= ws[0] ==> #[trigger] ws[i] < 256) {
        let klen = ws[0] as int;
        let key = ws.subrange(1, 1 + klen).map_values(|w: u64| w as u8);
        let v = ws[1 + klen];
        match entries_from_words(ws.skip(2 + klen), (n - 1) as nat) {
            Some(rest) => Some(seq![(key, v)] + rest),
            None => None,
        }
    } else {
        None
    }
}

/// What a bucket page's bytes decode to: the capacity and the entries.
pub open spec fn decode_bucket(b: Seq<u8>) -> Option<(u64, Seq<(Seq<u8>, u64)>)> {
    if b.len() % 8 == 0 {
        bucket_from_words(bytes_to_words(b))
    } else {
        None
    }
}

pub open spec fn bucket_from_words(ws: Seq<u64>) -> Option<(u64, Seq<(Seq<u8>, u64)>)> {
    if ws.len() >= 2 {
        match entries_from_words(ws.skip(2), ws[1] as nat) {
            Some(es) => Some((ws[0], es)),
            None => None,
        }
    } else {
        None
    }
}

/// Serialising entries and decoding them back yields the entries,
/// whatever follows them in the word stream is ignored.
pub proof fn lemma_entries_roundtrip(s: Seq<(Seq<u8>, u64)>)
    requires
        forall|i: int| 0 <= i < s.len() ==> (#[trigger] s[i]).0.len() < 0x10000000,
    ensures
        entries_from_words(entries_words(s), s.len()) == Some(s),
    decreases s.len(),
{
    if s.len() == 0 {
        assert(entries_words(s) =~= Seq::<u64>::empty());
    } else {
        let e = s[0];
        let ws = entries_words(s);
        let ew = entry_words(e);
        let klen = e.0.len() as int;
        assert(ew.len() == 2 + klen);
        assert(ws =~= ew + entries_words(s.drop_first()));
        assert(ws[0] == klen as u64);
        assert forall|i: int| 1 <= i <= ws[0] implies #[trigger] ws[i] < 256 by {
            assert(ws[i] == ew[i]);
            assert(ew[i] == e.0.map_values(|b: u8| b as u64)[i - 1]);
        }
        assert(ws.subrange(1, 1 + klen).map_values(|w: u64| w as u8) =~= e.0);
        assert(ws[1 + klen] == e.1);
        assert(ws.skip(2 + klen) =~= entries_words(s.drop_first()));
        lemma_entries_roundtrip(s.drop_first());
        assert(seq![(e.0, e.1)] + s.drop_first() =~= s);
    }
}

/// Appending an entry appends its words.
pub proof fn lemma_entries_words_snoc(s: Seq<(Seq<u8>, u64)>, e: (Seq<u8>, u64))
    ensures
        entries_words(s.push(e)) == entries_words(s) + entry_words(e),
    decreases s.len(),
{
    if s.len() == 0 {
        assert(s.push(e)[0] == e);
        assert(s.push(e).drop_first() =~= Seq::<(Seq<u8>, u64)>::empty());
        assert(entries_words(s.push(e).drop_first()) =~= Seq::<u64>::empty());
        assert(entries_words(s.push(e)) =~= entry_words(e));
        assert(entries_words(s) + entry_words(e) =~= entry_words(e));
    } else {
        assert(s.push(e)[0] == s[0]);
        assert(s.push(e).drop_first() =~= s.drop_first().push(e));
        lemma_entries_words_snoc(s.drop_first(), e);
        assert(entries_words(s.push(e)) =~= entries_words(s) + entry_words(e));
    }
}

/// In-memory form of the bucket page.
pub struct ExtendibleHTableBucketPage {
    max_size: usize,
    entries: Vec<(Vec<u8>, u64)>,
}

impl ExtendibleHTableBucketPage {
    /// The entries, in insertion order.
    pub closed spec fn spec_entries(self) -> Seq<(Seq<u8>, u64)> {
        entry_views(self.entries@)
    }

    pub closed spec fn spec_max_size(self) -> usize {
        self.max_size
    }

    /// The key-to-value map the bucket holds.
    pub open spec fn contents(self) -> Map<Seq<u8>, u64> {
        entries_contents(self.spec_entries())
    }

    pub open spec fn wf(self) -> bool {
        &&& self.spec_entries().len() <= self.spec_max_size()
        &&& distinct_keys(self.spec_entries())
        &&& forall|i: int|
            0 <= i < self.spec_entries().len() ==> (#[trigger] self.spec_entries()[i]).0.len()
                < 0x10000000
    }

    pub fn new(max_size: usize) -> (r: ExtendibleHTableBucketPage)
        ensures
            r.wf(),
            r.spec_max_size() == max_size,
            r.spec_entries() == Seq::<(Seq<u8>, u64)>::empty(),
            r.contents() == Map::<Seq<u8>, u64>::empty(),
    {
        let r = ExtendibleHTableBucketPage { max_size, entries: Vec::new() };
        proof {
            assert(r.spec_entries() =~= Seq::<(Seq<u8>, u64)>::empty());
        }
        r
    }

    /// Index of the entry holding `key`, if any.
    fn find(&self, key: &Vec<u8>) -> (r: Option<usize>)
        requires
            self.wf(),
        ensures
            match r {
                Some(i) => i < self.spec_entries().len() && self.spec_entries()[i as int].0
                    == key@,
                None => !self.contents().contains_key(key@),
            },
    {
        let mut i: usize = 0;
        let n = self.entries.len();
        while i < n
            invariant
                i <= n,
                n == self.spec_entries().len(),
                self.wf(),
                forall|j: int| 0 <= j < i ==> (#[trigger] self.spec_entries()[j]).0 != key@,
            decreases n - i,
        {
            if bytes_eq(&self.entries[i].0, key) {
                proof {
                    assert(self.spec_entries()[i as int].0 == key@);
                }
                return Some(i);
            }
            i = i + 1;
        }
        proof {
            lemma_contents_absent(self.spec_entries(), key@);
        }
        None
    }

    /// Whether the bucket maps `key` to exactly `value`.
    pub fn lookup(&self, key: &Vec<u8>, value: u64) -> (r: bool)
        requires
            self.wf(),
        ensures
            r == (self.contents().contains_key(key@) && self.contents()[key@] == value),
    {
        let found = self.get(key);
        match found {
            Some(v) => v == value,
            None => false,
        }
    }

    /// Map `key` to `value`, replacing any earlier value of the key.
    pub fn insert(&mut self, key: Vec<u8>, value: u64) -> (r: bool)
        requires
            old(self).wf(),
            key@.len() < 0x10000000,
            old(self).contents().contains_key(key@) || old(self).spec_entries().len() < old(
                self,
            ).spec_max_size(),
        ensures
            final(self).wf(),
            r == true,
            final(self).spec_max_size() == old(self).spec_max_size(),
            final(self).contents() == old(self).contents().insert(key@, value),
            final(self).spec_entries().len() == (if old(self).contents().contains_key(key@) {
                old(self).spec_entries().len() as int
            } else {
                old(self).spec_entries().len() + 1int
            }),
            forall|k: Seq<u8>|
                #[trigger] final(self).contents().contains_key(k) == (old(
                    self,
                ).contents().contains_key(k) || k == key@),
    {
        let found = self.find(&key);
        match found {
            Some(i) => {
                let mut entry = self.entries.remove(i);
                entry.1 = value;
                self.entries.insert(i, entry);
                proof {
                    assert(self.spec_entries() =~= old(self).spec_entries().update(
                        i as int,
                        (key@, value),
                    ));
                    lemma_contents_update(old(self).spec_entries(), i as int, (key@, value));
                    lemma_contents_found(old(self).spec_entries(), i as int);
                }
            },
            None => {
                proof {
                    assert forall|j: int|
                        0 <= j < old(self).spec_entries().len() implies (#[trigger] old(
                        self,
                    ).spec_entries()[j]).0 != key@ by {
                        if old(self).spec_entries()[j].0 == key@ {
                            lemma_contents_found(old(self).spec_entries(), j);
                        }
                    }
                }
                self.entries.push((key, value));
                proof {
                    assert(self.spec_entries() =~= old(self).spec_entries().push((key@, value)));
                    assert(self.spec_entries().drop_last() =~= old(self).spec_entries());
                    assert(self.contents() =~= old(self).contents().insert(key@, value));
                }
            },
        }
        true
    }

    /// The value mapped to `key`, if any.
    pub fn get(&self, key: &Vec<u8>) -> (r: Option<u64>)
        requires
            self.wf(),
        ensures
            r == (if self.contents().contains_key(key@) {
                Some(self.contents()[key@])
            } else {
                None::<u64>
            }),
    {
        let found = self.find(key);
        match found {
            Some(i) => {
                proof {
                    lemma_contents_found(self.spec_entries(), i as int);
                }
                Some(self.entries[i].1)
            },
            None => None,
        }
    }

    /// Drop `key`, returning the value it was mapped to.
    pub fn delete(&mut self, key: &Vec<u8>) -> (r: Option<u64>)
        requires
            old(self).wf(),
        ensures
            final(self).wf(),
            final(self).spec_max_size() == old(self).spec_max_size(),
            final(self).contents() == old(self).contents().remove(key@),
            r == (if old(self).contents().contains_key(key@) {
                Some(old(self).contents()[key@])
            } else {
                None::<u64>
            }),
            final(self).spec_entries().len() <= old(self).spec_entries().len(),
    {
        let found = self.find(key);
        match found {
            Some(i) => {
                proof {
                    lemma_contents_found(old(self).spec_entries(), i as int);
                }
                let entry = self.entries.remove(i);
                proof {
                    assert(self.spec_entries() =~= entry_views(old(self).entries@).remove(
                        i as int,
                    ));
                    lemma_contents_remove(old(self).spec_entries(), i as int);
                }
                Some(entry.1)
            },
            None => {
                proof {
                    assert(self.contents() =~= old(self).contents().remove(key@));
                }
                None
            },
        }
    }

    /// Hand out every entry, leaving the bucket empty.
    pub fn get_entries(&mut self) -> (r: Vec<(Vec<u8>, u64)>)
        requires
            old(self).wf(),
        ensures
            final(self).wf(),
            final(self).spec_max_size() == old(self).spec_max_size(),
            final(self).spec_entries() == Seq::<(Seq<u8>, u64)>::empty(),
            final(self).contents() == Map::<Seq<u8>, u64>::empty(),
            entry_views(r@) == old(self).spec_entries(),
    {
        let mut out: Vec<(Vec<u8>, u64)> = Vec::new();
        let n = self.entries.len();
        let mut i: usize = 0;
        while i < n
            invariant
                i <= n,
                n == old(self).entries@.len(),
                self.entries@.len() + i == old(self).entries@.len(),
                self.entries@ =~= old(self).entries@.skip(i as int),
                out@ =~= old(self).entries@.take(i as int),
                self.spec_max_size() == old(self).spec_max_size(),
            decreases n - i,
        {
            let e = self.entries.remove(0);
            out.push(e);
            proof {
                assert(self.entries@ =~= old(self).entries@.skip(i + 1));
                assert(out@ =~= old(self).entries@.take(i + 1));
            }
            i = i + 1;
        }
        proof {
            assert(self.entries@ =~= Seq::<(Vec<u8>, u64)>::empty());
            assert(self.spec_entries() =~= Seq::<(Seq<u8>, u64)>::empty());
            assert(out@ =~= old(self).entries@);
            assert(entry_views(out@) =~= old(self).spec_entries());
        }
        out
    }

    pub fn is_full(&self) -> (r: bool)
        ensures
            r == (self.spec_entries().len() == self.spec_max_size()),
    {
        self.entries.len() == self.max_size
    }

    pub fn is_empty(&self) -> (r: bool)
        ensures
            r == (self.spec_entries().len() == 0),
    {
        self.entries.len() == 0
    }

    pub fn get_max_size(&self) -> (r: usize)
        ensures
            r == self.spec_max_size(),
    {
        self.max_size
    }

    pub fn get_size(&self) -> (r: usize)
        ensures
            r == self.spec_entries().len(),
    {
        self.entries.len()
    }

    /// Serialise this record; the bytes decode back to exactly this
    /// record's content.
    pub fn to_bytes(&self) -> (r: Vec<u8>)
        requires
            self.wf(),
        ensures
            decode_bucket(r@) == Some((self.spec_max_size() as u64, self.spec_entries())),
    {
        let mut words: Vec<u64> = Vec::new();
        words.push(self.max_size as u64);
        words.push(self.entries.len() as u64);
        let n = self.entries.len();
        let mut i: usize = 0;
        while i < n
            invariant
                i <= n,
                n == self.spec_entries().len(),
                self.wf(),
                words@.len() >= 2,
                words@[0] == self.spec_max_size() as u64,
                words@[1] == n as u64,
                words@.skip(2) == entries_words(self.spec_entries().take(i as int)),
            decreases n - i,
        {
            let klen = self.entries[i].0.len();
            words.push(klen as u64);
            let mut b: usize = 0;
            let ghost mid = words@;
            while b < klen
                invariant
                    b <= klen,
                    klen == self.spec_entries()[i as int].0.len(),
                    i < self.spec_entries().len(),
                    self.wf(),
                    words@ == mid + self.spec_entries()[i as int].0.take(b as int).map_values(
                        |x: u8| x as u64,
                    ),
                decreases klen - b,
            {
                words.push(self.entries[i].0[b] as u64);
                proof {
                    assert(words@ =~= mid + self.spec_entries()[i as int].0.take(
                        b + 1,
                    ).map_values(|x: u8| x as u64));
                }
                b = b + 1;
            }
            words.push(self.entries[i].1);
            proof {
                let e = self.spec_entries()[i as int];
                assert(e.0.take(klen as int) =~= e.0);
                assert(words@.skip(2) =~= entries_words(self.spec_entries().take(i as int))
                    + entry_words(e));
                assert(self.spec_entries().take(i + 1) =~= self.spec_entries().take(
                    i as int,
                ).push(e));
                lemma_entries_words_snoc(self.spec_entries().take(i as int), e);
            }
            i = i + 1;
        }
        let out = words_to_bytes_exec(&words);
        proof {
            lemma_words_roundtrip(words@);
            lemma_words_to_bytes_len(words@);
            assert(self.spec_entries().take(n as int) =~= self.spec_entries());
            lemma_entries_roundtrip(self.spec_entries());
            assert(bytes_to_words(out@).skip(2) == entries_words(self.spec_entries()));
        }
        out
    }

    /// Rebuild a record from page bytes known to hold one.
    pub fn from_bytes(bytes: &Vec<u8>) -> (r: ExtendibleHTableBucketPage)
        requires
            decode_bucket(bytes@) is Some,
            decode_bucket(bytes@).unwrap().0 <= usize::MAX,
        ensures
            Some((r.spec_max_size() as u64, r.spec_entries())) == decode_bucket(bytes@),
    {
        let words_opt = bytes_to_words_exec(bytes);
        let words = match words_opt {
            Some(w) => w,
            None => Vec::new(),
        };
        let wlen = words.len();
        let max_size = words[0] as usize;
        let count = words[1];
        let mut entries: Vec<(Vec<u8>, u64)> = Vec::new();
        let mut idx: usize = 2;
        let mut remaining = count;
        proof {
            assert(words@.skip(2) =~= words@.skip(2));
        }
        while remaining > 0
            invariant
                remaining <= count,
                wlen == words@.len(),
                2 <= idx <= words@.len(),
                entries_from_words(words@.skip(2), count as nat) is Some,
                entries_from_words(words@.skip(idx as int), remaining as nat) is Some,
                entry_views(entries@) + entries_from_words(
                    words@.skip(idx as int),
                    remaining as nat,
                ).unwrap() == entries_from_words(words@.skip(2), count as nat).unwrap(),
            decreases remaining,
    {
            let ghost tail = words@.skip(idx as int);
            proof {
                assert(tail.len() >= 1 && tail[0] < 0x10000000 && tail.len() >= 2 + tail[0]);
                assert(words@[idx as int] == tail[0]);
            }
            let klen = words[idx] as usize;
            let mut key: Vec<u8> = Vec::new();
            let mut b: usize = 0;
            while b < klen
                invariant
                    b <= klen,
                    wlen == words@.len(),
                    2 <= idx,
                    idx + klen + 1 < words@.len() || idx + klen + 1 == words@.len() - 1 || idx
                        + klen + 1 <= words@.len(),
                    klen == tail[0],
                    tail == words@.skip(idx as int),
                    tail.len() >= 2 + klen,
                    idx + tail.len() == words@.len(),
                    forall|t: int| 1 <= t <= klen ==> #[trigger] tail[t] < 256,
                    key@ == tail.subrange(1, 1 + klen as int).map_values(|w: u64| w as u8).take(
                        b as int,
                    ),
                decreases klen - b,
            {
                proof {
                    assert(words@[idx + 1 + b] == tail[1 + b]);
                    assert(tail[1 + b] < 256);
                }
                key.push(words[idx + 1 + b] as u8);
                proof {
                    assert(key@ =~= tail.subrange(1, 1 + klen as int).map_values(
                        |w: u64| w as u8,
                    ).take(b + 1));
                }
                b = b + 1;
            }
            let value = words[idx + 1 + klen];
            entries.push((key, value));
            let ghost old_idx = idx;
            idx = idx + 2 + klen;
            remaining = remaining - 1;
            proof {
                let spec_key = tail.subrange(1, 1 + klen as int).map_values(|w: u64| w as u8);
                assert(key@ =~= spec_key.take(klen as int));
                assert(spec_key.take(klen as int) =~= spec_key);
                assert(value == tail[1 + klen]);
                assert(words@.skip(idx as int) =~= tail.skip(2 + klen));
                let head = entries_from_words(tail, (remaining + 1) as nat).unwrap();
                assert(head == seq![(spec_key, value)] + entries_from_words(
                    tail.skip(2 + klen),
                    remaining as nat,
                ).unwrap());
                assert(entry_views(entries@) =~= entry_views(entries@.drop_last()) + seq![
                    (spec_key, value),
                ]);
                assert(entry_views(entries@) + entries_from_words(
                    words@.skip(idx as int),
                    remaining as nat,
                ).unwrap() =~= entry_views(entries@.drop_last()) + head);
            }
        }
        let r = ExtendibleHTableBucketPage { max_size, entries };
        proof {
            assert(entries_from_words(words@.skip(idx as int), 0) is Some);
            assert(entries_from_words(words@.skip(idx as int), 0).unwrap()
                =~= Seq::<(Seq<u8>, u64)>::empty());
            assert(r.spec_entries() =~= entry_views(entries@) + entries_from_words(
                words@.skip(idx as int),
                0,
            ).unwrap());
        }
        r
    }
}

/// Byte-vector equality.
pub fn bytes_eq(a: &Vec<u8>, b: &Vec<u8>) -> (r: bool)
    ensures
        r == (a@ == b@),
{
    if a.len() != b.len() {
        proof {
            assert(a@ != b@);
        }
        return false;
    }
    let mut i: usize = 0;
    let n = a.len();
    while i < n
        invariant
            i <= n,
            n == a@.len(),
            n == b@.len(),
            forall|j: int| 0 <= j < i ==> a@[j] == b@[j],
        decreases n - i,
    {
        if a[i] != b[i] {
            return false;
        }
        i = i + 1;
    }
    proof {
        assert(a@ =~= b@);
    }
    true
}

/// A key the denoted map holds occurs in some entry.
pub proof fn lemma_contents_member(s: Seq<(Seq<u8>, u64)>, k: Seq<u8>)
    requires
        entries_contents(s).contains_key(k),
    ensures
        exists|j: int| 0 <= j < s.len() && (#[trigger] s[j]).0 == k,
    decreases s.len(),
{
    if s.len() > 0 {
        if s.last().0 == k {
            assert(s[s.len() - 1].0 == k);
        } else {
            lemma_contents_member(s.drop_last(), k);
            let j = choose|j: int|
                0 <= j < s.drop_last().len() && (#[trigger] s.drop_last()[j]).0 == k;
            assert(s[j].0 == k);
        }
    }
}

/// A key in no entry is absent from the denoted map.
pub proof fn lemma_contents_absent(s: Seq<(Seq<u8>, u64)>, k: Seq<u8>)
    requires
        forall|j: int| 0 <= j < s.len() ==> (#[trigger] s[j]).0 != k,
    ensures
        !entries_contents(s).contains_key(k),
    decreases s.len(),
{
    if s.len() > 0 {
        lemma_contents_absent(s.drop_last(), k);
    }
}

/// With distinct keys, the denoted map sends the key at `i` to the
/// value at `i`.
pub proof fn lemma_contents_found(s: Seq<(Seq<u8>, u64)>, i: int)
    requires
        0 <= i < s.len(),
        distinct_keys(s),
    ensures
        entries_contents(s).contains_key(s[i].0),
        entries_contents(s)[s[i].0] == s[i].1,
    decreases s.len(),
{
    if i < s.len() - 1 {
        assert(s.drop_last()[i] == s[i]);
        assert(forall|a: int, b: int|
            0 <= a < b < s.drop_last().len() ==> (#[trigger] s.drop_last()[a]).0 != (
            #[trigger] s.drop_last()[b]).0);
        lemma_contents_found(s.drop_last(), i);
        assert(s[i].0 != s.last().0);
    }
}

/// Replacing the entry at `i` by one with the same key updates the
/// denoted map at that key alone.
pub proof fn lemma_contents_update(s: Seq<(Seq<u8>, u64)>, i: int, e: (Seq<u8>, u64))
    requires
        0 <= i < s.len(),
        e.0 == s[i].0,
        distinct_keys(s),
    ensures
        entries_contents(s.update(i, e)) == entries_contents(s).insert(e.0, e.1),
    decreases s.len(),
{
    let t = s.update(i, e);
    if i == s.len() - 1 {
        assert(t.drop_last() =~= s.drop_last());
        assert(entries_contents(t) =~= entries_contents(s).insert(e.0, e.1));
    } else {
        assert(t.drop_last() =~= s.drop_last().update(i, e));
        assert(s.drop_last()[i] == s[i]);
        assert(forall|a: int, b: int|
            0 <= a < b < s.drop_last().len() ==> (#[trigger] s.drop_last()[a]).0 != (
            #[trigger] s.drop_last()[b]).0);
        lemma_contents_update(s.drop_last(), i, e);
        assert(t.last() == s.last());
        assert(e.0 != s.last().0);
        assert(entries_contents(t) =~= entries_contents(s).insert(e.0, e.1));
    }
}

/// Removing the entry at `i` removes its key from the denoted map.
pub proof fn lemma_contents_remove(s: Seq<(Seq<u8>, u64)>, i: int)
    requires
        0 <= i < s.len(),
        distinct_keys(s),
    ensures
        entries_contents(s.remove(i)) == entries_contents(s).remove(s[i].0),
    decreases s.len(),
{
    let t = s.remove(i);
    if i == s.len() - 1 {
        assert(t =~= s.drop_last());
        lemma_contents_absent_of_distinct(s);
        assert(entries_contents(t) =~= entries_contents(s).remove(s[i].0));
    } else {
        assert(t.drop_last() =~= s.drop_last().remove(i));
        assert(s.drop_last()[i] == s[i]);
        assert(forall|a: int, b: int|
            0 <= a < b < s.drop_last().len() ==> (#[trigger] s.drop_last()[a]).0 != (
            #[trigger] s.drop_last()[b]).0);
        lemma_contents_remove(s.drop_last(), i);
        assert(t.last() == s.last());
        assert(s[i].0 != s.last().0);
        assert(entries_contents(t) =~= entries_contents(s).remove(s[i].0));
    }
}

/// With distinct keys, the last entry's key is absent from the map of
/// the earlier entries.
proof fn lemma_contents_absent_of_distinct(s: Seq<(Seq<u8>, u64)>)
    requires
        s.len() > 0,
        distinct_keys(s),
    ensures
        !entries_contents(s.drop_last()).contains_key(s.last().0),
{
    assert(forall|j: int|
        0 <= j < s.drop_last().len() ==> (#[trigger] s.drop_last()[j]).0 != s.last().0);
    lemma_contents_absent(s.drop_last(), s.last().0);
}

} // verus!
