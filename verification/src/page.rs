//! In-memory page frame: one slot of the buffer pool, holding the bytes
//! of at most one disk page together with its bookkeeping metadata.

use vstd::prelude::*;

verus! {

/// Byte size of every frame's data buffer.
pub const PAGE_SIZE: usize = 4096;

/// The all-zero content a freshly reset frame holds.
pub open spec fn zero_page() -> Seq<u8> {
    Seq::new(PAGE_SIZE as nat, |i: int| 0u8)
}

/// An in-memory frame. It either holds the bytes of the disk page whose
/// identifier is `id`, or is empty (`id` is `None`). `pin_count` counts
/// outstanding reservations that keep the frame from being evicted, and
/// `dirty` records whether the bytes differ from what the disk holds.
pub struct Page {
    id: Option<u64>,
    data: Vec<u8>,
    pin_count: u64,
    dirty: bool,
}

impl Page {
    /// Page identifier held by this frame, `None` for an empty frame.
    pub closed spec fn spec_id(self) -> Option<u64> {
        self.id
    }

    /// The frame's data bytes.
    pub closed spec fn spec_data(self) -> Seq<u8> {
        self.data@
    }

    /// Number of outstanding pins.
    pub closed spec fn spec_pin_count(self) -> u64 {
        self.pin_count
    }

    /// Whether the frame's bytes have been modified since the last
    /// successful writeback.
    pub closed spec fn spec_dirty(self) -> bool {
        self.dirty
    }

    pub fn new() -> (r: Page)
        ensures
            r.spec_id() == None::<u64>,
            r.spec_data() == zero_page(),
            r.spec_pin_count() == 0,
            !r.spec_dirty(),
    {
        Page { id: None, data: zero_vec(), pin_count: 0, dirty: false }
    }

    pub fn new_with_id(id: u64) -> (r: Page)
        ensures
            r.spec_id() == Some(id),
            r.spec_data() == zero_page(),
            r.spec_pin_count() == 0,
            !r.spec_dirty(),
    {
        Page { id: Some(id), data: zero_vec(), pin_count: 0, dirty: false }
    }

    /// Clear the frame back to its empty state. A frame may only be
    /// reset once nothing holds a reservation on it.
    pub fn reset(&mut self)
        requires
            old(self).spec_pin_count() == 0,
        ensures
            final(self).spec_id() == None::<u64>,
            final(self).spec_data() == zero_page(),
            final(self).spec_pin_count() == 0,
            !final(self).spec_dirty(),
    {
        self.id = None;
        self.pin_count = 0;
        self.dirty = false;
        self.data = zero_vec();
    }

    pub fn get_data(&self) -> (r: &Vec<u8>)
        ensures
            r@ == self.spec_data(),
    {
        &self.data
    }

    /// Replace the frame's bytes. This stands for writing through an
    /// exclusive data guard; the dirty flag is the caller's business.
    pub fn set_data(&mut self, data: Vec<u8>)
        ensures
            final(self).spec_data() == data@,
            final(self).spec_id() == old(self).spec_id(),
            final(self).spec_pin_count() == old(self).spec_pin_count(),
            final(self).spec_dirty() == old(self).spec_dirty(),
    {
        self.data = data;
    }

    pub fn pin(&mut self)
        requires
            old(self).spec_pin_count() < u64::MAX,
        ensures
            final(self).spec_pin_count() == old(self).spec_pin_count() + 1,
            final(self).spec_id() == old(self).spec_id(),
            final(self).spec_data() == old(self).spec_data(),
            final(self).spec_dirty() == old(self).spec_dirty(),
    {
        self.pin_count = self.pin_count + 1;
    }

    /// Drop one reservation. Unpinning a frame that holds no pin is a
    /// caller bug, so it is ruled out here rather than wrapped around.
    pub fn unpin(&mut self)
        requires
            old(self).spec_pin_count() > 0,
        ensures
            final(self).spec_pin_count() == old(self).spec_pin_count() - 1,
            final(self).spec_id() == old(self).spec_id(),
            final(self).spec_data() == old(self).spec_data(),
            final(self).spec_dirty() == old(self).spec_dirty(),
    {
        self.pin_count = self.pin_count - 1;
    }

    pub fn is_pinned(&self) -> (r: bool)
        ensures
            r == (self.spec_pin_count() > 0),
    {
        self.pin_count > 0
    }

    pub fn set_dirty(&mut self, dirty: bool)
        ensures
            final(self).spec_dirty() == dirty,
            final(self).spec_id() == old(self).spec_id(),
            final(self).spec_data() == old(self).spec_data(),
            final(self).spec_pin_count() == old(self).spec_pin_count(),
    {
        self.dirty = dirty;
    }

    pub fn is_dirty(&self) -> (r: bool)
        ensures
            r == self.spec_dirty(),
    {
        self.dirty
    }

    pub fn get_id(&self) -> (r: Option<u64>)
        ensures
            r == self.spec_id(),
    {
        self.id
    }

    pub fn set_id(&mut self, id: u64)
        ensures
            final(self).spec_id() == Some(id),
            final(self).spec_data() == old(self).spec_data(),
            final(self).spec_pin_count() == old(self).spec_pin_count(),
            final(self).spec_dirty() == old(self).spec_dirty(),
    {
        self.id = Some(id);
    }
}

/// A vector of `PAGE_SIZE` zero bytes.
pub fn zero_vec() -> (r: Vec<u8>)
    ensures
        r@ == zero_page(),
{
    let mut v: Vec<u8> = Vec::new();
    let mut i: usize = 0;
    while i < PAGE_SIZE
        invariant
            i <= PAGE_SIZE,
            v@ == Seq::new(i as nat, |j: int| 0u8),
        decreases PAGE_SIZE - i,
    {
        v.push(0u8);
        i = i + 1;
        proof {
            assert(v@ =~= Seq::new(i as nat, |j: int| 0u8));
        }
    }
    proof {
        assert(v@ =~= zero_page());
    }
    v
}

} // verus!
