use vstd::prelude::*;

use crate::diff::{apply_diff, splice};

verus! {

/// A fixed pool of page frames, each `page_size` bytes, with an allocation
/// bit per frame.
pub(crate) struct PageBuffer {
    pub(crate) frames: Vec<Vec<u8>>,
    pub(crate) used: Vec<bool>,
    pub(crate) page_size: usize,
}

impl PageBuffer {
    pub(crate) open spec fn wf(&self) -> bool {
        &&& self.frames@.len() == self.used@.len()
        &&& forall|i: int| 0 <= i < self.frames@.len() ==> #[trigger] self.frames@[i]@.len() == self.page_size
    }

    pub(crate) open spec fn capacity(&self) -> nat {
        self.used@.len()
    }

    pub(crate) fn new(page_size: usize, capacity: usize) -> (r: PageBuffer)
        ensures
            r.wf(),
            r.page_size == page_size,
            r.capacity() == capacity,
            forall|i: int| 0 <= i < capacity ==> !r.used@[i],
    {
        let mut frames: Vec<Vec<u8>> = Vec::new();
        let mut used: Vec<bool> = Vec::new();
        let mut i: usize = 0;
        while i < capacity
            invariant
                i <= capacity,
                frames@.len() == i,
                used@.len() == i,
                forall|k: int| 0 <= k < i ==> #[trigger] frames@[k]@.len() == page_size,
                forall|k: int| 0 <= k < i ==> !used@[k],
            decreases capacity - i,
        {
            frames.push(vec![0u8; page_size]);
            used.push(false);
            i = i + 1;
        }
        PageBuffer { frames, used, page_size }
    }

    /// Reserves the first free frame; `None` when every frame is in use.
    pub(crate) fn allocate_page(&mut self) -> (r: Option<usize>)
        requires
            old(self).wf(),
        ensures
            final(self).wf(),
            final(self).frames == old(self).frames,
            final(self).page_size == old(self).page_size,
            r is None <==> forall|i: int| 0 <= i < old(self).used@.len() ==> old(self).used@[i],
            r is None ==> final(self).used == old(self).used,
            r matches Some(s) ==> s < old(self).used@.len() && !old(self).used@[s as int]
                && final(self).used@ == old(self).used@.update(s as int, true) && forall|i: int|
                0 <= i < s ==> old(self).used@[i],
    {
        let mut i: usize = 0;
        while i < self.used.len()
            invariant
                i <= self.used@.len(),
                forall|k: int| 0 <= k < i ==> self.used@[k],
                *self == *old(self),
                old(self).wf(),
            decreases self.used@.len() - i,
        {
            if !self.used[i] {
                self.used[i] = true;
                return Some(i);
            }
            i = i + 1;
        }
        None
    }

    pub(crate) fn free_page(&mut self, slot: usize)
        requires
            old(self).wf(),
            slot < old(self).used@.len(),
        ensures
            final(self).wf(),
            final(self).frames == old(self).frames,
            final(self).page_size == old(self).page_size,
            final(self).used@ == old(self).used@.update(slot as int, false),
    {
        self.used[slot] = false;
    }

    pub(crate) fn has_space(&self) -> (r: bool)
        ensures
            r <==> exists|i: int| 0 <= i < self.used@.len() && !self.used@[i],
    {
        let mut i: usize = 0;
        while i < self.used.len()
            invariant
                i <= self.used@.len(),
                forall|k: int| 0 <= k < i ==> self.used@[k],
            decreases self.used@.len() - i,
        {
            if !self.used[i] {
                return true;
            }
            i = i + 1;
        }
        false
    }

    pub(crate) fn frame(&self, slot: usize) -> (r: &Vec<u8>)
        requires
            slot < self.frames@.len(),
        ensures
            r@ == self.frames@[slot as int]@,
    {
        &self.frames[slot]
    }

    /// Writes `data` into frame `slot` from `start` on.
    pub(crate) fn write_bytes(&mut self, slot: usize, start: usize, data: &[u8])
        requires
            old(self).wf(),
            slot < old(self).frames@.len(),
            start + data@.len() <= old(self).page_size,
        ensures
            final(self).wf(),
            final(self).used == old(self).used,
            final(self).page_size == old(self).page_size,
            final(self).frames@.len() == old(self).frames@.len(),
            final(self).frames@[slot as int]@ == splice(old(self).frames@[slot as int]@, start as int, data@),
            forall|i: int| 0 <= i < old(self).frames@.len() && i != slot ==> final(self).frames@[i] == old(self).frames@[i],
    {
        apply_diff(&mut self.frames[slot], start, data);
    }

    /// Replaces the bytes of frame `slot` by `bytes`.
    pub(crate) fn set_frame(&mut self, slot: usize, bytes: Vec<u8>)
        requires
            old(self).wf(),
            slot < old(self).frames@.len(),
            bytes@.len() == old(self).page_size,
        ensures
            final(self).wf(),
            final(self).used == old(self).used,
            final(self).page_size == old(self).page_size,
            final(self).frames@ == old(self).frames@.update(slot as int, bytes),
    {
        self.frames[slot] = bytes;
    }
}

} // verus!
