use vstd::prelude::*;

use crate::diff::copy_range;
use crate::id::PageId;

verus! {

/// A failed page read or write on the storage under the cache.
#[derive(Debug, Clone, Copy, PartialEq, Eq, Structural)]
pub enum StorageError {
    Read,
    Write,
}

/// Paged storage under the cache: fixed-size pages addressed by `PageId`.
pub trait StorageApi {
    /// The bytes stored for page `id`.
    spec fn stored(&self, id: PageId) -> Seq<u8>;

    spec fn spec_page_size(&self) -> nat;

    /// The storage never fails a read or a write.
    spec fn infallible(&self) -> bool;

    /// The numbers of the segments the storage holds.
    spec fn segments(&self) -> Seq<u32>;

    fn page_size(&self) -> (r: u16)
        ensures
            r as nat == self.spec_page_size(),
    ;

    fn segment_nums(&self) -> (r: Vec<u32>)
        ensures
            r@ == self.segments(),
    ;

    /// Fills `buf` with the stored bytes of page `id`.
    fn read_page(&mut self, buf: &mut Vec<u8>, id: PageId) -> (r: Result<(), StorageError>)
        requires
            old(buf)@.len() == old(self).spec_page_size(),
        ensures
            final(self).spec_page_size() == old(self).spec_page_size(),
            final(self).infallible() == old(self).infallible(),
            final(self).segments() == old(self).segments(),
            forall|p: PageId| #[trigger] final(self).stored(p) == old(self).stored(p),
            final(buf)@.len() == old(buf)@.len(),
            r is Ok ==> final(buf)@ == old(self).stored(id),
            old(self).infallible() ==> r is Ok,
    ;

    /// Stores `buf` as page `id`; on failure no other page is touched.
    fn write_page(&mut self, buf: &[u8], id: PageId) -> (r: Result<(), StorageError>)
        requires
            buf@.len() == old(self).spec_page_size(),
        ensures
            final(self).spec_page_size() == old(self).spec_page_size(),
            final(self).infallible() == old(self).infallible(),
            final(self).segments() == old(self).segments(),
            forall|p: PageId| p != id ==> #[trigger] final(self).stored(p) == old(self).stored(p),
            r is Ok ==> final(self).stored(id) == buf@,
            old(self).infallible() ==> r is Ok,
    ;
}

/// The bytes of the last write of page `id` in `writes`, if any.
pub open spec fn last_write(writes: Seq<(PageId, Vec<u8>)>, id: PageId) -> Option<Seq<u8>>
    decreases writes.len(),
{
    if writes.len() == 0 {
        None
    } else if writes.last().0 == id {
        Some(writes.last().1@)
    } else {
        last_write(writes.drop_last(), id)
    }
}

/// Storage held in memory: every page write is kept in order, and a page that
/// was never written reads as zeros. The log of reads and writes lets callers
/// see what the cache asked of its storage.
pub struct MemStorage {
    page_size: u16,
    segments: Vec<u32>,
    writes: Vec<(PageId, Vec<u8>)>,
    reads: Vec<PageId>,
}

impl MemStorage {
    pub closed spec fn write_log(&self) -> Seq<(PageId, Vec<u8>)> {
        self.writes@
    }

    pub closed spec fn read_log(&self) -> Seq<PageId> {
        self.reads@
    }

    pub fn new(page_size: u16, segments: Vec<u32>) -> (r: MemStorage)
        ensures
            r.spec_page_size() == page_size as nat,
            r.infallible(),
            r.segments() == segments@,
            r.write_log().len() == 0,
            r.read_log().len() == 0,
            forall|p: PageId| #[trigger] r.stored(p) == Seq::new(page_size as nat, |i: int| 0u8),
    {
        MemStorage { page_size, segments, writes: Vec::new(), reads: Vec::new() }
    }

    /// Every page write received so far, oldest first.
    pub fn writes(&self) -> (r: &Vec<(PageId, Vec<u8>)>)
        ensures
            r@ == self.write_log(),
    {
        &self.writes
    }

    /// Every page read received so far, oldest first.
    pub fn reads(&self) -> (r: &Vec<PageId>)
        ensures
            r@ == self.read_log(),
    {
        &self.reads
    }

    fn find_last(&self, id: PageId) -> (r: Option<usize>)
        ensures
            match r {
                Some(i) => i < self.writes@.len() && last_write(self.writes@, id) == Some(
                    self.writes@[i as int].1@,
                ),
                None => last_write(self.writes@, id) is None,
            },
    {
        let mut i: usize = self.writes.len();
        assert(self.writes@.subrange(0, i as int) =~= self.writes@);
        while i > 0
            invariant
                i <= self.writes@.len(),
                last_write(self.writes@, id) == last_write(self.writes@.subrange(0, i as int), id),
            decreases i,
        {
            let ghost pre = self.writes@.subrange(0, i as int);
            assert(pre.drop_last() =~= self.writes@.subrange(0, i - 1));
            if self.writes[i - 1].0 == id {
                return Some(i - 1);
            }
            i = i - 1;
        }
        None
    }
}

impl StorageApi for MemStorage {
    closed spec fn stored(&self, id: PageId) -> Seq<u8> {
        match last_write(self.writes@, id) {
            Some(b) => Seq::new(self.page_size as nat, |i: int| if i < b.len() { b[i] } else { 0u8 }),
            None => Seq::new(self.page_size as nat, |i: int| 0u8),
        }
    }

    closed spec fn spec_page_size(&self) -> nat {
        self.page_size as nat
    }

    closed spec fn infallible(&self) -> bool {
        true
    }

    closed spec fn segments(&self) -> Seq<u32> {
        self.segments@
    }

    fn page_size(&self) -> (r: u16) {
        self.page_size
    }

    fn segment_nums(&self) -> (r: Vec<u32>) {
        let mut r: Vec<u32> = Vec::new();
        let mut i: usize = 0;
        while i < self.segments.len()
            invariant
                i <= self.segments@.len(),
                r@ == self.segments@.subrange(0, i as int),
            decreases self.segments@.len() - i,
        {
            r.push(self.segments[i]);
            i = i + 1;
            assert(r@ =~= self.segments@.subrange(0, i as int));
        }
        assert(self.segments@.subrange(0, i as int) =~= self.segments@);
        r
    }

    fn read_page(&mut self, buf: &mut Vec<u8>, id: PageId) -> (r: Result<(), StorageError>) {
        let n = buf.len();
        let found = self.find_last(id);
        let mut i: usize = 0;
        while i < n
            invariant
                n == buf@.len() == self.page_size as nat,
                i <= n,
                match found {
                    Some(j) => j < self.writes@.len() && last_write(self.writes@, id) == Some(self.writes@[j as int].1@),
                    None => last_write(self.writes@, id) is None,
                },
                forall|k: int| 0 <= k < i ==> buf@[k] == self.stored(id)[k],
            decreases n - i,
        {
            let b: u8 = match found {
                Some(j) => if i < self.writes[j].1.len() {
                    self.writes[j].1[i]
                } else {
                    0u8
                },
                None => 0u8,
            };
            buf[i] = b;
            i = i + 1;
        }
        assert(buf@ =~= self.stored(id));
        self.reads.push(id);
        Ok(())
    }

    fn write_page(&mut self, buf: &[u8], id: PageId) -> (r: Result<(), StorageError>) {
        let ghost w0 = self.writes@;
        let copy = copy_range(buf, 0, buf.len());
        assert(copy@ =~= buf@);
        self.writes.push((id, copy));
        assert(self.writes@.drop_last() =~= w0);
        assert(self.stored(id) =~= buf@);
        Ok(())
    }
}

} // verus!
