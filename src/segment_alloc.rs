use vstd::prelude::*;

use crate::bytes::{get_u16, le16, lemma_u16_of, u16_of};
use crate::diff::{apply_diff, splice};
use crate::error::Error;
use crate::id::PageId;
use crate::storage::StorageApi;
use crate::transaction::{Transaction, TransactionManager};

verus! {

/// Largest number of pages a segment holds.
pub const MAX_NUM_PAGES: u16 = 65535;

/// Number of entries a freelist page of `page_size` bytes holds.
pub open spec fn freelist_capacity(page_size: nat) -> nat {
    if page_size < 4 {
        0
    } else {
        ((page_size - 4) / 2) as nat
    }
}

/// The two bytes of `page` at `at`.
pub open spec fn field(page: Seq<u8>, at: int) -> Seq<u8> {
    page.subrange(at, at + 2)
}

/// Hands out and takes back the pages of one segment. Page 0 is the header:
/// bytes 0..2 hold the number of pages, bytes 2..4 the first freelist trunk
/// (0 for none). A freelist trunk page holds the next trunk at 0..2, its
/// number of entries at 2..4, and the entries from byte 4 on.
pub struct SegmentAllocManager {
    segment_num: u32,
}

fn set_u16(page: &mut Vec<u8>, at: usize, x: u16)
    requires
        at + 2 <= old(page)@.len(),
    ensures
        final(page)@ == splice(old(page)@, at as int, le16(x)),
{
    let mut b: Vec<u8> = Vec::new();
    b.push(x as u8);
    b.push((x >> 8u16) as u8);
    assert(b@ =~= le16(x));
    apply_diff(page, at, b.as_slice());
}

/// Page `id` can be read and written by transaction `t` without waiting or
/// loading: it is resident, and no other transaction holds it.
pub open spec fn ready<S: StorageApi>(tm: TransactionManager<S>, t: Transaction, id: PageId) -> bool {
    tm.cache_view().resident(id) && tm.cache_view().accessible(id, Some(t.spec_tid()))
}

impl SegmentAllocManager {
    pub fn new(segment_num: u32) -> (r: SegmentAllocManager)
        ensures
            r.spec_segment_num() == segment_num,
    {
        SegmentAllocManager { segment_num }
    }

    pub closed spec fn spec_segment_num(&self) -> u32 {
        self.segment_num
    }

    pub open spec fn header_id(&self) -> PageId {
        PageId { segment_num: self.spec_segment_num(), page_num: 0 }
    }

    pub open spec fn page_id_spec(&self, page_num: u16) -> PageId {
        PageId { segment_num: self.spec_segment_num(), page_num }
    }

    pub fn segment_num(&self) -> (r: u32)
        ensures
            r == self.spec_segment_num(),
    {
        self.segment_num
    }

    fn page_id(&self, page_num: u16) -> (r: PageId)
        ensures
            r == self.page_id_spec(page_num),
    {
        PageId { segment_num: self.segment_num, page_num }
    }

    /// Extends the segment by one page: the header's page count grows by one
    /// and the old count is the new page's number. `None` when the segment
    /// is full.
    pub fn create_new_page<S: StorageApi>(&self, tm: &mut TransactionManager<S>, t: &mut Transaction) -> (r: Result<
        Option<u16>,
        Error,
    >)
        requires
            old(tm).wf(),
            old(t).wf(),
            old(t).spec_page_size() as nat == old(tm).cache_view().spec_page_size(),
        ensures
            final(tm).wf(),
            final(t).wf(),
            final(t).spec_tid() == old(t).spec_tid(),
            final(t).spec_page_size() == old(t).spec_page_size(),
            final(tm).next_tid() == old(tm).next_tid(),
            final(tm).cache_view().spec_page_size() == old(tm).cache_view().spec_page_size(),
            forall|p: PageId| p != self.header_id() ==> #[trigger] final(tm).content(p) == old(tm).content(p),
            r matches Ok(Some(n)) ==> n != 0 && field(old(tm).content(self.header_id()), 0) == le16(n) && final(tm).content(
                self.header_id(),
            ) == splice(old(tm).content(self.header_id()), 0, le16((n + 1) as u16)),
            r matches Ok(None) ==> field(old(tm).content(self.header_id()), 0) == le16(MAX_NUM_PAGES)
                && final(tm).content(self.header_id()) == old(tm).content(self.header_id()),
            r matches Err(Error::CorruptedSegment(s)) ==> s == self.spec_segment_num(),
            ({
                let h = field(old(tm).content(self.header_id()), 0);
                ready(*old(tm), *old(t), self.header_id()) && old(tm).wal_view().spec_last_seq() < u64::MAX
                    ==> (old(tm).cache_view().spec_page_size() < 4 ==> r == Err::<Option<u16>, Error>(
                    Error::CorruptedSegment(self.spec_segment_num()),
                )) && (old(tm).cache_view().spec_page_size() >= 4 ==> (h == le16(MAX_NUM_PAGES) ==> r == Ok::<
                    Option<u16>,
                    Error,
                >(None)) && (h == le16(0) ==> r == Err::<Option<u16>, Error>(
                    Error::CorruptedSegment(self.spec_segment_num()),
                )) && (h != le16(MAX_NUM_PAGES) && h != le16(0) ==> r == Ok::<Option<u16>, Error>(Some(u16_of(h)))))
            }),
    {
        proof {
            lemma_u16_of(MAX_NUM_PAGES);
            lemma_u16_of(0);
            old(tm).lemma_wf();
        }
        let hid = self.page_id(0);
        let mut header = match t.read(tm, hid) {
            Ok(b) => b,
            Err(e) => {
                return Err(e);
            },
        };
        if header.len() < 4 {
            return Err(Error::CorruptedSegment(self.segment_num));
        }
        proof {
            lemma_u16_of(u16_of(field(header@, 0)));
        }
        let num_pages = get_u16(header.as_slice(), 0);
        proof {
            lemma_u16_of(num_pages);
        }
        if num_pages == MAX_NUM_PAGES {
            return Ok(None);
        }
        if num_pages == 0 {
            return Err(Error::CorruptedSegment(self.segment_num));
        }
        set_u16(&mut header, 0, num_pages + 1);
        match t.write(tm, hid, header.as_slice()) {
            Ok(()) => {},
            Err(e) => {
                return Err(e);
            },
        }
        assert(splice(old(tm).content(hid), 0, header@) =~= header@);
        Ok(Some(num_pages))
    }
    /// Takes a page off the freelist. Where the trunk has entries, its last
    /// entry leaves it; where it has none, the trunk page itself is handed
    /// out and its successor becomes the trunk. `None` when the freelist is
    /// empty.
    pub fn pop_free_page<S: StorageApi>(&self, tm: &mut TransactionManager<S>, t: &mut Transaction) -> (r: Result<
        Option<u16>,
        Error,
    >)
        requires
            old(tm).wf(),
            old(t).wf(),
            old(t).spec_page_size() as nat == old(tm).cache_view().spec_page_size(),
        ensures
            final(tm).wf(),
            final(t).wf(),
            final(t).spec_tid() == old(t).spec_tid(),
            final(t).spec_page_size() == old(t).spec_page_size(),
            final(tm).next_tid() == old(tm).next_tid(),
            final(tm).cache_view().spec_page_size() == old(tm).cache_view().spec_page_size(),
            r == Ok::<Option<u16>, Error>(None) ==> *final(t) == *old(t) && final(tm).wal_view() == old(tm).wal_view()
                && (ready(*old(tm), *old(t), self.header_id()) ==> ready(*final(tm), *final(t), self.header_id())),
            ({
                let h = old(tm).content(self.header_id());
                let trunk = u16_of(field(h, 2));
                let tp = old(tm).content(self.page_id_spec(trunk));
                let len = u16_of(field(tp, 2));
                &&& r matches Ok(None) ==> trunk == 0 && forall|p: PageId| #[trigger] final(tm).content(p) == old(tm).content(p)
                &&& r matches Ok(Some(n)) ==> trunk != 0 && n != 0 && ((len == 0 && n == trunk && final(tm).content(
                    self.header_id(),
                ) == splice(h, 2, field(tp, 0)) && forall|p: PageId|
                    p != self.header_id() ==> #[trigger] final(tm).content(p) == old(tm).content(p)) || (len > 0
                    && 4 + 2 * len <= tp.len() && le16(n) == field(tp, 4 + 2 * (len - 1)) && final(tm).content(
                    self.page_id_spec(trunk),
                ) == splice(splice(tp, 2, le16((len - 1) as u16)), 4 + 2 * (len - 1), le16(0)) && forall|p: PageId|
                    p != self.page_id_spec(trunk) ==> #[trigger] final(tm).content(p) == old(tm).content(p)))
            }),
            r matches Err(Error::CorruptedSegment(s)) ==> s == self.spec_segment_num(),
            ({
                let h = old(tm).content(self.header_id());
                let trunk = u16_of(field(h, 2));
                let tp = old(tm).content(self.page_id_spec(trunk));
                let len = u16_of(field(tp, 2));
                let entry = u16_of(field(tp, 4 + 2 * (len - 1)));
                ready(*old(tm), *old(t), self.header_id()) && (trunk != 0 ==> ready(
                    *old(tm),
                    *old(t),
                    self.page_id_spec(trunk),
                )) && old(tm).wal_view().spec_last_seq() < u64::MAX && old(tm).cache_view().spec_page_size() >= 4
                    ==> (trunk == 0 ==> r == Ok::<Option<u16>, Error>(None)) && (trunk != 0 && len == 0 ==> r == Ok::<
                    Option<u16>,
                    Error,
                >(Some(trunk))) && (trunk != 0 && len > 0 && len <= freelist_capacity(
                    old(tm).cache_view().spec_page_size(),
                ) && entry != 0 ==> r == Ok::<Option<u16>, Error>(Some(entry))) && (trunk != 0 && len > 0 && (len
                    > freelist_capacity(old(tm).cache_view().spec_page_size()) || entry == 0) ==> r == Err::<
                    Option<u16>,
                    Error,
                >(Error::CorruptedSegment(self.spec_segment_num())))
            }),
    {
        proof {
            old(tm).lemma_wf();
        }
        let hid = self.page_id(0);
        let mut header = match t.read(tm, hid) {
            Ok(b) => b,
            Err(e) => {
                return Err(e);
            },
        };
        if header.len() < 4 {
            return Err(Error::CorruptedSegment(self.segment_num));
        }
        let trunk = get_u16(header.as_slice(), 2);
        proof {
            lemma_u16_of(trunk);
        }
        if trunk == 0 {
            return Ok(None);
        }
        let tpid = self.page_id(trunk);
        let mut tp = match t.read(tm, tpid) {
            Ok(b) => b,
            Err(e) => {
                return Err(e);
            },
        };
        let len = get_u16(tp.as_slice(), 2);
        proof {
            lemma_u16_of(len);
        }
        assert(tp@ == old(tm).content(tpid));
        if len == 0 {
            let next = get_u16(tp.as_slice(), 0);
            set_u16(&mut header, 2, next);
            match t.write(tm, hid, header.as_slice()) {
                Ok(()) => {},
                Err(e) => {
                    return Err(e);
                },
            }
            assert(splice(old(tm).content(hid), 0, header@) =~= header@);
            return Ok(Some(trunk));
        }
        if len as usize > (tp.len() - 4) / 2 {
            return Err(Error::CorruptedSegment(self.segment_num));
        }
        let at = 4 + 2 * (len as usize - 1);
        let item = get_u16(tp.as_slice(), at);
        proof {
            lemma_u16_of(item);
        }
        if item == 0 {
            return Err(Error::CorruptedSegment(self.segment_num));
        }
        set_u16(&mut tp, 2, len - 1);
        set_u16(&mut tp, at, 0);
        match t.write(tm, tpid, tp.as_slice()) {
            Ok(()) => {},
            Err(e) => {
                return Err(e);
            },
        }
        assert(splice(old(tm).content(tpid), 0, tp@) =~= tp@);
        Ok(Some(item))
    }

    /// Returns page `page_num` to the freelist: onto the trunk where it has
    /// room, else as a new, empty trunk in front of the old one.
    pub fn free_page<S: StorageApi>(&self, tm: &mut TransactionManager<S>, t: &mut Transaction, page_num: u16) -> (r:
        Result<(), Error>)
        requires
            old(tm).wf(),
            old(t).wf(),
            old(t).spec_page_size() as nat == old(tm).cache_view().spec_page_size(),
            page_num != 0,
        ensures
            final(tm).wf(),
            final(t).wf(),
            final(t).spec_tid() == old(t).spec_tid(),
            final(t).spec_page_size() == old(t).spec_page_size(),
            final(tm).next_tid() == old(tm).next_tid(),
            final(tm).cache_view().spec_page_size() == old(tm).cache_view().spec_page_size(),
            ({
                let h = old(tm).content(self.header_id());
                let trunk = u16_of(field(h, 2));
                let tp = old(tm).content(self.page_id_spec(trunk));
                let len = u16_of(field(tp, 2));
                let room = trunk != 0 && len < freelist_capacity(tp.len());
                r is Ok ==> (room && final(tm).content(self.page_id_spec(trunk)) == splice(
                    splice(tp, 4 + 2 * len, le16(page_num)),
                    2,
                    le16((len + 1) as u16),
                ) && forall|p: PageId|
                    p != self.page_id_spec(trunk) ==> #[trigger] final(tm).content(p) == old(tm).content(p)) || (!room
                    && final(tm).content(self.page_id_spec(page_num)) == le16(trunk) + Seq::new(
                    (old(tm).cache_view().spec_page_size() - 2) as nat,
                    |i: int| 0u8,
                ) && final(tm).content(self.header_id()) == splice(h, 2, le16(page_num)) && forall|p: PageId|
                    p != self.page_id_spec(page_num) && p != self.header_id() ==> #[trigger] final(tm).content(p)
                        == old(tm).content(p))
            }),
            r matches Err(Error::CorruptedSegment(s)) ==> s == self.spec_segment_num(),
            r matches Err(Error::CorruptedSegment(_)) ==> old(tm).cache_view().spec_page_size() < 4,
            ready(*old(tm), *old(t), self.header_id()) && old(tm).cache_view().spec_page_size() < 4 ==> r == Err::<
                (),
                Error,
            >(Error::CorruptedSegment(self.spec_segment_num())),
            ({
                let trunk = u16_of(field(old(tm).content(self.header_id()), 2));
                ready(*old(tm), *old(t), self.header_id()) && (trunk != 0 ==> ready(
                    *old(tm),
                    *old(t),
                    self.page_id_spec(trunk),
                )) && ready(*old(tm), *old(t), self.page_id_spec(page_num)) && old(tm).wal_view().spec_last_seq() + 2
                    <= u64::MAX && old(tm).cache_view().spec_page_size() >= 4 ==> r is Ok
            }),
    {
        proof {
            old(tm).lemma_wf();
        }
        let hid = self.page_id(0);
        let mut header = match t.read(tm, hid) {
            Ok(b) => b,
            Err(e) => {
                return Err(e);
            },
        };
        if header.len() < 4 {
            return Err(Error::CorruptedSegment(self.segment_num));
        }
        let page_size = header.len();
        let trunk = get_u16(header.as_slice(), 2);
        proof {
            lemma_u16_of(trunk);
        }
        if trunk != 0 {
            let tpid = self.page_id(trunk);
            let mut tp = match t.read(tm, tpid) {
                Ok(b) => b,
                Err(e) => {
                    return Err(e);
                },
            };
            let len = get_u16(tp.as_slice(), 2);
            proof {
                lemma_u16_of(len);
            }
            if (len as usize) < (tp.len() - 4) / 2 {
                set_u16(&mut tp, 4 + 2 * len as usize, page_num);
                set_u16(&mut tp, 2, len + 1);
                match t.write(tm, tpid, tp.as_slice()) {
                    Ok(()) => {},
                    Err(e) => {
                        return Err(e);
                    },
                }
                assert(splice(old(tm).content(tpid), 0, tp@) =~= tp@);
                return Ok(());
            }
        }
        let ghost mid = *tm;
        let mut fresh: Vec<u8> = vec![0u8; page_size];
        set_u16(&mut fresh, 0, trunk);
        let pid = self.page_id(page_num);
        match t.write(tm, pid, fresh.as_slice()) {
            Ok(()) => {},
            Err(e) => {
                return Err(e);
            },
        }
        assert(fresh@ =~= le16(trunk) + Seq::new((page_size - 2) as nat, |i: int| 0u8));
        assert(splice(mid.content(pid), 0, fresh@) =~= fresh@);
        set_u16(&mut header, 2, page_num);
        match t.write(tm, hid, header.as_slice()) {
            Ok(()) => {},
            Err(e) => {
                return Err(e);
            },
        }
        assert(splice(old(tm).content(hid), 0, header@) =~= header@);
        Ok(())
    }

    /// A page for transaction `t`: one off the freelist where there is one,
    /// else a new page at the end of the segment; `None` when the freelist is
    /// empty and the segment full.
    pub fn alloc_page<S: StorageApi>(&self, tm: &mut TransactionManager<S>, t: &mut Transaction) -> (r: Result<
        Option<u16>,
        Error,
    >)
        requires
            old(tm).wf(),
            old(t).wf(),
            old(t).spec_page_size() as nat == old(tm).cache_view().spec_page_size(),
        ensures
            final(tm).wf(),
            final(t).wf(),
            final(t).spec_tid() == old(t).spec_tid(),
            final(t).spec_page_size() == old(t).spec_page_size(),
            final(tm).next_tid() == old(tm).next_tid(),
            final(tm).cache_view().spec_page_size() == old(tm).cache_view().spec_page_size(),
            r matches Ok(Some(n)) ==> n != 0,
            r matches Ok(None) ==> u16_of(field(old(tm).content(self.header_id()), 2)) == 0 && field(
                old(tm).content(self.header_id()),
                0,
            ) == le16(MAX_NUM_PAGES) && forall|p: PageId| #[trigger] final(tm).content(p) == old(tm).content(p),
            r matches Err(Error::CorruptedSegment(s)) ==> s == self.spec_segment_num(),
            ({
                let h = old(tm).content(self.header_id());
                let count = field(h, 0);
                let trunk = u16_of(field(h, 2));
                let tp = old(tm).content(self.page_id_spec(trunk));
                let len = u16_of(field(tp, 2));
                let entry = u16_of(field(tp, 4 + 2 * (len - 1)));
                ready(*old(tm), *old(t), self.header_id()) && (trunk != 0 ==> ready(
                    *old(tm),
                    *old(t),
                    self.page_id_spec(trunk),
                )) && old(tm).wal_view().spec_last_seq() < u64::MAX && old(tm).cache_view().spec_page_size() >= 4
                    ==> (trunk == 0 && count == le16(MAX_NUM_PAGES) ==> r == Ok::<Option<u16>, Error>(None)) && (
                trunk == 0 && count == le16(0) ==> r == Err::<Option<u16>, Error>(
                    Error::CorruptedSegment(self.spec_segment_num()),
                )) && (trunk == 0 && count != le16(MAX_NUM_PAGES) && count != le16(0) ==> r == Ok::<Option<u16>, Error>(
                    Some(u16_of(count)),
                )) && (trunk != 0 && len == 0 ==> r == Ok::<Option<u16>, Error>(Some(trunk))) && (trunk != 0 && len > 0
                    && len <= freelist_capacity(old(tm).cache_view().spec_page_size()) && entry != 0 ==> r == Ok::<
                    Option<u16>,
                    Error,
                >(Some(entry))) && (trunk != 0 && len > 0 && (len > freelist_capacity(
                    old(tm).cache_view().spec_page_size(),
                ) || entry == 0) ==> r == Err::<Option<u16>, Error>(Error::CorruptedSegment(self.spec_segment_num())))
            }),
    {
        match self.pop_free_page(tm, t) {
            Ok(Some(n)) => {
                return Ok(Some(n));
            },
            Ok(None) => {},
            Err(e) => {
                return Err(e);
            },
        }
        self.create_new_page(tm, t)
    }

}

} // verus!
