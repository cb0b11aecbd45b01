use vstd::prelude::*;

use crate::cache::{CacheError, PageCache};
use crate::diff::{copy_range, generate_diff, is_diff_of, splice};
use crate::error::Error;
use crate::id::PageId;
use crate::recovery::{pages_of, put, recover_records, recovered, Pages};
use crate::storage::StorageApi;
use crate::wal::{encode_all, valid_log, Wal, WalError, WalRecord};

verus! {

/// Writes the before images of `entries` back, latest first.
pub open spec fn rollback(f: Pages, entries: Seq<(PageId, u16, Vec<u8>)>) -> Pages
    decreases entries.len(),
{
    if entries.len() == 0 {
        f
    } else {
        let e = entries.last();
        rollback(put(f, e.0, e.1 as int, e.2@), entries.drop_last())
    }
}

/// Owns the page cache and the write-ahead log, hands out transaction ids,
/// and gives every log record the next sequence number.
pub struct TransactionManager<S: StorageApi> {
    cache: PageCache<S>,
    wal: Wal,
    tid_counter: u64,
    seq_counter: u64,
    recovered_from: Ghost<Seq<WalRecord>>,
}

/// A transaction: its id, and for each of its writes the page, offset and
/// bytes that a cancel restores.
pub struct Transaction {
    tid: u64,
    page_size: u16,
    undo: Vec<(PageId, u16, Vec<u8>)>,
}

impl<S: StorageApi> TransactionManager<S> {
    pub closed spec fn wf(&self) -> bool {
        &&& self.cache.wf()
        &&& self.wal.wf()
        &&& self.wal.spec_page_size() as nat == self.cache.spec_page_size()
        &&& self.seq_counter == self.wal.spec_last_seq()
    }

    pub closed spec fn cache_view(&self) -> PageCache<S> {
        self.cache
    }

    pub closed spec fn wal_view(&self) -> Wal {
        self.wal
    }

    /// The id the next transaction gets.
    pub closed spec fn next_tid(&self) -> u64 {
        self.tid_counter
    }

    /// The records that recovery replayed when the manager was made.
    pub closed spec fn recovered_from(&self) -> Seq<WalRecord> {
        self.recovered_from@
    }

    /// A well-formed manager holds a well-formed cache and log of one page size.
    pub proof fn lemma_wf(&self)
        requires
            self.wf(),
        ensures
            self.cache_view().wf(),
            self.wal_view().wf(),
            self.wal_view().spec_page_size() as nat == self.cache_view().spec_page_size(),
    {
    }

    pub open spec fn content(&self, id: PageId) -> Seq<u8> {
        self.cache_view().content(id)
    }

    /// Takes over `cache` and `wal` and recovers the cache from the log: the
    /// pages become what `recovered` gives for the log's records. Transaction
    /// ids continue after the largest one in the log.
    pub fn new(cache: PageCache<S>, wal: Wal) -> (r: Result<TransactionManager<S>, Error>)
        requires
            cache.wf(),
            wal.wf(),
        ensures
            r matches Ok(tm) ==> tm.wf() && tm.wal_view() == wal && encode_all(tm.recovered_from())
                == encode_all(wal.records()) && pages_of(tm.cache_view()) == recovered(
                pages_of(cache),
                tm.recovered_from(),
            ) && forall|i: int|
                0 <= i < tm.recovered_from().len() ==> #[trigger] tm.recovered_from()[i].tid() < tm.next_tid(),
            (r matches Err(e) && e == Error::Wal(WalError::BadHeader)) <==> wal.spec_page_size() as nat
                != cache.spec_page_size(),
            (r == Err::<TransactionManager<S>, Error>(Error::SizeLimitReached)) <==> (wal.spec_page_size() as nat
                == cache.spec_page_size() && exists|i: int|
                0 <= i < wal.records().len() && #[trigger] wal.records()[i].tid() == u64::MAX),
            wal.spec_page_size() as nat == cache.spec_page_size() && (forall|i: int|
                0 <= i < wal.records().len() ==> #[trigger] wal.records()[i].tid() < u64::MAX && !(
                wal.records()[i] is Write)) ==> r is Ok,
            r matches Ok(tm) ==> (wal.records().len() == 0 ==> tm.next_tid() == 0),
            r matches Err(e) ==> e is Cache || e == Error::SizeLimitReached || e == Error::Wal(WalError::BadHeader),
    {
        let mut c = cache;
        if wal.page_size() != c.page_size() {
            return Err(Error::Wal(WalError::BadHeader));
        }
        let records = match wal.iter() {
            Ok(v) => v,
            Err(e) => {
                return Err(Error::Wal(e));
            },
        };
        proof {
            wal.lemma_valid();
            crate::wal::lemma_encode_unique(records@, wal.records(), wal.spec_page_size() as nat);
        }
        let mut next: u64 = 0;
        let mut i: usize = 0;
        while i < records.len()
            invariant
                i <= records@.len(),
                wal.spec_page_size() as nat == cache.spec_page_size(),
                c == cache,
                forall|k: int| 0 <= k < i ==> #[trigger] records@[k].tid() < next,
                forall|k: int| 0 <= k < i ==> #[trigger] records@[k].tid() < u64::MAX,
                i == 0 ==> next == 0,
                records@.len() == wal.records().len(),
                forall|k: int|
                    0 <= k < records@.len() ==> #[trigger] records@[k].tid() == wal.records()[k].tid() && (
                    records@[k] is Write <==> wal.records()[k] is Write),
            decreases records@.len() - i,
        {
            let t = records[i].tid_of();
            if t == u64::MAX {
                assert(wal.records()[i as int].tid() == u64::MAX);
                return Err(Error::SizeLimitReached);
            }
            if t >= next {
                next = t + 1;
            }
            i = i + 1;
        }
        proof {
            if forall|i: int|
                0 <= i < wal.records().len() ==> #[trigger] wal.records()[i].tid() < u64::MAX && !(
                wal.records()[i] is Write) {
                assert forall|k: int| 0 <= k < records@.len() && #[trigger] records@[k] is Write implies false by {
                    assert(wal.records()[k].tid() < u64::MAX);
                    assert(!(wal.records()[k] is Write));
                    assert(records@[k].tid() == wal.records()[k].tid());
                }
            }
            assert forall|k: int| 0 <= k < wal.records().len() implies #[trigger] wal.records()[k].tid() < u64::MAX by {
                assert(records@[k].tid() < u64::MAX);
            }
        }
        match recover_records(&mut c, &records) {
            Ok(()) => {},
            Err(e) => {
                return Err(Error::Cache(e));
            },
        }
        let seq_counter = wal.last_seq();
        Ok(TransactionManager { cache: c, wal, tid_counter: next, seq_counter, recovered_from: Ghost(records@) })
    }

    /// Starts a transaction with the next id.
    pub fn begin(&mut self) -> (r: Result<Transaction, Error>)
        requires
            old(self).wf(),
        ensures
            final(self).wf(),
            final(self).cache_view() == old(self).cache_view(),
            final(self).wal_view() == old(self).wal_view(),
            r matches Ok(t) ==> t.wf() && t.spec_tid() == old(self).next_tid() && t.undo_log().len() == 0
                && t.spec_page_size() as nat == old(self).cache_view().spec_page_size() && final(self).next_tid()
                == old(self).next_tid() + 1,
            (r is Err) <==> old(self).next_tid() == u64::MAX,
            r matches Err(e) ==> e == Error::SizeLimitReached,
    {
        if self.tid_counter == u64::MAX {
            return Err(Error::SizeLimitReached);
        }
        let tid = self.tid_counter;
        self.tid_counter = tid + 1;
        let page_size = self.cache.page_size();
        Ok(Transaction { tid, page_size, undo: Vec::new() })
    }

    /// Writes every dirty page of the cache to storage.
    pub fn flush_cache(&mut self) -> (r: Result<(), Error>)
        requires
            old(self).wf(),
        ensures
            final(self).wf(),
            final(self).wal_view() == old(self).wal_view(),
            forall|p: PageId| #[trigger] final(self).content(p) == old(self).content(p),
            r is Ok ==> final(self).cache_view().dirty_count() == 0,
    {
        match self.cache.flush() {
            Ok(()) => Ok(()),
            Err(e) => Err(Error::Cache(e)),
        }
    }

    pub fn cache(&self) -> (r: &PageCache<S>)
        ensures
            *r == self.cache_view(),
    {
        &self.cache
    }

    pub fn wal(&self) -> (r: &Wal)
        ensures
            *r == self.wal_view(),
    {
        &self.wal
    }

    /// Gives back the cache and the log.
    pub fn into_parts(self) -> (r: (PageCache<S>, Wal))
        ensures
            r.0 == self.cache_view(),
            r.1 == self.wal_view(),
    {
        (self.cache, self.wal)
    }
}

impl Transaction {
    pub closed spec fn wf(&self) -> bool {
        forall|i: int| 0 <= i < self.undo@.len() ==> #[trigger] self.undo@[i].1 + self.undo@[i].2@.len() <= self.page_size
    }

    pub closed spec fn spec_tid(&self) -> u64 {
        self.tid
    }

    pub closed spec fn spec_page_size(&self) -> u16 {
        self.page_size
    }

    /// For each write so far, the page, offset and before image.
    pub closed spec fn undo_log(&self) -> Seq<(PageId, u16, Vec<u8>)> {
        self.undo@
    }

    pub fn tid(&self) -> (r: u64)
        ensures
            r == self.spec_tid(),
    {
        self.tid
    }

    /// Page `id` as this transaction sees it, its own writes included.
    pub fn read<S: StorageApi>(&self, tm: &mut TransactionManager<S>, id: PageId) -> (r: Result<Vec<u8>, Error>)
        requires
            old(tm).wf(),
        ensures
            final(tm).wf(),
            final(tm).wal_view() == old(tm).wal_view(),
            final(tm).next_tid() == old(tm).next_tid(),
            forall|p: PageId| #[trigger] final(tm).content(p) == old(tm).content(p),
            forall|p: PageId| #[trigger] final(tm).cache_view().locked_by(p) == old(tm).cache_view().locked_by(p),
            final(tm).cache_view().spec_page_size() == old(tm).cache_view().spec_page_size(),
            r matches Ok(b) ==> b@ == old(tm).content(id) && b@.len() == old(tm).cache_view().spec_page_size(),
            r matches Err(e) ==> e is Cache,
            (r == Err::<Vec<u8>, Error>(Error::Cache(CacheError::PageLocked))) <==> !old(tm).cache_view().accessible(
                id,
                Some(self.spec_tid()),
            ),
            old(tm).cache_view().resident(id) && old(tm).cache_view().accessible(id, Some(self.spec_tid()))
                ==> r is Ok,
            PageCache::access_frame(old(tm).cache_view(), final(tm).cache_view(), id),
            old(tm).cache_view().storage_view().infallible() && old(tm).cache_view().accessible(id, Some(self.spec_tid()))
                && !(!old(tm).cache_view().resident(id) && old(tm).cache_view().all_locked()) ==> r is Ok,
            r is Ok ==> final(tm).cache_view().resident(id),
    {
        match tm.cache.read_locked(self.tid, id) {
            Ok(b) => Ok(b),
            Err(e) => Err(Error::Cache(e)),
        }
    }
    /// Writes `data` over the start of page `id`. The smallest changed range
    /// is logged as a write record under the next sequence number, then the
    /// page is changed in the cache and held under this transaction's write
    /// lock until it commits or cancels.
    pub fn write<S: StorageApi>(&mut self, tm: &mut TransactionManager<S>, id: PageId, data: &[u8]) -> (r: Result<
        (),
        Error,
    >)
        requires
            old(self).wf(),
            old(tm).wf(),
            old(self).spec_page_size() as nat == old(tm).cache_view().spec_page_size(),
            data@.len() <= old(self).spec_page_size(),
        ensures
            final(self).wf(),
            final(tm).wf(),
            final(self).spec_tid() == old(self).spec_tid(),
            final(self).spec_page_size() == old(self).spec_page_size(),
            final(tm).next_tid() == old(tm).next_tid(),
            final(tm).cache_view().spec_page_size() == old(tm).cache_view().spec_page_size(),
            final(tm).wal_view().spec_page_size() == old(tm).wal_view().spec_page_size(),
            final(tm).wal_view().durable() == old(tm).wal_view().durable(),
            r matches Err(e) ==> e is Cache || e is Wal || e == Error::SizeLimitReached,
            forall|p: PageId| p != id ==> #[trigger] final(tm).content(p) == old(tm).content(p),
            forall|p: PageId|
                p != id ==> #[trigger] final(tm).cache_view().locked_by(p) == old(tm).cache_view().locked_by(p),
            r is Ok ==> final(tm).content(id) == splice(old(tm).content(id), 0, data@) && final(tm).cache_view().locked_by(id)
                == Some(old(self).spec_tid()) && final(tm).content(id).len() == old(tm).cache_view().spec_page_size()
                && final(tm).cache_view().resident(id) && final(tm).cache_view().is_dirty(id)
                && final(tm).wal_view().spec_last_seq() == old(tm).wal_view().spec_last_seq() + 1,
            r is Err ==> final(tm).wal_view().spec_last_seq() >= old(tm).wal_view().spec_last_seq(),
            PageCache::access_frame(old(tm).cache_view(), final(tm).cache_view(), id),
            old(tm).cache_view().storage_view().infallible() && old(tm).cache_view().accessible(id, Some(old(self).spec_tid()))
                && !(!old(tm).cache_view().resident(id) && old(tm).cache_view().all_locked())
                && old(tm).wal_view().spec_last_seq() < u64::MAX ==> r is Ok,
            r is Ok ==> final(tm).wal_view().records().drop_last() == old(tm).wal_view().records()
                && final(tm).wal_view().records().len() == old(tm).wal_view().records().len() + 1 && match final(tm).wal_view().records().last() {
                WalRecord::Write { tid, seq, page_id, start, before, after } => tid == old(self).spec_tid() && seq
                    == old(tm).wal_view().spec_last_seq() + 1 && page_id == id && is_diff_of(
                    old(tm).content(id).subrange(0, data@.len() as int),
                    data@,
                    start as int,
                    before@,
                    after@,
                ) && final(self).undo_log().len() == old(self).undo_log().len() + 1 && final(self).undo_log().drop_last()
                    == old(self).undo_log() && final(self).undo_log().last().0 == id && final(self).undo_log().last().1
                    == start && final(self).undo_log().last().2@ == before@,
                _ => false,
            },
            r is Err ==> final(tm).content(id) == old(tm).content(id) && *final(self) == *old(self),
            (r == Err::<(), Error>(Error::Cache(CacheError::PageLocked))) <==> !old(tm).cache_view().accessible(
                id,
                Some(old(self).spec_tid()),
            ),
            old(tm).cache_view().resident(id) && old(tm).cache_view().accessible(id, Some(old(self).spec_tid()))
                && old(tm).wal_view().spec_last_seq() < u64::MAX ==> r is Ok,
    {
        let cur = match tm.cache.read_locked(self.tid, id) {
            Ok(b) => b,
            Err(e) => {
                return Err(Error::Cache(e));
            },
        };
        let prefix = copy_range(cur.as_slice(), 0, data.len());
        let diff = generate_diff(prefix.as_slice(), data);
        if tm.seq_counter == u64::MAX {
            return Err(Error::SizeLimitReached);
        }
        let seq = tm.seq_counter + 1;
        let start = diff.start as u16;
        match tm.wal.push_write(self.tid, seq, id, start, diff.before.as_slice(), diff.after.as_slice()) {
            Ok(()) => {},
            Err(e) => {
                return Err(Error::Wal(e));
            },
        }
        tm.seq_counter = seq;
        match tm.cache.write_locked(self.tid, id, 0, data) {
            Ok(()) => {},
            Err(e) => {
                return Err(Error::Cache(e));
            },
        }
        let ghost undo0 = self.undo@;
        self.undo.push((id, start, diff.before));
        assert(self.undo@.drop_last() =~= undo0);
        assert forall|i: int| 0 <= i < self.undo@.len() implies #[trigger] self.undo@[i].1 + self.undo@[i].2@.len() <= self.page_size by {
            if i < undo0.len() {
                assert(undo0[i] == self.undo@[i]);
            }
        }
        Ok(())
    }

    /// Commits: appends a commit record, flushes the log, and releases the
    /// transaction's write locks. The pages stay dirty in the cache.
    pub fn commit<S: StorageApi>(self, tm: &mut TransactionManager<S>) -> (r: Result<(), Error>)
        requires
            old(tm).wf(),
        ensures
            final(tm).wf(),
            final(tm).next_tid() == old(tm).next_tid(),
            final(tm).wal_view().spec_page_size() == old(tm).wal_view().spec_page_size(),
            forall|p: PageId| #[trigger] final(tm).content(p) == old(tm).content(p),
            forall|p: PageId|
                #[trigger] final(tm).cache_view().locked_by(p) == if old(tm).cache_view().locked_by(p) == Some(
                    self.spec_tid(),
                ) {
                    None
                } else {
                    old(tm).cache_view().locked_by(p)
                },
            r is Ok ==> final(tm).wal_view().records() == old(tm).wal_view().records().push(
                WalRecord::Commit { tid: self.spec_tid(), seq: (old(tm).wal_view().spec_last_seq() + 1) as u64 },
            ) && final(tm).wal_view().durable() == final(tm).wal_view().bytes(),
            (r is Err) <==> old(tm).wal_view().spec_last_seq() == u64::MAX,
            r matches Err(e) ==> e == Error::SizeLimitReached,
            final(tm).cache_view().storage_view() == old(tm).cache_view().storage_view(),
            forall|p: PageId| #[trigger] final(tm).cache_view().is_dirty(p) == old(tm).cache_view().is_dirty(p),
            forall|p: PageId| #[trigger] final(tm).cache_view().resident(p) == old(tm).cache_view().resident(p),
    {
        if tm.seq_counter == u64::MAX {
            tm.cache.unlock_all(self.tid);
            return Err(Error::SizeLimitReached);
        }
        let seq = tm.seq_counter + 1;
        match tm.wal.push_commit(self.tid, seq) {
            Ok(()) => {},
            Err(e) => {
                tm.cache.unlock_all(self.tid);
                return Err(Error::Wal(e));
            },
        }
        tm.seq_counter = seq;
        tm.wal.flush();
        tm.cache.unlock_all(self.tid);
        Ok(())
    }

    /// Cancels: appends a cancel record, flushes the log, writes the before
    /// image of each of the transaction's writes back, latest first, and
    /// releases its write locks.
    pub fn cancel<S: StorageApi>(self, tm: &mut TransactionManager<S>) -> (r: Result<(), Error>)
        requires
            self.wf(),
            old(tm).wf(),
            self.spec_page_size() as nat == old(tm).cache_view().spec_page_size(),
        ensures
            final(tm).wf(),
            final(tm).next_tid() == old(tm).next_tid(),
            final(tm).wal_view().spec_page_size() == old(tm).wal_view().spec_page_size(),
            r is Ok ==> pages_of(final(tm).cache_view()) == rollback(pages_of(old(tm).cache_view()), self.undo_log()),
            forall|p: PageId| #[trigger] final(tm).cache_view().locked_by(p) != Some(self.spec_tid()),
            r is Ok ==> final(tm).wal_view().records() == old(tm).wal_view().records().push(
                WalRecord::Cancel { tid: self.spec_tid(), seq: (old(tm).wal_view().spec_last_seq() + 1) as u64 },
            ) && final(tm).wal_view().durable() == final(tm).wal_view().bytes(),
            (r == Err::<(), Error>(Error::SizeLimitReached)) <==> old(tm).wal_view().spec_last_seq() == u64::MAX,
            old(tm).wal_view().spec_last_seq() < u64::MAX && (forall|k: int|
                0 <= k < self.undo_log().len() ==> old(tm).cache_view().resident(#[trigger] self.undo_log()[k].0)
                    && old(tm).cache_view().accessible(self.undo_log()[k].0, Some(self.spec_tid()))) ==> r is Ok,
    {
        if tm.seq_counter == u64::MAX {
            tm.cache.unlock_all(self.tid);
            return Err(Error::SizeLimitReached);
        }
        let seq = tm.seq_counter + 1;
        match tm.wal.push_cancel(self.tid, seq) {
            Ok(()) => {},
            Err(e) => {
                tm.cache.unlock_all(self.tid);
                return Err(Error::Wal(e));
            },
        }
        tm.seq_counter = seq;
        tm.wal.flush();
        let ghost f0 = pages_of(tm.cache);
        let ghost wal1 = tm.wal;
        let mut i: usize = self.undo.len();
        assert(self.undo@.subrange(0, i as int) =~= self.undo@);
        while i > 0
            invariant
                self.wf(),
                tm.wf(),
                tm.wal == wal1,
                wal1.spec_page_size() == old(tm).wal_view().spec_page_size(),
                old(tm).wal_view().spec_last_seq() < u64::MAX,
                tm.tid_counter == old(tm).tid_counter,
                self.spec_page_size() as nat == tm.cache.spec_page_size(),
                i <= self.undo@.len(),
                rollback(pages_of(tm.cache), self.undo@.subrange(0, i as int)) == rollback(f0, self.undo@),
                (forall|k: int|
                    0 <= k < self.undo@.len() ==> old(tm).cache_view().resident(#[trigger] self.undo@[k].0)
                        && old(tm).cache_view().accessible(self.undo@[k].0, Some(self.tid))) ==> (forall|k: int|
                    0 <= k < self.undo@.len() ==> tm.cache.resident(#[trigger] self.undo@[k].0)
                        && tm.cache.accessible(self.undo@[k].0, Some(self.tid))),
            decreases i,
        {
            let ghost g = pages_of(tm.cache);
            let ghost c0 = tm.cache;
            let e = &self.undo[i - 1];
            proof {
                if forall|k: int|
                    0 <= k < self.undo@.len() ==> old(tm).cache_view().resident(#[trigger] self.undo@[k].0)
                        && old(tm).cache_view().accessible(self.undo@[k].0, Some(self.tid)) {
                    assert(c0.resident(self.undo@[i - 1].0) && c0.accessible(self.undo@[i - 1].0, Some(self.tid)));
                }
            }
            assert(self.undo@[i - 1].1 + self.undo@[i - 1].2@.len() <= self.page_size);
            match tm.cache.write_locked(self.tid, e.0, e.1 as usize, e.2.as_slice()) {
                Ok(()) => {},
                Err(err) => {
                    proof {
                        if forall|k: int|
                            0 <= k < self.undo_log().len() ==> old(tm).cache_view().resident(
                                #[trigger] self.undo_log()[k].0,
                            ) && old(tm).cache_view().accessible(self.undo_log()[k].0, Some(self.spec_tid())) {
                            assert forall|k: int|
                                0 <= k < self.undo@.len() implies old(tm).cache_view().resident(#[trigger] self.undo@[k].0)
                                    && old(tm).cache_view().accessible(self.undo@[k].0, Some(self.tid)) by {
                                assert(self.undo_log()[k] == self.undo@[k]);
                            }
                        }
                    }
                    tm.cache.unlock_all(self.tid);
                    return Err(Error::Cache(err));
                },
            }
            proof {
                assert(pages_of(tm.cache) =~= put(g, e.0, e.1 as int, e.2@));
                if forall|k: int|
                    0 <= k < self.undo@.len() ==> old(tm).cache_view().resident(#[trigger] self.undo@[k].0)
                        && old(tm).cache_view().accessible(self.undo@[k].0, Some(self.tid)) {
                    assert forall|k: int| 0 <= k < self.undo@.len() implies tm.cache.resident(#[trigger] self.undo@[k].0)
                        && tm.cache.accessible(self.undo@[k].0, Some(self.tid)) by {
                        let q = self.undo@[k].0;
                        assert(c0.resident(q));
                        assert(c0.resident(e.0));
                        if q != e.0 {
                            assert(tm.cache.locked_by(q) == c0.locked_by(q));
                        }
                    }
                }
                assert(self.undo@.subrange(0, i as int).drop_last() =~= self.undo@.subrange(0, i - 1));
            }
            i = i - 1;
        }
        assert(self.undo@.subrange(0, 0) =~= Seq::<(PageId, u16, Vec<u8>)>::empty());
        tm.cache.unlock_all(self.tid);
        assert(pages_of(tm.cache) =~= rollback(f0, self.undo@));
        Ok(())
    }

}

/// Writing a whole page and reading it back in the same transaction gives
/// exactly the bytes written: `write` leaves `splice(old, 0, data)` and
/// `read` returns the content.
pub proof fn lemma_write_read_back(page: Seq<u8>, data: Seq<u8>)
    requires
        data.len() == page.len(),
    ensures
        splice(page, 0, data) == data,
{
    assert(splice(page, 0, data) =~= data);
}

} // verus!
