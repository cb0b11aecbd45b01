use vstd::prelude::*;

use crate::cache::{CacheError, PageCache};
use crate::diff::splice;
use crate::id::PageId;
use crate::storage::StorageApi;
use crate::wal::{valid_log, WalRecord};

verus! {

/// What every page reads as: a function from page to bytes.
pub type Pages = spec_fn(PageId) -> Seq<u8>;

/// The pages that `cache` shows to readers.
pub open spec fn pages_of<S: StorageApi>(cache: PageCache<S>) -> Pages {
    |p: PageId| cache.content(p)
}

/// `f` with `data` written into page `id` from `start` on.
pub open spec fn put(f: Pages, id: PageId, start: int, data: Seq<u8>) -> Pages {
    |p: PageId|
        if p == id {
            splice(f(p), start, data)
        } else {
            f(p)
        }
}

/// The after image of every write in `rs` applied to `f`, in order.
pub open spec fn redo(f: Pages, rs: Seq<WalRecord>) -> Pages
    decreases rs.len(),
{
    if rs.len() == 0 {
        f
    } else {
        let g = redo(f, rs.drop_last());
        match rs.last() {
            WalRecord::Write { page_id, start, after, .. } => put(g, page_id, start as int, after@),
            _ => g,
        }
    }
}

/// The before image of every write of transaction `tid` in `rs` applied to
/// `f`, latest first.
pub open spec fn undo(f: Pages, rs: Seq<WalRecord>, tid: u64) -> Pages
    decreases rs.len(),
{
    if rs.len() == 0 {
        f
    } else {
        let g = match rs.last() {
            WalRecord::Write { tid: t, page_id, start, before, .. } => if t == tid {
                put(f, page_id, start as int, before@)
            } else {
                f
            },
            _ => f,
        };
        undo(g, rs.drop_last(), tid)
    }
}

/// Undoes the transaction of record `i` from that record back to its start.
pub open spec fn revert_at(f: Pages, rs: Seq<WalRecord>, i: int) -> Pages {
    undo(f, rs.subrange(0, i + 1), rs[i].tid())
}

/// No record after `i` belongs to the transaction of record `i`.
pub open spec fn is_last_of_tid(rs: Seq<WalRecord>, i: int) -> bool {
    forall|j: int| i < j < rs.len() ==> #[trigger] rs[j].tid() != rs[i].tid()
}

/// Reverts, in log order, the transaction of each of the first `k` records
/// that is a cancel.
pub open spec fn cancel_pass(f: Pages, rs: Seq<WalRecord>, k: int) -> Pages
    decreases k,
{
    if k <= 0 {
        f
    } else {
        let g = cancel_pass(f, rs, k - 1);
        if rs[k - 1] is Cancel {
            revert_at(g, rs, k - 1)
        } else {
            g
        }
    }
}

/// Reverts, in log order, each transaction among the first `k` records whose
/// last record is a write: it neither committed nor canceled.
pub open spec fn open_pass(f: Pages, rs: Seq<WalRecord>, k: int) -> Pages
    decreases k,
{
    if k <= 0 {
        f
    } else {
        let g = open_pass(f, rs, k - 1);
        if rs[k - 1] is Write && is_last_of_tid(rs, k - 1) {
            revert_at(g, rs, k - 1)
        } else {
            g
        }
    }
}

/// The pages after recovery from log `rs`: every write redone, then every
/// canceled transaction and every transaction left open undone.
pub open spec fn recovered(f: Pages, rs: Seq<WalRecord>) -> Pages {
    let n = rs.len() as int;
    open_pass(cancel_pass(redo(f, rs), rs, n), rs, n)
}

/// The page a write record changes.
pub open spec fn written_page(r: WalRecord) -> PageId {
    match r {
        WalRecord::Write { page_id, .. } => page_id,
        _ => PageId { segment_num: 0, page_num: 0 },
    }
}

/// A write of page `id` through the cache cannot fail: no transaction holds
/// the page, and it is resident, or storage never fails and some frame is
/// free of locks.
pub open spec fn can_write<S: StorageApi>(c: PageCache<S>, id: PageId) -> bool {
    &&& c.locked_by(id) is None
    &&& (c.resident(id) || (c.storage_view().infallible() && !c.all_locked()))
}

/// What every recovery step keeps, success or not.
pub open spec fn keeps<S: StorageApi>(a: PageCache<S>, b: PageCache<S>) -> bool {
    &&& b.wf()
    &&& b.spec_page_size() == a.spec_page_size()
    &&& b.capacity() == a.capacity()
    &&& b.storage_view().infallible() == a.storage_view().infallible()
    &&& b.all_locked() == a.all_locked()
    &&& forall|p: PageId| #[trigger] b.locked_by(p) == a.locked_by(p)
}

/// Writes `data` into page `id` from `start` on, through the cache.
fn apply_write<S: StorageApi>(cache: &mut PageCache<S>, id: PageId, start: u16, data: &[u8]) -> (r: Result<
    (),
    CacheError,
>)
    requires
        old(cache).wf(),
        start + data@.len() <= old(cache).spec_page_size(),
    ensures
        keeps(*old(cache), *final(cache)),
        can_write(*old(cache), id) ==> r is Ok,
        can_write(*old(cache), id) ==> forall|p: PageId| can_write(*old(cache), p) ==> #[trigger] can_write(*final(cache), p),
        r is Ok ==> pages_of(*final(cache)) == put(pages_of(*old(cache)), id, start as int, data@),
{
    let r = cache.write_page(id, start as usize, data);
    proof {
        if can_write(*old(cache), id) {
            assert forall|p: PageId| can_write(*old(cache), p) implies #[trigger] can_write(*cache, p) by {
                if old(cache).resident(p) && !cache.resident(p) {
                }
            }
        }
    }
    assert(r is Ok ==> pages_of(*cache) =~= put(pages_of(*old(cache)), id, start as int, data@));
    r
}

/// Restores the before images of the writes of the transaction of record
/// `i`, from that record back to the transaction's first write.
pub fn revert_from<S: StorageApi>(cache: &mut PageCache<S>, rs: &Vec<WalRecord>, i: usize) -> (r: Result<
    (),
    CacheError,
>)
    requires
        old(cache).wf(),
        valid_log(rs@, old(cache).spec_page_size()),
        i < rs@.len(),
    ensures
        keeps(*old(cache), *final(cache)),
        (forall|k: int|
            0 <= k <= i && #[trigger] rs@[k] is Write && rs@[k].tid() == rs@[i as int].tid() ==> can_write(
                *old(cache),
                written_page(rs@[k]),
            )) ==> r is Ok && forall|p: PageId| can_write(*old(cache), p) ==> #[trigger] can_write(*final(cache), p),
        r is Ok ==> pages_of(*final(cache)) == revert_at(pages_of(*old(cache)), rs@, i as int),
{
    let n = rs.len();
    let tid = rs[i].tid_of();
    let ghost target = revert_at(pages_of(*cache), rs@, i as int);
    let mut j: usize = i + 1;
    assert(rs@.subrange(0, j as int) == rs@.subrange(0, i as int + 1));
    while j > 0
        invariant
            cache.wf(),
            cache.spec_page_size() == old(cache).spec_page_size(),
            valid_log(rs@, cache.spec_page_size()),
            j <= i + 1 <= rs@.len(),
            tid == rs@[i as int].tid(),
            undo(pages_of(*cache), rs@.subrange(0, j as int), tid) == target,
            keeps(*old(cache), *cache),
            (forall|k: int|
                0 <= k <= i && #[trigger] rs@[k] is Write && rs@[k].tid() == tid ==> can_write(
                    *old(cache),
                    written_page(rs@[k]),
                )) ==> forall|p: PageId| can_write(*old(cache), p) ==> #[trigger] can_write(*cache, p),
        decreases j,
    {
        let ghost pre = pages_of(*cache);
        assert(rs@.subrange(0, j as int).drop_last() =~= rs@.subrange(0, j - 1));
        assert(rs@.subrange(0, j as int).last() == rs@[j - 1]);
        assert(rs@[j - 1].well_formed(cache.spec_page_size()));
        match &rs[j - 1] {
            WalRecord::Write { tid: t, page_id, start, before, .. } => {
                if *t == tid {
                    let res = apply_write(cache, *page_id, *start, before.as_slice());
                    if let Err(e) = res {
                        return Err(e);
                    }
                }
            },
            _ => {},
        }
        j = j - 1;
    }
    assert(rs@.subrange(0, 0) =~= Seq::<WalRecord>::empty());
    Ok(())
}

fn last_of_tid(rs: &Vec<WalRecord>, i: usize) -> (r: bool)
    requires
        i < rs@.len(),
    ensures
        r == is_last_of_tid(rs@, i as int),
{
    let n = rs.len();
    let tid = rs[i].tid_of();
    let mut j: usize = i + 1;
    while j < rs.len()
        invariant
            i < j <= rs@.len(),
            tid == rs@[i as int].tid(),
            forall|k: int| i < k < j ==> #[trigger] rs@[k].tid() != tid,
        decreases rs@.len() - j,
    {
        if rs[j].tid_of() == tid {
            return false;
        }
        j = j + 1;
    }
    true
}

/// Replays log `rs` into the cache: redoes every write, then undoes every
/// canceled transaction and every transaction the log leaves open.
pub fn recover_records<S: StorageApi>(cache: &mut PageCache<S>, rs: &Vec<WalRecord>) -> (r: Result<
    (),
    CacheError,
>)
    requires
        old(cache).wf(),
        valid_log(rs@, old(cache).spec_page_size()),
    ensures
        keeps(*old(cache), *final(cache)),
        (forall|k: int| 0 <= k < rs@.len() && #[trigger] rs@[k] is Write ==> can_write(*old(cache), written_page(rs@[k])))
            ==> r is Ok,
        r is Ok ==> pages_of(*final(cache)) == recovered(pages_of(*old(cache)), rs@),
{
    let ghost c0 = *cache;
    let ghost owed = forall|k: int|
        0 <= k < rs@.len() && #[trigger] rs@[k] is Write ==> can_write(c0, written_page(rs@[k]));
    let ghost f0 = pages_of(*cache);
    let n = rs.len();
    let mut k: usize = 0;
    assert(rs@.subrange(0, 0) =~= Seq::<WalRecord>::empty());
    while k < n
        invariant
            cache.wf(),
            cache.spec_page_size() == old(cache).spec_page_size(),
            valid_log(rs@, cache.spec_page_size()),
            n == rs@.len(),
            c0 == *old(cache),
            owed == (forall|k: int|
                0 <= k < rs@.len() && #[trigger] rs@[k] is Write ==> can_write(c0, written_page(rs@[k]))),
            keeps(c0, *cache),
            owed ==> forall|p: PageId| can_write(c0, p) ==> #[trigger] can_write(*cache, p),
            k <= n,
            pages_of(*cache) == redo(f0, rs@.subrange(0, k as int)),
        decreases n - k,
    {
        assert(rs@.subrange(0, k + 1).drop_last() =~= rs@.subrange(0, k as int));
        assert(rs@.subrange(0, k + 1).last() == rs@[k as int]);
        assert(rs@[k as int].well_formed(cache.spec_page_size()));
        match &rs[k] {
            WalRecord::Write { page_id, start, after, .. } => {
                let res = apply_write(cache, *page_id, *start, after.as_slice());
                if let Err(e) = res {
                    return Err(e);
                }
            },
            _ => {},
        }
        k = k + 1;
    }
    assert(rs@.subrange(0, n as int) =~= rs@);
    let ghost f1 = pages_of(*cache);
    k = 0;
    while k < n
        invariant
            cache.wf(),
            cache.spec_page_size() == old(cache).spec_page_size(),
            valid_log(rs@, cache.spec_page_size()),
            n == rs@.len(),
            c0 == *old(cache),
            owed == (forall|k: int|
                0 <= k < rs@.len() && #[trigger] rs@[k] is Write ==> can_write(c0, written_page(rs@[k]))),
            keeps(c0, *cache),
            owed ==> forall|p: PageId| can_write(c0, p) ==> #[trigger] can_write(*cache, p),
            k <= n,
            f1 == redo(f0, rs@),
            pages_of(*cache) == cancel_pass(f1, rs@, k as int),
        decreases n - k,
    {
        if let WalRecord::Cancel { .. } = &rs[k] {
            let res = revert_from(cache, rs, k);
            if let Err(e) = res {
                return Err(e);
            }
        }
        k = k + 1;
    }
    let ghost f2 = pages_of(*cache);
    k = 0;
    while k < n
        invariant
            cache.wf(),
            cache.spec_page_size() == old(cache).spec_page_size(),
            valid_log(rs@, cache.spec_page_size()),
            n == rs@.len(),
            c0 == *old(cache),
            owed == (forall|k: int|
                0 <= k < rs@.len() && #[trigger] rs@[k] is Write ==> can_write(c0, written_page(rs@[k]))),
            keeps(c0, *cache),
            owed ==> forall|p: PageId| can_write(c0, p) ==> #[trigger] can_write(*cache, p),
            k <= n,
            f2 == cancel_pass(redo(f0, rs@), rs@, n as int),
            pages_of(*cache) == open_pass(f2, rs@, k as int),
        decreases n - k,
    {
        if let WalRecord::Write { .. } = &rs[k] {
            if last_of_tid(rs, k) {
                let res = revert_from(cache, rs, k);
                if let Err(e) = res {
                    return Err(e);
                }
            }
        }
        k = k + 1;
    }
    Ok(())
}

proof fn lemma_cancel_pass_identity(f: Pages, rs: Seq<WalRecord>, k: int)
    requires
        0 <= k <= rs.len(),
        forall|i: int| 0 <= i < rs.len() ==> !(#[trigger] rs[i] is Cancel),
    ensures
        cancel_pass(f, rs, k) == f,
    decreases k,
{
    if k > 0 {
        lemma_cancel_pass_identity(f, rs, k - 1);
    }
}

proof fn lemma_open_pass_identity(f: Pages, rs: Seq<WalRecord>, k: int)
    requires
        0 <= k <= rs.len(),
        forall|i: int| 0 <= i < k ==> !(#[trigger] rs[i] is Write && is_last_of_tid(rs, i)),
    ensures
        open_pass(f, rs, k) == f,
    decreases k,
{
    if k > 0 {
        lemma_open_pass_identity(f, rs, k - 1);
    }
}

/// Every page of `f` is `page_size` bytes long.
pub open spec fn pages_sized(f: Pages, page_size: nat) -> bool {
    forall|p: PageId| #[trigger] f(p).len() == page_size
}

proof fn lemma_redo_sized(f: Pages, rs: Seq<WalRecord>, page_size: nat)
    requires
        pages_sized(f, page_size),
        forall|i: int| 0 <= i < rs.len() ==> #[trigger] rs[i].well_formed(page_size),
    ensures
        pages_sized(redo(f, rs), page_size),
    decreases rs.len(),
{
    if rs.len() > 0 {
        assert forall|i: int| 0 <= i < rs.drop_last().len() implies #[trigger] rs.drop_last()[i].well_formed(page_size) by {
            assert(rs[i].well_formed(page_size));
        }
        lemma_redo_sized(f, rs.drop_last(), page_size);
        assert(rs[rs.len() - 1].well_formed(page_size));
    }
}

/// Each write's before image is what the page held there when the write was
/// made, given that the pages started as `f`.
pub open spec fn consistent(f: Pages, rs: Seq<WalRecord>) -> bool {
    forall|i: int|
        0 <= i < rs.len() ==> match #[trigger] rs[i] {
            WalRecord::Write { page_id, start, before, .. } => before@ == redo(f, rs.subrange(0, i))(
                page_id,
            ).subrange(start as int, start + before@.len()),
            _ => true,
        }
}

proof fn lemma_undo_redo(f: Pages, rs: Seq<WalRecord>, tid: u64, page_size: nat)
    requires
        pages_sized(f, page_size),
        valid_log(rs, page_size),
        forall|i: int| 0 <= i < rs.len() ==> #[trigger] rs[i] is Write && rs[i].tid() == tid,
        consistent(f, rs),
    ensures
        undo(redo(f, rs), rs, tid) == f,
    decreases rs.len(),
{
    if rs.len() > 0 {
        let n = rs.len() - 1;
        let pre = rs.drop_last();
        assert(pre =~= rs.subrange(0, n));
        assert forall|i: int| 0 <= i < pre.len() implies match #[trigger] pre[i] {
            WalRecord::Write { page_id, start, before, .. } => before@ == redo(f, pre.subrange(0, i))(
                page_id,
            ).subrange(start as int, start + before@.len()),
            _ => true,
        } by {
            assert(pre.subrange(0, i) =~= rs.subrange(0, i));
            assert(pre[i] == rs[i]);
        }
        assert forall|i: int, j: int| 0 <= i < j < pre.len() implies #[trigger] pre[i].seq() < #[trigger] pre[j].seq() by {
            assert(rs[i].seq() < rs[j].seq());
        }
        assert forall|i: int| 0 <= i < pre.len() implies #[trigger] pre[i].well_formed(page_size) by {
            assert(rs[i].well_formed(page_size));
        }
        assert forall|i: int| 0 <= i < pre.len() implies #[trigger] pre[i] is Write && pre[i].tid() == tid by {
            assert(rs[i] is Write && rs[i].tid() == tid);
        }
        lemma_undo_redo(f, pre, tid, page_size);
        lemma_redo_sized(f, pre, page_size);
        let r = redo(f, pre);
        assert(rs[n] is Write);
        assert(rs[n].well_formed(page_size));
        match rs[n] {
            WalRecord::Write { page_id, start, before, after, .. } => {
                let x = put(r, page_id, start as int, after@);
                assert(redo(f, rs) == x);
                let y = put(x, page_id, start as int, before@);
                assert(undo(x, rs, tid) == undo(y, pre, tid));
                assert(before@ == r(page_id).subrange(start as int, start + before@.len()));
                assert(y(page_id) =~= r(page_id));
                assert(y =~= r);
            },
            _ => {},
        }
    }
}

/// A log whose records all belong to one transaction, which it ends by
/// committing and never cancels, is recovered by redoing every write of
/// that transaction in order.
pub proof fn lemma_recovery_committed_redone(f: Pages, rs: Seq<WalRecord>, tid: u64)
    requires
        rs.len() > 0,
        rs.last() is Commit,
        forall|i: int| 0 <= i < rs.len() ==> #[trigger] rs[i].tid() == tid,
        forall|i: int| 0 <= i < rs.len() ==> !(#[trigger] rs[i] is Cancel),
    ensures
        recovered(f, rs) == redo(f, rs),
{
    let n = rs.len() as int;
    lemma_cancel_pass_identity(redo(f, rs), rs, n);
    assert forall|i: int| 0 <= i < n implies !(#[trigger] rs[i] is Write && is_last_of_tid(rs, i)) by {
        if rs[i] is Write {
            assert(i != n - 1);
            assert(rs[n - 1].tid() == rs[i].tid());
        }
    }
    lemma_open_pass_identity(redo(f, rs), rs, n);
}

/// A log that holds only writes of one transaction, which neither commits
/// nor cancels, is undone by recovery: the pages come back to what they were
/// before its first write, in particular the range of that first write holds
/// its before image again.
pub proof fn lemma_recovery_uncommitted_undone(f: Pages, rs: Seq<WalRecord>, tid: u64, page_size: nat)
    requires
        rs.len() > 0,
        pages_sized(f, page_size),
        valid_log(rs, page_size),
        forall|i: int| 0 <= i < rs.len() ==> #[trigger] rs[i] is Write && rs[i].tid() == tid,
        consistent(f, rs),
    ensures
        recovered(f, rs) == f,
        match rs[0] {
            WalRecord::Write { page_id, start, before, .. } => recovered(f, rs)(page_id).subrange(
                start as int,
                start + before@.len(),
            ) == before@,
            _ => true,
        },
{
    let n = rs.len() as int;
    assert forall|i: int| 0 <= i < rs.len() implies !(#[trigger] rs[i] is Cancel) by {
        assert(rs[i] is Write);
    }
    lemma_cancel_pass_identity(redo(f, rs), rs, n);
    assert forall|i: int| 0 <= i < n - 1 implies !(#[trigger] rs[i] is Write && is_last_of_tid(rs, i)) by {
        assert(rs[n - 1] is Write && rs[n - 1].tid() == tid);
        assert(rs[i] is Write && rs[i].tid() == tid);
    }
    lemma_open_pass_identity(redo(f, rs), rs, n - 1);
    assert(rs[n - 1] is Write);
    assert(is_last_of_tid(rs, n - 1));
    assert(rs.subrange(0, n) =~= rs);
    assert(rs[n - 1].tid() == tid);
    lemma_undo_redo(f, rs, tid, page_size);
    assert(rs.subrange(0, 0) =~= Seq::<WalRecord>::empty());
    assert(rs[0] is Write);
}

} // verus!
