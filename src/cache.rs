use vstd::prelude::*;

use crate::buffer::PageBuffer;
use crate::diff::{copy_range, splice};
use crate::id::PageId;
use crate::manager::CacheManager;
use crate::storage::{StorageApi, StorageError};

verus! {

/// Why a cache access failed.
#[derive(Debug, Clone, Copy, PartialEq, Eq, Structural)]
pub enum CacheError {
    /// The storage under the cache failed.
    Storage(StorageError),
    /// The page is held by the write lock of another transaction.
    PageLocked,
    /// The page is not resident, every frame is in use and each one is held
    /// by a transaction, so nothing can be evicted.
    NoFreeFrame,
}

/// Number of `true` entries in `s`.
pub open spec fn count_true(s: Seq<bool>) -> nat
    decreases s.len(),
{
    if s.len() == 0 {
        0
    } else {
        count_true(s.drop_last()) + if s.last() {
            1nat
        } else {
            0nat
        }
    }
}

proof fn lemma_count_true_zero(s: Seq<bool>)
    ensures
        count_true(s) == 0 <==> forall|i: int| 0 <= i < s.len() ==> !s[i],
    decreases s.len(),
{
    if s.len() > 0 {
        lemma_count_true_zero(s.drop_last());
        if count_true(s) == 0 {
            assert forall|i: int| 0 <= i < s.len() implies !s[i] by {
                if i < s.len() - 1 {
                    assert(s.drop_last()[i] == s[i]);
                }
            }
        }
        if forall|i: int| 0 <= i < s.len() ==> !s[i] {
            assert forall|i: int| 0 <= i < s.drop_last().len() implies !s.drop_last()[i] by {
                assert(s.drop_last()[i] == s[i]);
            }
        }
    }
}

proof fn lemma_count_true_bound(s: Seq<bool>)
    ensures
        count_true(s) <= s.len(),
    decreases s.len(),
{
    if s.len() > 0 {
        lemma_count_true_bound(s.drop_last());
    }
}

proof fn lemma_count_true_prefix(s: Seq<bool>, i: int)
    requires
        0 <= i < s.len(),
    ensures
        count_true(s.subrange(0, i + 1)) == count_true(s.subrange(0, i)) + if s[i] {
            1nat
        } else {
            0nat
        },
{
    assert(s.subrange(0, i + 1).drop_last() =~= s.subrange(0, i));
}

/// A fixed-capacity cache of pages over a storage, with write-back of dirty
/// pages, least-recently-used eviction, and per-page write locks held by
/// transactions.
///
/// The page-to-slot map, the dirty set and the lock owners are vectors
/// indexed by slot rather than a `HashMap`/`HashSet` keyed by `PageId`:
/// with a struct key, vstd's hash-map specifications prove nothing about
/// `insert` or `get`, so no contract could be proved over them. One slot
/// per page makes the map a bijection by construction.
pub struct PageCache<S: StorageApi> {
    storage: S,
    buffer: PageBuffer,
    manager: CacheManager,
    slots: Vec<Option<PageId>>,
    dirty: Vec<bool>,
    owner: Vec<Option<u64>>,
}

impl<S: StorageApi> PageCache<S> {
    pub closed spec fn wf(&self) -> bool {
        let n = self.slots@.len();
        &&& self.buffer.wf()
        &&& self.manager.wf()
        &&& self.buffer.used@.len() == n
        &&& self.manager.stamps@.len() == n
        &&& self.dirty@.len() == n
        &&& self.owner@.len() == n
        &&& self.buffer.page_size == self.storage.spec_page_size()
        &&& forall|i: int| 0 <= i < n ==> (#[trigger] self.buffer.used@[i] <==> self.slots@[i] is Some)
        &&& forall|i: int, j: int|
            0 <= i < n && 0 <= j < n && #[trigger] self.slots@[i] is Some && self.slots@[i]
                == #[trigger] self.slots@[j] ==> i == j
        &&& forall|i: int| 0 <= i < n && #[trigger] self.dirty@[i] ==> self.slots@[i] is Some
        &&& forall|i: int| 0 <= i < n && #[trigger] self.owner@[i] is Some ==> self.slots@[i] is Some
        &&& forall|i: int|
            0 <= i < n && #[trigger] self.slots@[i] is Some && !self.dirty@[i]
                ==> self.buffer.frames@[i]@ == self.storage.stored(self.slots@[i]->0)
    }

    pub closed spec fn capacity(&self) -> nat {
        self.slots@.len()
    }

    pub closed spec fn spec_page_size(&self) -> nat {
        self.buffer.page_size as nat
    }

    /// Slot `i` holds page `id`.
    pub closed spec fn holds(&self, i: int, id: PageId) -> bool {
        0 <= i < self.slots@.len() && self.slots@[i] == Some(id)
    }

    pub closed spec fn resident(&self, id: PageId) -> bool {
        exists|i: int| self.holds(i, id)
    }

    /// The slot that holds `id`, where it is resident.
    pub closed spec fn slot_of(&self, id: PageId) -> int {
        choose|i: int| self.holds(i, id)
    }

    /// The bytes a reader of page `id` sees: its frame where it is resident,
    /// the stored bytes elsewhere.
    pub closed spec fn content(&self, id: PageId) -> Seq<u8> {
        if self.resident(id) {
            self.buffer.frames@[self.slot_of(id)]@
        } else {
            self.storage.stored(id)
        }
    }

    pub closed spec fn is_dirty(&self, id: PageId) -> bool {
        self.resident(id) && self.dirty@[self.slot_of(id)]
    }

    /// The transaction whose write lock holds page `id`, if any.
    pub closed spec fn locked_by(&self, id: PageId) -> Option<u64> {
        if self.resident(id) {
            self.owner@[self.slot_of(id)]
        } else {
            None
        }
    }

    /// The recency stamp of page `id`: a later touch gives a larger stamp.
    pub closed spec fn last_used(&self, id: PageId) -> u64 {
        self.manager.stamps@[self.slot_of(id)]
    }

    pub closed spec fn dirty_count(&self) -> nat {
        count_true(self.dirty@)
    }

    pub closed spec fn storage_view(&self) -> S {
        self.storage
    }

    /// Every frame is in use and held by a transaction's write lock.
    pub closed spec fn all_locked(&self) -> bool {
        forall|i: int| 0 <= i < self.slots@.len() ==> #[trigger] self.owner@[i] is Some
    }

    /// Access by transaction `tid` (or by no transaction) does not wait for
    /// another transaction's write lock.
    pub open spec fn accessible(&self, id: PageId, tid: Option<u64>) -> bool {
        match self.locked_by(id) {
            None => true,
            Some(o) => tid == Some(o),
        }
    }

    proof fn lemma_holds(&self, i: int, id: PageId)
        requires
            self.wf(),
            self.holds(i, id),
        ensures
            self.resident(id),
            self.slot_of(id) == i,
    {
        let j = self.slot_of(id);
        assert(self.holds(j, id));
        assert(self.slots@[i] is Some && self.slots@[i] == self.slots@[j]);
    }

    /// The frames of resident pages are in one-to-one correspondence with
    /// allocated slots below the capacity, and a dirty page is resident.
    pub proof fn lemma_cache_invariants(&self, p: PageId, q: PageId)
        requires
            self.wf(),
        ensures
            self.resident(p) ==> 0 <= self.slot_of(p) < self.capacity() && self.holds(self.slot_of(p), p),
            self.resident(p) && self.resident(q) && self.slot_of(p) == self.slot_of(q) ==> p == q,
            self.is_dirty(p) ==> self.resident(p),
            self.locked_by(p) is Some ==> self.resident(p),
    {
        if self.resident(p) {
            let i = self.slot_of(p);
            assert(self.holds(i, p));
        }
        if self.resident(p) && self.resident(q) && self.slot_of(p) == self.slot_of(q) {
            let i = self.slot_of(p);
            assert(self.holds(i, p));
            let j = self.slot_of(q);
            assert(self.holds(j, q));
        }
    }

    /// A page held by a transaction's write lock before an operation that
    /// keeps every lock, as reads, writes and flushes of the cache do, is
    /// still resident afterwards: eviction never picks it.
    pub proof fn lemma_locked_not_evicted(before: Self, after: Self, p: PageId)
        requires
            before.wf(),
            after.wf(),
            before.locked_by(p) is Some,
            after.locked_by(p) == before.locked_by(p),
        ensures
            after.resident(p),
    {
    }

    fn find_slot(&self, id: PageId) -> (r: Option<usize>)
        requires
            self.wf(),
        ensures
            r matches Some(i) ==> self.holds(i as int, id),
            r is None ==> !self.resident(id),
    {
        let mut i: usize = 0;
        while i < self.slots.len()
            invariant
                i <= self.slots@.len(),
                forall|k: int| 0 <= k < i ==> !self.holds(k, id),
            decreases self.slots@.len() - i,
        {
            if self.slots[i] == Some(id) {
                return Some(i);
            }
            i = i + 1;
        }
        None
    }

    /// Page `p` is an eviction victim the policy allows in this state: it is
    /// not locked, and no unlocked resident page was used less recently.
    pub open spec fn lru_victim(a: Self, p: PageId) -> bool {
        &&& a.locked_by(p) is None
        &&& forall|q: PageId|
            a.resident(q) && a.locked_by(q) is None ==> a.last_used(p) <= #[trigger] a.last_used(q)
    }

    /// What an access to `id` keeps, going from state `a` to state `b`: the
    /// storage's abilities; every resident page's slot; the dirty state of
    /// each page that stays; at most one eviction, only when `id` was not
    /// resident, and only of a page the policy allows; stored bytes changed
    /// only for a dirty page the policy allows to be evicted for `id`.
    pub open spec fn access_frame(a: Self, b: Self, id: PageId) -> bool {
        &&& b.storage_view().infallible() == a.storage_view().infallible()
        &&& b.storage_view().segments() == a.storage_view().segments()
        &&& forall|p: PageId| #[trigger] b.resident(p) ==> a.resident(p) || p == id
        &&& forall|p: PageId| a.resident(p) && #[trigger] b.resident(p) ==> b.slot_of(p) == a.slot_of(p)
        &&& forall|p: PageId| a.is_dirty(p) && #[trigger] b.resident(p) ==> b.is_dirty(p)
        &&& forall|p: PageId|
            a.resident(p) && !#[trigger] b.resident(p) ==> Self::lru_victim(a, p) && p != id && !a.resident(id)
        &&& forall|p: PageId, q: PageId|
            a.resident(p) && !#[trigger] b.resident(p) && a.resident(q) && !#[trigger] b.resident(q) ==> p == q
        &&& forall|p: PageId|
            #[trigger] b.storage_view().stored(p) == a.storage_view().stored(p) || (a.is_dirty(p)
                && Self::lru_victim(a, p) && !a.resident(id))
        &&& a.resident(id) ==> b.storage_view() == a.storage_view()
    }

    proof fn lemma_slot_change(a: Self, b: Self, k: int, id: PageId)
        requires
            a.wf(),
            b.wf(),
            b.slots@.len() == a.slots@.len(),
            0 <= k < a.slots@.len(),
            forall|i: int| 0 <= i < a.slots@.len() && i != k ==> b.slots@[i] == a.slots@[i],
            b.slots@[k] is None || (b.slots@[k] == Some(id) && (a.slots@[k] == Some(id) || !a.resident(id))),
            forall|i: int| 0 <= i < a.slots@.len() && i != k && a.dirty@[i] ==> b.dirty@[i],
            a.slots@[k] == Some(id) ==> (a.dirty@[k] ==> b.dirty@[k]),
        ensures
            forall|p: PageId| #[trigger] b.resident(p) ==> a.resident(p) || p == id,
            forall|p: PageId| a.resident(p) && #[trigger] b.resident(p) ==> b.slot_of(p) == a.slot_of(p),
            forall|p: PageId| a.is_dirty(p) && #[trigger] b.resident(p) ==> b.is_dirty(p),
            forall|p: PageId| a.resident(p) && !#[trigger] b.resident(p) ==> a.slots@[k] == Some(p),
    {
        assert forall|p: PageId| #[trigger] b.resident(p) implies a.resident(p) || p == id by {
            let j = b.slot_of(p);
            assert(b.holds(j, p));
            if j != k {
                assert(a.holds(j, p));
            }
        }
        assert forall|p: PageId| a.resident(p) && #[trigger] b.resident(p) implies b.slot_of(p) == a.slot_of(p)
            && (a.is_dirty(p) ==> b.is_dirty(p)) by {
            let i = a.slot_of(p);
            assert(a.holds(i, p));
            let j = b.slot_of(p);
            assert(b.holds(j, p));
            if j != k {
                assert(a.holds(j, p));
                a.lemma_holds(j, p);
            } else {
                assert(p == id);
                assert(a.slots@[k] == Some(id));
                a.lemma_holds(k, id);
            }
        }
        assert forall|p: PageId| a.resident(p) && !#[trigger] b.resident(p) implies a.slots@[k] == Some(p) by {
            let i = a.slot_of(p);
            assert(a.holds(i, p));
            if i != k {
                assert(b.holds(i, p));
            }
        }
    }

    proof fn lemma_same_slots(a: Self, b: Self)
        requires
            a.wf(),
            b.slots@ == a.slots@,
        ensures
            forall|p: PageId| #[trigger] b.resident(p) == a.resident(p),
            forall|p: PageId| a.resident(p) ==> #[trigger] b.slot_of(p) == a.slot_of(p),
    {
        assert forall|p: PageId| #[trigger] b.resident(p) == a.resident(p) by {
            if a.resident(p) {
                let i = a.slot_of(p);
                assert(a.holds(i, p));
                assert(b.holds(i, p));
            }
            if b.resident(p) {
                let i = b.slot_of(p);
                assert(b.holds(i, p));
                assert(a.holds(i, p));
            }
        }
        assert forall|p: PageId| a.resident(p) implies #[trigger] b.slot_of(p) == a.slot_of(p) by {
            let i = a.slot_of(p);
            assert(a.holds(i, p));
            assert(b.holds(i, p));
            let j = b.slot_of(p);
            assert(b.holds(j, p));
            assert(a.holds(j, p));
            a.lemma_holds(j, p);
        }
    }

    /// Only slot `s`, which holds `id`, changed its frame or its lock owner.
    proof fn lemma_one_slot_changed(a: Self, b: Self, s: int, id: PageId)
        requires
            a.wf(),
            b.wf(),
            a.holds(s, id),
            b.slots@ == a.slots@,
            b.dirty@ == a.dirty@,
            b.buffer.frames@.len() == a.buffer.frames@.len(),
            b.owner@.len() == a.owner@.len(),
            forall|i: int| 0 <= i < a.slots@.len() && i != s ==> b.buffer.frames@[i] == a.buffer.frames@[i],
            forall|i: int| 0 <= i < a.slots@.len() && i != s ==> b.owner@[i] == a.owner@[i],
            forall|p: PageId| #[trigger] b.storage.stored(p) == a.storage.stored(p),
        ensures
            b.holds(s, id),
            b.resident(id),
            b.slot_of(id) == s,
            forall|p: PageId| #[trigger] b.resident(p) == a.resident(p),
            forall|p: PageId| #[trigger] b.is_dirty(p) == a.is_dirty(p),
            forall|p: PageId| p != id ==> #[trigger] b.content(p) == a.content(p),
            forall|p: PageId| p != id ==> #[trigger] b.locked_by(p) == a.locked_by(p),
    {
        Self::lemma_same_slots(a, b);
        a.lemma_holds(s, id);
        assert(b.holds(s, id));
        b.lemma_holds(s, id);
        assert forall|p: PageId| p != id && #[trigger] a.resident(p) implies a.slot_of(p) != s by {
            let i = a.slot_of(p);
            assert(a.holds(i, p));
        }
    }

    /// Writes the frame in `slot` back if it is dirty, then frees the slot.
    fn evict(&mut self, v: usize) -> (r: Result<(), CacheError>)
        requires
            old(self).wf(),
            v < old(self).slots@.len(),
            old(self).slots@[v as int] is Some,
            old(self).owner@[v as int] is None,
        ensures
            final(self).wf(),
            final(self).capacity() == old(self).capacity(),
            final(self).spec_page_size() == old(self).spec_page_size(),
            forall|p: PageId| #[trigger] final(self).content(p) == old(self).content(p),
            forall|p: PageId| #[trigger] final(self).locked_by(p) == old(self).locked_by(p),
            forall|p: PageId| #[trigger] final(self).is_dirty(p) ==> old(self).is_dirty(p),
            forall|p: PageId|
                !old(self).is_dirty(p) ==> #[trigger] final(self).storage.stored(p) == old(self).storage.stored(p),
            forall|p: PageId| #[trigger] final(self).resident(p) ==> old(self).resident(p),
            r is Ok ==> !final(self).buffer.used@[v as int],
            r matches Err(e) ==> e is Storage,
            final(self).storage.infallible() == old(self).storage.infallible(),
            final(self).storage.segments() == old(self).storage.segments(),
            final(self).owner == old(self).owner,
            final(self).manager == old(self).manager,
            final(self).buffer.frames == old(self).buffer.frames,
            old(self).storage.infallible() ==> r is Ok,
            forall|p: PageId|
                old(self).slots@[v as int] != Some(p) ==> #[trigger] final(self).storage.stored(p) == old(self).storage.stored(p),
            r is Ok ==> final(self).slots@ == old(self).slots@.update(v as int, None) && final(self).dirty@
                == old(self).dirty@.update(v as int, false),
            r is Err ==> final(self).slots == old(self).slots && final(self).dirty == old(self).dirty,
    {
        let ghost pre = *self;
        let victim = self.slots[v].unwrap();
        proof {
            pre.lemma_holds(v as int, victim);
        }
        if self.dirty[v] {
            let res = self.storage.write_page(self.buffer.frame(v).as_slice(), victim);
            if let Err(e) = res {
                proof {
                    Self::lemma_same_slots(pre, *self);
                }
                return Err(CacheError::Storage(e));
            }
            self.dirty[v] = false;
        }
        let ghost mid = *self;
        self.slots[v] = None;
        self.buffer.free_page(v);
        proof {
            assert forall|p: PageId| #[trigger] self.content(p) == pre.content(p) by {
                if pre.resident(p) {
                    let i = pre.slot_of(p);
                    assert(pre.holds(i, p));
                    if i != v {
                        self.lemma_holds(i, p);
                    } else {
                        assert(p == victim);
                        if self.resident(p) {
                            let j = self.slot_of(p);
                            assert(self.holds(j, p));
                            assert(pre.holds(j, p));
                        }
                    }
                } else {
                    if self.resident(p) {
                        let j = self.slot_of(p);
                        assert(self.holds(j, p));
                        assert(pre.holds(j, p));
                    }
                }
            }
            assert forall|p: PageId| #[trigger] self.locked_by(p) == pre.locked_by(p) by {
                if pre.resident(p) {
                    let i = pre.slot_of(p);
                    assert(pre.holds(i, p));
                    if i != v {
                        self.lemma_holds(i, p);
                    } else if self.resident(p) {
                        let j = self.slot_of(p);
                        assert(self.holds(j, p));
                        assert(pre.holds(j, p));
                    }
                } else if self.resident(p) {
                    let j = self.slot_of(p);
                    assert(self.holds(j, p));
                    assert(pre.holds(j, p));
                }
            }
            assert forall|p: PageId| #[trigger] self.is_dirty(p) implies pre.is_dirty(p) by {
                let j = self.slot_of(p);
                assert(self.holds(j, p));
                assert(pre.holds(j, p));
                pre.lemma_holds(j, p);
            }
            assert forall|p: PageId| #[trigger] self.resident(p) implies pre.resident(p) by {
                let j = self.slot_of(p);
                assert(self.holds(j, p));
                assert(pre.holds(j, p));
            }
        }
        Ok(())
    }

    /// Loads page `id` from storage into the first free frame.
    fn load(&mut self, id: PageId, mark_dirty: bool) -> (r: Result<usize, CacheError>)
        requires
            old(self).wf(),
            !old(self).resident(id),
            exists|i: int| 0 <= i < old(self).slots@.len() && !old(self).buffer.used@[i],
        ensures
            final(self).wf(),
            final(self).capacity() == old(self).capacity(),
            final(self).spec_page_size() == old(self).spec_page_size(),
            forall|p: PageId| #[trigger] final(self).content(p) == old(self).content(p),
            forall|p: PageId| #[trigger] final(self).locked_by(p) == old(self).locked_by(p),
            forall|p: PageId|
                #[trigger] final(self).is_dirty(p) ==> old(self).is_dirty(p) || (p == id && mark_dirty),
            forall|p: PageId| #[trigger] final(self).storage.stored(p) == old(self).storage.stored(p),
            r matches Ok(s) ==> final(self).holds(s as int, id) && final(self).is_dirty(id) == mark_dirty,
            r matches Err(e) ==> e is Storage,
            final(self).storage.infallible() == old(self).storage.infallible(),
            final(self).storage.segments() == old(self).storage.segments(),
            final(self).owner == old(self).owner,
            old(self).storage.infallible() ==> r is Ok,
            r matches Ok(s) ==> !old(self).buffer.used@[s as int] && (forall|i: int|
                0 <= i < s ==> old(self).buffer.used@[i]) && final(self).slots@ == old(self).slots@.update(
                s as int,
                Some(id),
            ) && final(self).dirty@ == old(self).dirty@.update(s as int, mark_dirty)
                && final(self).manager.stamps@ == old(self).manager.stamps@.update(s as int, final(self).manager.clock)
                && final(self).manager.clock >= old(self).manager.clock,
            r is Err ==> final(self).slots == old(self).slots && final(self).dirty == old(self).dirty
                && final(self).manager == old(self).manager,
    {
        let ghost pre = *self;
        let s = match self.buffer.allocate_page() {
            Some(s) => s,
            None => {
                proof {
                    let i = choose|i: int| 0 <= i < pre.slots@.len() && !pre.buffer.used@[i];
                    assert(pre.buffer.used@[i]);
                }
                return Err(CacheError::NoFreeFrame);
            },
        };
        let mut buf: Vec<u8> = vec![0u8; self.buffer.page_size];
        let res = self.storage.read_page(&mut buf, id);
        if let Err(e) = res {
            self.buffer.free_page(s);
            proof {
                assert(self.buffer.used@ =~= pre.buffer.used@);
                Self::lemma_same_slots(pre, *self);
            }
            return Err(CacheError::Storage(e));
        }
        self.buffer.set_frame(s, buf);
        self.slots.set(s, Some(id));
        self.dirty.set(s, mark_dirty);
        let ghost stamps0 = self.manager.stamps@;
        self.manager.access(s);
        assert(self.manager.stamps@ =~= stamps0.update(s as int, self.manager.clock));
        proof {
            let n = self.slots@.len();
            assert(!(pre.owner@[s as int] is Some));
            assert(!pre.dirty@[s as int]);
            assert forall|i: int, j: int|
                0 <= i < n && 0 <= j < n && #[trigger] self.slots@[i] is Some && self.slots@[i]
                    == #[trigger] self.slots@[j] implies i == j by {
                if i != j {
                    if i == s {
                        assert(pre.holds(j, id));
                    } else if j == s {
                        assert(pre.holds(i, id));
                    } else {
                        assert(pre.slots@[i] is Some && pre.slots@[i] == pre.slots@[j]);
                    }
                }
            }
            assert forall|i: int|
                0 <= i < n && #[trigger] self.slots@[i] is Some && !self.dirty@[i]
                    implies self.buffer.frames@[i]@ == self.storage.stored(self.slots@[i]->0) by {
                if i != s {
                    assert(pre.slots@[i] is Some);
                }
            }
            assert forall|i: int| 0 <= i < n implies (#[trigger] self.buffer.used@[i] <==> self.slots@[i] is Some) by {
                if i != s {
                    assert(pre.buffer.used@[i] <==> pre.slots@[i] is Some);
                }
            }
            assert forall|i: int| 0 <= i < n && #[trigger] self.dirty@[i] implies self.slots@[i] is Some by {
                if i != s {
                    assert(pre.dirty@[i]);
                }
            }
            assert forall|i: int| 0 <= i < n && #[trigger] self.owner@[i] is Some implies self.slots@[i] is Some by {
                assert(pre.owner@[i] is Some);
            }
            assert(self.wf());
            assert(self.holds(s as int, id));
            self.lemma_holds(s as int, id);
            assert forall|p: PageId| p != id implies #[trigger] self.resident(p) == pre.resident(p) && (pre.resident(p) ==> self.slot_of(p) == pre.slot_of(p)) by {
                if pre.resident(p) {
                    let i = pre.slot_of(p);
                    assert(pre.holds(i, p));
                    assert(self.holds(i, p));
                    self.lemma_holds(i, p);
                }
                if self.resident(p) {
                    let i = self.slot_of(p);
                    assert(self.holds(i, p));
                    assert(pre.holds(i, p));
                }
            }
            assert forall|p: PageId| #[trigger] self.content(p) == pre.content(p) by {
                if p != id && pre.resident(p) {
                    let i = pre.slot_of(p);
                    assert(pre.holds(i, p));
                }
            }
            assert forall|p: PageId| #[trigger] self.locked_by(p) == pre.locked_by(p) by {
                if p != id && pre.resident(p) {
                    let i = pre.slot_of(p);
                    assert(pre.holds(i, p));
                }
            }
            assert forall|p: PageId| #[trigger] self.is_dirty(p) implies pre.is_dirty(p) || (p == id && mark_dirty) by {
                if p != id {
                    let i = pre.slot_of(p);
                    assert(pre.holds(i, p));
                }
            }
        }
        Ok(s)
    }

    /// Resolves `id` to the slot that holds it, loading it and evicting the
    /// least recently used unlocked page where needed.
    fn access(&mut self, id: PageId, tid: Option<u64>, mark_dirty: bool) -> (r: Result<usize, CacheError>)
        requires
            old(self).wf(),
        ensures
            final(self).wf(),
            final(self).capacity() == old(self).capacity(),
            final(self).spec_page_size() == old(self).spec_page_size(),
            forall|p: PageId| #[trigger] final(self).content(p) == old(self).content(p),
            forall|p: PageId| #[trigger] final(self).locked_by(p) == old(self).locked_by(p),
            forall|p: PageId|
                #[trigger] final(self).is_dirty(p) ==> old(self).is_dirty(p) || (p == id && mark_dirty),
            forall|p: PageId|
                !old(self).is_dirty(p) ==> #[trigger] final(self).storage.stored(p) == old(self).storage.stored(p),
            Self::access_frame(*old(self), *final(self), id),
            final(self).owner == old(self).owner,
            r matches Ok(s) ==> final(self).holds(s as int, id) && (mark_dirty ==> final(self).is_dirty(id))
                && forall|q: PageId| final(self).resident(q) ==> #[trigger] final(self).last_used(q) <= final(self).last_used(id),
            (r == Err::<usize, CacheError>(CacheError::PageLocked)) <==> !old(self).accessible(id, tid),
            (r == Err::<usize, CacheError>(CacheError::NoFreeFrame)) <==> (!old(self).resident(id)
                && old(self).all_locked()),
            old(self).resident(id) && old(self).accessible(id, tid) ==> r is Ok,
            old(self).storage.infallible() && old(self).accessible(id, tid) && !(!old(self).resident(id)
                && old(self).all_locked()) ==> r is Ok,
    {
        let ghost pre = *self;
        match self.find_slot(id) {
            Some(i) => {
                proof {
                    self.lemma_holds(i as int, id);
                }
                if let Some(o) = self.owner[i] {
                    let mine = match tid {
                        Some(t) => t == o,
                        None => false,
                    };
                    if !mine {
                        proof {
                            Self::lemma_same_slots(pre, *self);
                        }
                        return Err(CacheError::PageLocked);
                    }
                }
                self.manager.access(i);
                if mark_dirty {
                    self.dirty.set(i, true);
                }
                proof {
                    Self::lemma_same_slots(pre, *self);
                    self.lemma_holds(i as int, id);
                    Self::lemma_slot_change(pre, *self, i as int, id);
                    assert forall|q: PageId| self.resident(q) implies #[trigger] self.last_used(q) <= self.last_used(id) by {
                        let j = self.slot_of(q);
                        assert(self.holds(j, q));
                    }
                }
                Ok(i)
            },
            None => {
                let ghost mut evicted: bool = false;
                let ghost mut vs: int = 0;
                if !self.buffer.has_space() {
                    let mut eligible: Vec<bool> = Vec::new();
                    let mut k: usize = 0;
                    while k < self.owner.len()
                        invariant
                            self.wf(),
                            *self == pre,
                            k <= self.owner@.len(),
                            eligible@.len() == k,
                            forall|j: int| 0 <= j < k ==> #[trigger] eligible@[j] == (self.owner@[j] is None),
                        decreases self.owner@.len() - k,
                    {
                        eligible.push(self.owner[k].is_none());
                        k = k + 1;
                    }
                    match self.manager.reclaim(&eligible) {
                        None => {
                            assert forall|i: int| 0 <= i < self.slots@.len() implies #[trigger] self.owner@[i] is Some by {
                                assert(!eligible@[i]);
                            }
                            proof {
                                Self::lemma_same_slots(pre, *self);
                            }
                            return Err(CacheError::NoFreeFrame);
                        },
                        Some(v) => {
                            assert(self.buffer.used@[v as int]);
                            let victim = self.slots[v].unwrap();
                            proof {
                                pre.lemma_holds(v as int, victim);
                                assert forall|q: PageId| pre.resident(q) && pre.locked_by(q) is None implies pre.last_used(
                                    victim,
                                ) <= #[trigger] pre.last_used(q) by {
                                    let j = pre.slot_of(q);
                                    assert(pre.holds(j, q));
                                    assert(eligible@[j]);
                                }
                                assert(Self::lru_victim(pre, victim));
                                evicted = true;
                                vs = v as int;
                            }
                            let ev = self.evict(v);
                            if let Err(e) = ev {
                                proof {
                                    Self::lemma_same_slots(pre, *self);
                                    assert forall|p: PageId|
                                        #[trigger] self.storage_view().stored(p) == pre.storage_view().stored(p) || (
                                        pre.is_dirty(p) && Self::lru_victim(pre, p) && !pre.resident(id)) by {
                                        if p == victim {
                                        }
                                    }
                                }
                                return Err(e);
                            }
                        },
                    }
                } else {
                    proof {
                        let j = choose|j: int| 0 <= j < pre.buffer.used@.len() && !pre.buffer.used@[j];
                        assert(pre.owner@[j] is None);
                    }
                }
                let ghost mid = *self;
                let res = self.load(id, mark_dirty);
                proof {
                    if evicted {
                        let victim = pre.slots@[vs]->0;
                        if let Ok(s) = res {
                            if s as int != vs {
                                assert(pre.buffer.used@[s as int]);
                            }
                            assert(self.slots@ =~= pre.slots@.update(vs, Some(id)));
                        } else {
                            assert(self.slots@ =~= pre.slots@.update(vs, None));
                        }
                        Self::lemma_slot_change(pre, *self, vs, id);
                        assert forall|p: PageId|
                            #[trigger] self.storage_view().stored(p) == pre.storage_view().stored(p) || (pre.is_dirty(p)
                                && Self::lru_victim(pre, p) && !pre.resident(id)) by {
                            if p == victim {
                            }
                        }
                    } else {
                        if let Ok(s) = res {
                            Self::lemma_slot_change(pre, *self, s as int, id);
                            assert forall|p: PageId| pre.resident(p) implies #[trigger] self.resident(p) by {
                                let i = pre.slot_of(p);
                                assert(pre.holds(i, p));
                                if i == s {
                                    assert(pre.buffer.used@[s as int]);
                                }
                                assert(self.holds(i, p));
                            }
                        } else {
                            Self::lemma_same_slots(pre, *self);
                        }
                    }
                    if let Ok(s) = res {
                        self.lemma_holds(s as int, id);
                        assert forall|q: PageId| self.resident(q) implies #[trigger] self.last_used(q) <= self.last_used(id) by {
                            let j = self.slot_of(q);
                            assert(self.holds(j, q));
                        }
                    }
                }
                res
            },
        }
    }

    /// A copy of page `id`, for a reader outside any transaction.
    pub fn read_page(&mut self, id: PageId) -> (r: Result<Vec<u8>, CacheError>)
        requires
            old(self).wf(),
        ensures
            final(self).wf(),
            final(self).capacity() == old(self).capacity(),
            final(self).spec_page_size() == old(self).spec_page_size(),
            forall|p: PageId| #[trigger] final(self).content(p) == old(self).content(p),
            forall|p: PageId| #[trigger] final(self).locked_by(p) == old(self).locked_by(p),
            forall|p: PageId| #[trigger] final(self).is_dirty(p) ==> old(self).is_dirty(p),
            forall|p: PageId|
                !old(self).is_dirty(p) ==> #[trigger] final(self).storage_view().stored(p)
                    == old(self).storage_view().stored(p),
            r matches Ok(b) ==> b@ == old(self).content(id) && b@.len() == old(self).spec_page_size(),
            (r == Err::<Vec<u8>, CacheError>(CacheError::PageLocked)) <==> old(self).locked_by(id) is Some,
            (r == Err::<Vec<u8>, CacheError>(CacheError::NoFreeFrame)) <==> (!old(self).resident(id)
                && old(self).all_locked()),
            old(self).resident(id) && old(self).locked_by(id) is None ==> r is Ok,
            Self::access_frame(*old(self), *final(self), id),
            old(self).storage_view().infallible() && old(self).accessible(id, None) && !(!old(self).resident(id)
                && old(self).all_locked()) ==> r is Ok,
            r is Ok ==> final(self).resident(id) && forall|q: PageId|
                final(self).resident(q) ==> #[trigger] final(self).last_used(q) <= final(self).last_used(id),
    {
        self.read_as(id, None)
    }

    /// A copy of page `id`, for transaction `tid`: it sees its own writes.
    pub fn read_locked(&mut self, tid: u64, id: PageId) -> (r: Result<Vec<u8>, CacheError>)
        requires
            old(self).wf(),
        ensures
            final(self).wf(),
            final(self).capacity() == old(self).capacity(),
            final(self).spec_page_size() == old(self).spec_page_size(),
            forall|p: PageId| #[trigger] final(self).content(p) == old(self).content(p),
            forall|p: PageId| #[trigger] final(self).locked_by(p) == old(self).locked_by(p),
            forall|p: PageId| #[trigger] final(self).is_dirty(p) ==> old(self).is_dirty(p),
            forall|p: PageId|
                !old(self).is_dirty(p) ==> #[trigger] final(self).storage_view().stored(p)
                    == old(self).storage_view().stored(p),
            r matches Ok(b) ==> b@ == old(self).content(id) && b@.len() == old(self).spec_page_size() && final(self).resident(id),
            (r == Err::<Vec<u8>, CacheError>(CacheError::PageLocked)) <==> !old(self).accessible(id, Some(tid)),
            (r == Err::<Vec<u8>, CacheError>(CacheError::NoFreeFrame)) <==> (!old(self).resident(id)
                && old(self).all_locked()),
            old(self).resident(id) && old(self).accessible(id, Some(tid)) ==> r is Ok,
            Self::access_frame(*old(self), *final(self), id),
            old(self).storage_view().infallible() && old(self).accessible(id, Some(tid)) && !(!old(self).resident(id)
                && old(self).all_locked()) ==> r is Ok,
            r is Ok ==> final(self).resident(id) && forall|q: PageId|
                final(self).resident(q) ==> #[trigger] final(self).last_used(q) <= final(self).last_used(id),
    {
        self.read_as(id, Some(tid))
    }

    fn read_as(&mut self, id: PageId, tid: Option<u64>) -> (r: Result<Vec<u8>, CacheError>)
        requires
            old(self).wf(),
        ensures
            final(self).wf(),
            final(self).capacity() == old(self).capacity(),
            final(self).spec_page_size() == old(self).spec_page_size(),
            forall|p: PageId| #[trigger] final(self).content(p) == old(self).content(p),
            forall|p: PageId| #[trigger] final(self).locked_by(p) == old(self).locked_by(p),
            forall|p: PageId| #[trigger] final(self).is_dirty(p) ==> old(self).is_dirty(p),
            forall|p: PageId|
                !old(self).is_dirty(p) ==> #[trigger] final(self).storage_view().stored(p)
                    == old(self).storage_view().stored(p),
            r matches Ok(b) ==> b@ == old(self).content(id) && b@.len() == old(self).spec_page_size() && final(self).resident(id),
            (r == Err::<Vec<u8>, CacheError>(CacheError::PageLocked)) <==> !old(self).accessible(id, tid),
            (r == Err::<Vec<u8>, CacheError>(CacheError::NoFreeFrame)) <==> (!old(self).resident(id)
                && old(self).all_locked()),
            old(self).resident(id) && old(self).accessible(id, tid) ==> r is Ok,
            Self::access_frame(*old(self), *final(self), id),
            old(self).storage_view().infallible() && old(self).accessible(id, tid) && !(!old(self).resident(id)
                && old(self).all_locked()) ==> r is Ok,
            r is Ok ==> final(self).resident(id) && forall|q: PageId|
                final(self).resident(q) ==> #[trigger] final(self).last_used(q) <= final(self).last_used(id),
    {
        let s = match self.access(id, tid, false) {
            Ok(s) => s,
            Err(e) => {
                return Err(e);
            },
        };
        proof {
            self.lemma_holds(s as int, id);
        }
        let frame = self.buffer.frame(s);
        let b = copy_range(frame.as_slice(), 0, frame.len());
        assert(b@ =~= self.content(id));
        Ok(b)
    }

    fn write_as(&mut self, id: PageId, tid: Option<u64>, start: usize, data: &[u8]) -> (r: Result<usize, CacheError>)
        requires
            old(self).wf(),
            start + data@.len() <= old(self).spec_page_size(),
        ensures
            final(self).wf(),
            final(self).capacity() == old(self).capacity(),
            final(self).spec_page_size() == old(self).spec_page_size(),
            forall|p: PageId| p != id ==> #[trigger] final(self).content(p) == old(self).content(p),
            forall|p: PageId| #[trigger] final(self).locked_by(p) == old(self).locked_by(p),
            forall|p: PageId| #[trigger] final(self).is_dirty(p) ==> old(self).is_dirty(p) || p == id,
            forall|p: PageId|
                !old(self).is_dirty(p) ==> #[trigger] final(self).storage_view().stored(p)
                    == old(self).storage_view().stored(p),
            r matches Ok(s) ==> final(self).holds(s as int, id) && final(self).is_dirty(id)
                && final(self).content(id) == splice(old(self).content(id), start as int, data@)
                && final(self).content(id).len() == final(self).spec_page_size(),
            r is Err ==> final(self).content(id) == old(self).content(id),
            (r == Err::<usize, CacheError>(CacheError::PageLocked)) <==> !old(self).accessible(id, tid),
            (r == Err::<usize, CacheError>(CacheError::NoFreeFrame)) <==> (!old(self).resident(id)
                && old(self).all_locked()),
            old(self).resident(id) && old(self).accessible(id, tid) ==> r is Ok,
            Self::access_frame(*old(self), *final(self), id),
            old(self).storage_view().infallible() && old(self).accessible(id, tid) && !(!old(self).resident(id)
                && old(self).all_locked()) ==> r is Ok,
            r is Ok ==> final(self).resident(id) && forall|q: PageId|
                final(self).resident(q) ==> #[trigger] final(self).last_used(q) <= final(self).last_used(id),
            final(self).all_locked() == old(self).all_locked(),
    {
        let s = match self.access(id, tid, true) {
            Ok(s) => s,
            Err(e) => {
                return Err(e);
            },
        };
        let ghost mid = *self;
        proof {
            mid.lemma_holds(s as int, id);
        }
        self.buffer.write_bytes(s, start, data);
        proof {
            Self::lemma_one_slot_changed(mid, *self, s as int, id);
            Self::lemma_same_slots(mid, *self);
            assert forall|q: PageId| self.resident(q) implies #[trigger] self.last_used(q) <= self.last_used(id) by {
                assert(mid.resident(q));
                assert(mid.last_used(q) <= mid.last_used(id));
            }
            assert(self.content(id) == splice(mid.content(id), start as int, data@));
            assert(self.is_dirty(id));
        }
        Ok(s)
    }

    /// Writes `data` into page `id` from byte `start` on, outside any
    /// transaction, and marks the page dirty.
    pub fn write_page(&mut self, id: PageId, start: usize, data: &[u8]) -> (r: Result<(), CacheError>)
        requires
            old(self).wf(),
            start + data@.len() <= old(self).spec_page_size(),
        ensures
            final(self).wf(),
            final(self).capacity() == old(self).capacity(),
            final(self).spec_page_size() == old(self).spec_page_size(),
            forall|p: PageId| p != id ==> #[trigger] final(self).content(p) == old(self).content(p),
            forall|p: PageId| #[trigger] final(self).locked_by(p) == old(self).locked_by(p),
            forall|p: PageId| #[trigger] final(self).is_dirty(p) ==> old(self).is_dirty(p) || p == id,
            forall|p: PageId|
                !old(self).is_dirty(p) ==> #[trigger] final(self).storage_view().stored(p)
                    == old(self).storage_view().stored(p),
            r is Ok ==> final(self).is_dirty(id) && final(self).content(id) == splice(
                old(self).content(id),
                start as int,
                data@,
            ),
            r is Err ==> final(self).content(id) == old(self).content(id),
            (r == Err::<(), CacheError>(CacheError::PageLocked)) <==> old(self).locked_by(id) is Some,
            (r == Err::<(), CacheError>(CacheError::NoFreeFrame)) <==> (!old(self).resident(id)
                && old(self).all_locked()),
            old(self).resident(id) && old(self).locked_by(id) is None ==> r is Ok,
            Self::access_frame(*old(self), *final(self), id),
            old(self).storage_view().infallible() && old(self).accessible(id, None) && !(!old(self).resident(id)
                && old(self).all_locked()) ==> r is Ok,
            r is Ok ==> final(self).resident(id) && forall|q: PageId|
                final(self).resident(q) ==> #[trigger] final(self).last_used(q) <= final(self).last_used(id),
            final(self).all_locked() == old(self).all_locked(),
    {
        match self.write_as(id, None, start, data) {
            Ok(_) => Ok(()),
            Err(e) => Err(e),
        }
    }

    /// Writes `data` into page `id` from byte `start` on for transaction
    /// `tid`, marks the page dirty and holds it under `tid`'s write lock, which
    /// keeps it resident until `unlock_all(tid)`.
    pub fn write_locked(&mut self, tid: u64, id: PageId, start: usize, data: &[u8]) -> (r: Result<(), CacheError>)
        requires
            old(self).wf(),
            start + data@.len() <= old(self).spec_page_size(),
        ensures
            final(self).wf(),
            final(self).capacity() == old(self).capacity(),
            final(self).spec_page_size() == old(self).spec_page_size(),
            forall|p: PageId| p != id ==> #[trigger] final(self).content(p) == old(self).content(p),
            forall|p: PageId| p != id ==> #[trigger] final(self).locked_by(p) == old(self).locked_by(p),
            forall|p: PageId| #[trigger] final(self).is_dirty(p) ==> old(self).is_dirty(p) || p == id,
            forall|p: PageId|
                !old(self).is_dirty(p) ==> #[trigger] final(self).storage_view().stored(p)
                    == old(self).storage_view().stored(p),
            r is Ok ==> final(self).is_dirty(id) && final(self).locked_by(id) == Some(tid)
                && final(self).content(id) == splice(old(self).content(id), start as int, data@)
                && final(self).content(id).len() == final(self).spec_page_size(),
            r is Err ==> final(self).content(id) == old(self).content(id) && final(self).locked_by(id)
                == old(self).locked_by(id),
            (r == Err::<(), CacheError>(CacheError::PageLocked)) <==> !old(self).accessible(id, Some(tid)),
            (r == Err::<(), CacheError>(CacheError::NoFreeFrame)) <==> (!old(self).resident(id)
                && old(self).all_locked()),
            old(self).resident(id) && old(self).accessible(id, Some(tid)) ==> r is Ok,
            Self::access_frame(*old(self), *final(self), id),
            old(self).storage_view().infallible() && old(self).accessible(id, Some(tid)) && !(!old(self).resident(id)
                && old(self).all_locked()) ==> r is Ok,
            r is Ok ==> final(self).resident(id) && forall|q: PageId|
                final(self).resident(q) ==> #[trigger] final(self).last_used(q) <= final(self).last_used(id),
    {
        let s = match self.write_as(id, Some(tid), start, data) {
            Ok(s) => s,
            Err(e) => {
                return Err(e);
            },
        };
        let ghost mid = *self;
        self.owner.set(s, Some(tid));
        proof {
            Self::lemma_one_slot_changed(mid, *self, s as int, id);
            Self::lemma_same_slots(mid, *self);
            assert forall|q: PageId| self.resident(q) implies #[trigger] self.last_used(q) <= self.last_used(id) by {
                assert(mid.resident(q));
                assert(mid.last_used(q) <= mid.last_used(id));
            }
            assert(self.storage_view() == mid.storage_view());
        }
        Ok(())
    }

    /// Releases every write lock that transaction `tid` holds.
    pub fn unlock_all(&mut self, tid: u64)
        requires
            old(self).wf(),
        ensures
            final(self).wf(),
            final(self).capacity() == old(self).capacity(),
            final(self).spec_page_size() == old(self).spec_page_size(),
            final(self).storage_view() == old(self).storage_view(),
            final(self).dirty_count() == old(self).dirty_count(),
            forall|p: PageId| #[trigger] final(self).content(p) == old(self).content(p),
            forall|p: PageId| #[trigger] final(self).is_dirty(p) == old(self).is_dirty(p),
            forall|p: PageId| #[trigger] final(self).resident(p) == old(self).resident(p),
            forall|p: PageId|
                #[trigger] final(self).locked_by(p) == if old(self).locked_by(p) == Some(tid) {
                    None
                } else {
                    old(self).locked_by(p)
                },
    {
        let ghost pre = *self;
        let mut i: usize = 0;
        while i < self.owner.len()
            invariant
                self.wf(),
                i <= self.owner@.len(),
                self.slots == pre.slots,
                self.buffer == pre.buffer,
                self.dirty == pre.dirty,
                self.storage == pre.storage,
                self.owner@.len() == pre.owner@.len(),
                forall|k: int| 0 <= k < i ==> #[trigger] self.owner@[k] == if pre.owner@[k] == Some(tid) {
                    None
                } else {
                    pre.owner@[k]
                },
                forall|k: int| i <= k < self.owner@.len() ==> #[trigger] self.owner@[k] == pre.owner@[k],
            decreases self.owner@.len() - i,
        {
            if self.owner[i] == Some(tid) {
                self.owner.set(i, None);
            }
            i = i + 1;
        }
        proof {
            Self::lemma_same_slots(pre, *self);
        }
    }

    /// Writes every dirty page to storage and marks it clean. Where nothing
    /// is dirty, nothing is written.
    pub fn flush(&mut self) -> (r: Result<(), CacheError>)
        requires
            old(self).wf(),
        ensures
            final(self).wf(),
            final(self).capacity() == old(self).capacity(),
            final(self).spec_page_size() == old(self).spec_page_size(),
            forall|p: PageId| #[trigger] final(self).content(p) == old(self).content(p),
            forall|p: PageId| #[trigger] final(self).locked_by(p) == old(self).locked_by(p),
            forall|p: PageId| #[trigger] final(self).resident(p) == old(self).resident(p),
            forall|p: PageId| #[trigger] final(self).is_dirty(p) ==> old(self).is_dirty(p),
            r is Ok ==> final(self).dirty_count() == 0,
            r is Ok ==> forall|p: PageId| #[trigger] final(self).storage_view().stored(p) == old(self).content(p),
            old(self).dirty_count() == 0 ==> *final(self) == *old(self) && r is Ok,
            r matches Err(e) ==> e is Storage,
            final(self).storage_view().infallible() == old(self).storage_view().infallible(),
            final(self).storage_view().segments() == old(self).storage_view().segments(),
            old(self).storage_view().infallible() ==> r is Ok,
            forall|p: PageId|
                old(self).is_dirty(p) ==> #[trigger] final(self).is_dirty(p) || final(self).storage_view().stored(p)
                    == old(self).content(p),
            r is Err ==> exists|p: PageId| old(self).is_dirty(p) && #[trigger] final(self).is_dirty(p),
    {
        let ghost pre = *self;
        proof {
            lemma_count_true_zero(pre.dirty@);
        }
        let mut i: usize = 0;
        while i < self.slots.len()
            invariant
                pre == *old(self),
                pre.wf(),
                self.wf(),
                i <= self.slots@.len(),
                self.slots == pre.slots,
                self.buffer == pre.buffer,
                self.owner == pre.owner,
                self.manager == pre.manager,
                self.dirty@.len() == pre.dirty@.len(),
                forall|k: int| 0 <= k < i ==> !(#[trigger] self.dirty@[k]),
                forall|k: int| i <= k < self.dirty@.len() ==> #[trigger] self.dirty@[k] == pre.dirty@[k],
                forall|p: PageId| !pre.resident(p) ==> #[trigger] self.storage.stored(p) == pre.storage.stored(p),
                pre.dirty_count() == 0 ==> *self == pre,
                self.storage.infallible() == pre.storage.infallible(),
                self.storage.segments() == pre.storage.segments(),
                pre.dirty_count() == 0 <==> forall|k: int| 0 <= k < pre.dirty@.len() ==> !pre.dirty@[k],
            decreases self.slots@.len() - i,
        {
            if self.dirty[i] {
                let ghost before = *self;
                let id = self.slots[i].unwrap();
                proof {
                    before.lemma_holds(i as int, id);
                    pre.lemma_holds(i as int, id);
                }
                let res = self.storage.write_page(self.buffer.frame(i).as_slice(), id);
                proof {
                    assert forall|k: int| 0 <= k < self.slots@.len() && #[trigger] self.slots@[k] is Some && !self.dirty@[k]
                        implies self.buffer.frames@[k]@ == self.storage.stored(self.slots@[k]->0) by {
                        assert(k != i);
                        assert(before.slots@[k] is Some && before.slots@[k] == before.slots@[k]);
                        if self.slots@[k] == Some(id) {
                            assert(before.slots@[k] == before.slots@[i as int]);
                        }
                    }
                    assert forall|p: PageId| !pre.resident(p) implies #[trigger] self.storage.stored(p) == pre.storage.stored(p) by {
                        assert(p != id);
                    }
                }
                if let Err(e) = res {
                    proof {
                        Self::lemma_same_slots(pre, *self);
                        assert forall|p: PageId| #[trigger] self.content(p) == pre.content(p) by {
                        }
                        assert forall|p: PageId| pre.is_dirty(p) implies #[trigger] self.is_dirty(p)
                            || self.storage_view().stored(p) == pre.content(p) by {
                            let k = pre.slot_of(p);
                            assert(pre.holds(k, p));
                        }
                        self.lemma_holds(i as int, id);
                        assert(pre.is_dirty(id) && self.is_dirty(id));
                    }
                    return Err(CacheError::Storage(e));
                }
                self.dirty.set(i, false);
            }
            i = i + 1;
        }
        proof {
            Self::lemma_same_slots(pre, *self);
            assert forall|p: PageId| #[trigger] self.storage.stored(p) == pre.content(p) by {
                if pre.resident(p) {
                    let k = pre.slot_of(p);
                    assert(pre.holds(k, p));
                    assert(self.slots@[k] is Some && !self.dirty@[k]);
                }
            }
            lemma_count_true_zero(self.dirty@);
            assert forall|p: PageId| pre.is_dirty(p) implies #[trigger] self.is_dirty(p)
                || self.storage_view().stored(p) == pre.content(p) by {
            }
        }
        Ok(())
    }

    /// How many pages are dirty.
    pub fn num_dirty(&self) -> (r: usize)
        requires
            self.wf(),
        ensures
            r == self.dirty_count(),
    {
        let mut n: usize = 0;
        let mut i: usize = 0;
        while i < self.dirty.len()
            invariant
                i <= self.dirty@.len(),
                n <= i,
                n == count_true(self.dirty@.subrange(0, i as int)),
            decreases self.dirty@.len() - i,
        {
            proof {
                lemma_count_true_prefix(self.dirty@, i as int);
                lemma_count_true_bound(self.dirty@.subrange(0, i as int));
            }
            if self.dirty[i] {
                n = n + 1;
            }
            i = i + 1;
        }
        assert(self.dirty@.subrange(0, i as int) =~= self.dirty@);
        n
    }

    pub fn page_size(&self) -> (r: u16)
        requires
            self.wf(),
        ensures
            r as nat == self.spec_page_size(),
    {
        self.storage.page_size()
    }

    pub fn segment_nums(&self) -> (r: Vec<u32>)
        ensures
            r@ == self.storage_view().segments(),
    {
        self.storage.segment_nums()
    }

    /// The storage under the cache.
    pub fn storage(&self) -> (r: &S)
        ensures
            *r == self.storage_view(),
    {
        &self.storage
    }

    pub fn new(storage: S, capacity: usize) -> (r: PageCache<S>)
        ensures
            r.wf(),
            r.capacity() == capacity,
            r.spec_page_size() == storage.spec_page_size(),
            r.storage_view() == storage,
            r.dirty_count() == 0,
            forall|p: PageId| #[trigger] r.content(p) == storage.stored(p),
            forall|p: PageId| !(#[trigger] r.resident(p)),
            forall|p: PageId| #[trigger] r.locked_by(p) is None,
            capacity > 0 ==> !r.all_locked(),
            r.storage_view().infallible() == storage.infallible(),
    {
        let page_size = storage.page_size() as usize;
        let buffer = PageBuffer::new(page_size, capacity);
        let manager = CacheManager::new(capacity);
        let mut slots: Vec<Option<PageId>> = Vec::new();
        let mut dirty: Vec<bool> = Vec::new();
        let mut owner: Vec<Option<u64>> = Vec::new();
        let mut i: usize = 0;
        while i < capacity
            invariant
                i <= capacity,
                slots@.len() == i,
                dirty@.len() == i,
                owner@.len() == i,
                forall|k: int| 0 <= k < i ==> slots@[k] is None,
                forall|k: int| 0 <= k < i ==> !dirty@[k],
                forall|k: int| 0 <= k < i ==> owner@[k] is None,
            decreases capacity - i,
        {
            slots.push(None);
            dirty.push(false);
            owner.push(None);
            i = i + 1;
        }
        let r = PageCache { storage, buffer, manager, slots, dirty, owner };
        proof {
            lemma_count_true_zero(r.dirty@);
            if capacity > 0 {
                assert(!(r.owner@[0] is Some));
            }
        }
        r
    }
}

} // verus!
