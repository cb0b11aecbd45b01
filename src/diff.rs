use vstd::prelude::*;

verus! {

/// `page` with the bytes from `start` on replaced by `data`.
pub open spec fn splice(page: Seq<u8>, start: int, data: Seq<u8>) -> Seq<u8> {
    page.subrange(0, start) + data + page.subrange(start + data.len(), page.len() as int)
}

/// `start`, `before` and `after` describe the smallest contiguous range in which
/// `old` and `new` differ: outside it they agree, its first and last bytes
/// differ, and an empty range starts at 0.
pub open spec fn is_diff_of(
    old: Seq<u8>,
    new: Seq<u8>,
    start: int,
    before: Seq<u8>,
    after: Seq<u8>,
) -> bool {
    let end = start + before.len();
    &&& old.len() == new.len()
    &&& 0 <= start <= end <= old.len()
    &&& before.len() == after.len()
    &&& before == old.subrange(start, end)
    &&& after == new.subrange(start, end)
    &&& forall|i: int| 0 <= i < start ==> old[i] == new[i]
    &&& forall|i: int| end <= i < old.len() ==> old[i] == new[i]
    &&& before.len() > 0 ==> old[start] != new[start] && old[end - 1] != new[end - 1]
    &&& before.len() == 0 ==> start == 0
}

/// The changed region of a page: where it starts, its bytes before and after.
#[derive(Debug, PartialEq, Eq)]
pub struct Diff {
    pub start: usize,
    pub before: Vec<u8>,
    pub after: Vec<u8>,
}

/// Copies `s[lo..hi]` into a new vector.
pub fn copy_range(s: &[u8], lo: usize, hi: usize) -> (r: Vec<u8>)
    requires
        lo <= hi <= s@.len(),
    ensures
        r@ == s@.subrange(lo as int, hi as int),
{
    let mut r: Vec<u8> = Vec::new();
    let mut i: usize = lo;
    while i < hi
        invariant
            lo <= i <= hi <= s@.len(),
            r@ == s@.subrange(lo as int, i as int),
        decreases hi - i,
    {
        r.push(s[i]);
        i = i + 1;
    }
    r
}

/// Finds the smallest range in which `old` and `new` differ.
pub fn generate_diff(old: &[u8], new: &[u8]) -> (r: Diff)
    requires
        old@.len() == new@.len(),
    ensures
        is_diff_of(old@, new@, r.start as int, r.before@, r.after@),
{
    let n = old.len();
    let mut first: usize = 0;
    while first < n && old[first] == new[first]
        invariant
            n == old@.len() == new@.len(),
            first <= n,
            forall|i: int| 0 <= i < first ==> old@[i] == new@[i],
        decreases n - first,
    {
        first = first + 1;
    }
    if first == n {
        assert(old@.subrange(0, 0) =~= Seq::<u8>::empty());
        assert(new@.subrange(0, 0) =~= Seq::<u8>::empty());
        return Diff { start: 0, before: Vec::new(), after: Vec::new() };
    }
    let mut end: usize = n;
    while end > first + 1 && old[end - 1] == new[end - 1]
        invariant
            n == old@.len() == new@.len(),
            first < end <= n,
            old@[first as int] != new@[first as int],
            forall|i: int| end <= i < n ==> old@[i] == new@[i],
        decreases end,
    {
        end = end - 1;
    }
    let before = copy_range(old, first, end);
    let after = copy_range(new, first, end);
    Diff { start: first, before, after }
}

/// Writes `data` into `page` from `start` on.
pub fn apply_diff(page: &mut Vec<u8>, start: usize, data: &[u8])
    requires
        start + data@.len() <= old(page)@.len(),
    ensures
        final(page)@ == splice(old(page)@, start as int, data@),
{
    let ghost orig = page@;
    let plen = page.len();
    let mut i: usize = 0;
    while i < data.len()
        invariant
            orig.len() == plen,
            start + data@.len() <= orig.len(),
            page@.len() == orig.len(),
            i <= data@.len(),
            forall|k: int| 0 <= k < i ==> page@[start + k] == data@[k],
            forall|k: int| 0 <= k < start ==> page@[k] == orig[k],
            forall|k: int| start + data@.len() <= k < orig.len() ==> page@[k] == orig[k],
            forall|k: int| start + i <= k < orig.len() ==> page@[k] == orig[k],
        decreases data@.len() - i,
    {
        page[start + i] = data[i];
        i = i + 1;
    }
    assert(page@ =~= splice(orig, start as int, data@));
}

/// Applying a diff's `after` bytes to the old page gives the new page, and
/// applying its `before` bytes to the new page gives the old page back.
pub proof fn lemma_diff_round_trip(
    old: Seq<u8>,
    new: Seq<u8>,
    start: int,
    before: Seq<u8>,
    after: Seq<u8>,
)
    requires
        is_diff_of(old, new, start, before, after),
    ensures
        splice(old, start, after) == new,
        splice(new, start, before) == old,
{
    assert(splice(old, start, after) =~= new);
    assert(splice(new, start, before) =~= old);
}

} // verus!
