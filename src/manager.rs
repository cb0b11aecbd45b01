use vstd::prelude::*;

verus! {

/// Least-recently-used eviction order over cache slots. Each touch stamps the
/// slot with a clock value greater than every earlier one; the victim is the
/// eligible slot with the smallest stamp, the lowest index on a tie.
pub(crate) struct CacheManager {
    pub(crate) stamps: Vec<u64>,
    pub(crate) clock: u64,
}

impl CacheManager {
    pub(crate) open spec fn wf(&self) -> bool {
        forall|i: int| 0 <= i < self.stamps@.len() ==> #[trigger] self.stamps@[i] <= self.clock
    }

    pub(crate) fn new(len: usize) -> (r: CacheManager)
        ensures
            r.wf(),
            r.stamps@.len() == len,
    {
        let mut stamps: Vec<u64> = Vec::new();
        let mut i: usize = 0;
        while i < len
            invariant
                i <= len,
                stamps@.len() == i,
                forall|k: int| 0 <= k < i ==> stamps@[k] == 0,
            decreases len - i,
        {
            stamps.push(0);
            i = i + 1;
        }
        CacheManager { stamps, clock: 0 }
    }

    /// Records a touch of `slot`, making it the most recently used. The clock
    /// stops at its maximum, after which touches keep their relative order no
    /// longer.
    pub(crate) fn access(&mut self, slot: usize)
        requires
            old(self).wf(),
            slot < old(self).stamps@.len(),
        ensures
            final(self).wf(),
            final(self).stamps@.len() == old(self).stamps@.len(),
            final(self).stamps@[slot as int] == final(self).clock,
            old(self).clock < u64::MAX ==> final(self).clock == old(self).clock + 1,
            final(self).clock >= old(self).clock,
            forall|i: int| 0 <= i < old(self).stamps@.len() && i != slot ==> final(self).stamps@[i] == old(self).stamps@[i],
    {
        if self.clock < u64::MAX {
            self.clock = self.clock + 1;
        }
        self.stamps[slot] = self.clock;
    }

    /// Picks the victim among the slots marked in `eligible`, if any.
    pub(crate) fn reclaim(&self, eligible: &Vec<bool>) -> (r: Option<usize>)
        requires
            eligible@.len() == self.stamps@.len(),
        ensures
            r is None <==> forall|i: int| 0 <= i < eligible@.len() ==> !eligible@[i],
            r matches Some(v) ==> v < eligible@.len() && eligible@[v as int] && forall|j: int|
                0 <= j < eligible@.len() && #[trigger] eligible@[j] ==> self.stamps@[v as int] <= self.stamps@[j]
                    && (j < v ==> self.stamps@[v as int] < self.stamps@[j]),
    {
        let mut best: Option<usize> = None;
        let mut i: usize = 0;
        while i < eligible.len()
            invariant
                eligible@.len() == self.stamps@.len(),
                i <= eligible@.len(),
                best is None <==> forall|k: int| 0 <= k < i ==> !eligible@[k],
                best matches Some(v) ==> v < i && eligible@[v as int] && forall|j: int|
                    0 <= j < i && #[trigger] eligible@[j] ==> self.stamps@[v as int] <= self.stamps@[j]
                        && (j < v ==> self.stamps@[v as int] < self.stamps@[j]),
            decreases eligible@.len() - i,
        {
            if eligible[i] {
                match best {
                    None => {
                        best = Some(i);
                    },
                    Some(v) => {
                        if self.stamps[i] < self.stamps[v] {
                            best = Some(i);
                        }
                    },
                }
            }
            i = i + 1;
        }
        best
    }
}

} // verus!
