//! An append-only Merkle mountain range with windowed peak bagging.
//!
//! Peaks are indexed by height; a slot is empty or holds the root of a
//! perfect subtree. An append carries the new leaf up through the occupied
//! slots, then every window of `bag_size` adjacent occupied slots, scanned
//! from the lowest, is hashed into its first slot and the others are emptied.

use vstd::prelude::*;
use vstd::string::StringSliceAdditionalSpecFns;

use crate::hashing::{copy_bytes, leaf_hash, leaf_hash_spec, pair_hash, pair_hash_spec, sha256, sha256_of};

verus! {

/// A slot's digest, if it holds one.
pub open spec fn slot_view(slot: Option<Vec<u8>>) -> Option<Seq<u8>> {
    match slot {
        Some(d) => Some(d@),
        None => None,
    }
}

/// The peak slots as plain values.
pub open spec fn peaks_view(peaks: Seq<Option<Vec<u8>>>) -> Seq<Option<Seq<u8>>> {
    peaks.map_values(|slot: Option<Vec<u8>>| slot_view(slot))
}

/// The slots after carrying `current` into the slot at `height`: each
/// occupied slot met on the way is merged in (stored peak on the left) and
/// emptied; the first empty slot, or a new one at the end, takes the result.
pub open spec fn carry(peaks: Seq<Option<Seq<u8>>>, current: Seq<u8>, height: int) -> Seq<Option<Seq<u8>>>
    decreases peaks.len() - height,
{
    if 0 <= height < peaks.len() && peaks[height] is Some {
        carry(peaks.update(height, None), pair_hash_spec(peaks[height]->0, current), height + 1)
    } else if height == peaks.len() {
        peaks.push(Some(current))
    } else {
        peaks.update(height, Some(current))
    }
}

/// Whether the `size` slots from `start` on all hold a digest.
pub open spec fn window_full(peaks: Seq<Option<Seq<u8>>>, start: int, size: nat) -> bool {
    forall|k: int| start <= k < start + size ==> #[trigger] peaks[k] is Some
}

/// The digests of the slots in `[lo, hi)`, concatenated in order.
pub open spec fn concat_range(peaks: Seq<Option<Seq<u8>>>, lo: int, hi: int) -> Seq<u8>
    decreases hi - lo,
{
    if hi <= lo {
        Seq::empty()
    } else {
        concat_range(peaks, lo, hi - 1) + peaks[hi - 1]->0
    }
}

/// The slots after bagging the window of `size` slots at `start`: its first
/// slot takes the hash of their concatenation, the others are emptied.
pub open spec fn bag_window(peaks: Seq<Option<Seq<u8>>>, start: int, size: nat) -> Seq<Option<Seq<u8>>> {
    Seq::new(
        peaks.len(),
        |k: int|
            if k == start {
                Some(sha256_of(concat_range(peaks, start, start + size)))
            } else if start < k < start + size {
                None
            } else {
                peaks[k]
            },
    )
}

/// The slots after bagging, scanning windows from `start` upward.
pub open spec fn bag_from(peaks: Seq<Option<Seq<u8>>>, size: nat, start: int) -> Seq<Option<Seq<u8>>>
    decreases peaks.len() + 1 - start,
{
    if start + size <= peaks.len() {
        let next = if window_full(peaks, start, size) {
            bag_window(peaks, start, size)
        } else {
            peaks
        };
        bag_from(next, size, start + 1)
    } else {
        peaks
    }
}

/// Folds a slot into the accumulated digest of the slots above it.
pub open spec fn fold_slot(slot: Option<Seq<u8>>, acc: Option<Seq<u8>>) -> Option<Seq<u8>> {
    match slot {
        None => acc,
        Some(p) => match acc {
            None => Some(p),
            Some(a) => Some(pair_hash_spec(p, a)),
        },
    }
}

/// The digest of the slots from `start` up, folded from the highest down;
/// `None` where none of them holds a digest.
pub open spec fn fold_peaks(peaks: Seq<Option<Seq<u8>>>, start: int) -> Option<Seq<u8>>
    decreases peaks.len() - start,
{
    if start >= peaks.len() || start < 0 {
        None
    } else {
        fold_slot(peaks[start], fold_peaks(peaks, start + 1))
    }
}

/// Carrying never removes a slot.
pub proof fn lemma_carry_keeps_slots(peaks: Seq<Option<Seq<u8>>>, current: Seq<u8>, height: int)
    requires
        0 <= height <= peaks.len(),
    ensures
        carry(peaks, current, height).len() >= peaks.len(),
    decreases peaks.len() - height,
{
    if height < peaks.len() && peaks[height] is Some {
        lemma_carry_keeps_slots(
            peaks.update(height, None),
            pair_hash_spec(peaks[height]->0, current),
            height + 1,
        );
    }
}

/// Bagging keeps the number of slots.
pub proof fn lemma_bag_keeps_slots(peaks: Seq<Option<Seq<u8>>>, size: nat, start: int)
    ensures
        bag_from(peaks, size, start).len() == peaks.len(),
    decreases peaks.len() + 1 - start,
{
    if start + size <= peaks.len() {
        let next = if window_full(peaks, start, size) {
            bag_window(peaks, start, size)
        } else {
            peaks
        };
        lemma_bag_keeps_slots(next, size, start + 1);
    }
}

/// A Merkle mountain range.
pub struct MMR {
    peaks: Vec<Option<Vec<u8>>>,
    leaves: Vec<Vec<u8>>,
    bag_size: usize,
}

impl MMR {
    /// The peak slots, by height.
    pub closed spec fn peaks_spec(&self) -> Seq<Option<Seq<u8>>> {
        peaks_view(self.peaks@)
    }

    /// The leaf digests, in order of appending.
    pub closed spec fn leaves_spec(&self) -> Seq<Seq<u8>> {
        self.leaves@.map_values(|d: Vec<u8>| d@)
    }

    /// The width of a bagging window.
    pub closed spec fn bag_size_spec(&self) -> nat {
        self.bag_size as nat
    }

    /// A bagging window spans at least two slots.
    pub open spec fn wf(&self) -> bool {
        self.bag_size_spec() >= 2
    }

    /// An empty range whose bagging windows span `bag_size` slots.
    pub fn new(bag_size: usize) -> (r: MMR)
        requires
            bag_size >= 2,
        ensures
            r.wf(),
            r.peaks_spec() == Seq::<Option<Seq<u8>>>::empty(),
            r.leaves_spec() == Seq::<Seq<u8>>::empty(),
            r.bag_size_spec() == bag_size,
    {
        let r = MMR { peaks: Vec::new(), leaves: Vec::new(), bag_size };
        assert(r.peaks_spec() =~= Seq::<Option<Seq<u8>>>::empty());
        assert(r.leaves_spec() =~= Seq::<Seq<u8>>::empty());
        r
    }

    /// Appends the leaf of `data`: carries it up through the occupied slots,
    /// then bags the peaks.
    pub fn append(&mut self, data: &str)
        requires
            old(self).wf(),
        ensures
            final(self).wf(),
            final(self).bag_size_spec() == old(self).bag_size_spec(),
            final(self).leaves_spec() == old(self).leaves_spec().push(leaf_hash_spec(data.spec_bytes())),
            final(self).peaks_spec() == bag_from(
                carry(old(self).peaks_spec(), leaf_hash_spec(data.spec_bytes()), 0),
                old(self).bag_size_spec(),
                0,
            ),
            final(self).peaks_spec().len() >= old(self).peaks_spec().len(),
    {
        proof {
            lemma_carry_keeps_slots(old(self).peaks_spec(), leaf_hash_spec(data.spec_bytes()), 0);
            lemma_bag_keeps_slots(
                carry(old(self).peaks_spec(), leaf_hash_spec(data.spec_bytes()), 0),
                old(self).bag_size_spec(),
                0,
            );
        }
        let leaf = leaf_hash(data.as_bytes());
        let ghost before = self.leaves@;
        self.leaves.push(copy_bytes(leaf.as_slice()));
        assert(self.leaves_spec() =~= before.map_values(|d: Vec<u8>| d@).push(leaf@));
        let ghost start = peaks_view(self.peaks@);
        let mut current = leaf;
        let mut height: usize = 0;
        while height < self.peaks.len() && self.peaks[height].is_some()
            invariant
                self.wf(),
                self.bag_size_spec() == old(self).bag_size_spec(),
                self.leaves_spec() == old(self).leaves_spec().push(leaf_hash_spec(data.spec_bytes())),
                height <= self.peaks@.len(),
                carry(peaks_view(self.peaks@), current@, height as int) == carry(start, leaf@, 0),
            decreases self.peaks@.len() - height,
        {
            let ghost pv = peaks_view(self.peaks@);
            if let Some(peak) = &self.peaks[height] {
                current = pair_hash(peak.as_slice(), current.as_slice());
            }
            self.peaks[height] = None;
            assert(peaks_view(self.peaks@) =~= pv.update(height as int, None));
            height = height + 1;
        }
        let ghost pv = peaks_view(self.peaks@);
        if height == self.peaks.len() {
            self.peaks.push(Some(current));
            assert(peaks_view(self.peaks@) =~= pv.push(Some(current@)));
        } else {
            self.peaks[height] = Some(current);
            assert(peaks_view(self.peaks@) =~= pv.update(height as int, Some(current@)));
        }
        self.bag_peaks();
    }

    /// Bags the peaks: scanning from the lowest slot up, each window of
    /// `bag_size` adjacent occupied slots is hashed into its first slot and
    /// the others are emptied.
    pub fn bag_peaks(&mut self)
        requires
            old(self).wf(),
        ensures
            final(self).wf(),
            final(self).bag_size_spec() == old(self).bag_size_spec(),
            final(self).leaves_spec() == old(self).leaves_spec(),
            final(self).peaks_spec() == bag_from(old(self).peaks_spec(), old(self).bag_size_spec(), 0),
    {
        let size = self.bag_size;
        let mut i: usize = 0;
        while size <= self.peaks.len() && i <= self.peaks.len() - size
            invariant
                self.wf(),
                self.bag_size == size,
                self.bag_size_spec() == old(self).bag_size_spec(),
                self.leaves_spec() == old(self).leaves_spec(),
                self.peaks@.len() == old(self).peaks@.len(),
                bag_from(peaks_view(self.peaks@), size as nat, i as int) == bag_from(
                    old(self).peaks_spec(),
                    size as nat,
                    0,
                ),
            decreases self.peaks@.len() + 1 - i,
        {
            let ghost pv = peaks_view(self.peaks@);
            match self.window_contents(i) {
                Some(joined) => {
                    let bagged = sha256(joined.as_slice());
                    self.peaks[i] = Some(bagged);
                    assert(peaks_view(self.peaks@) =~= pv.update(i as int, Some(bagged@)));
                    let mut j: usize = 1;
                    while j < size
                        invariant
                            self.wf(),
                            self.bag_size == size,
                            self.bag_size_spec() == old(self).bag_size_spec(),
                            self.leaves_spec() == old(self).leaves_spec(),
                            pv.len() == self.peaks@.len(),
                            i + size <= pv.len(),
                            1 <= j <= size,
                            forall|k: int| 0 <= k < pv.len() ==> #[trigger] peaks_view(self.peaks@)[k] == (
                                if k == i {
                                    Some(sha256_of(concat_range(pv, i as int, i + size)))
                                } else if i < k < i + j {
                                    None
                                } else {
                                    pv[k]
                                }),
                        decreases size - j,
                    {
                        let ghost cur = peaks_view(self.peaks@);
                        let n = self.peaks.len();
                        assert(i + j < n);
                        self.peaks[i + j] = None;
                        assert(peaks_view(self.peaks@) =~= cur.update(i + j, None));
                        j = j + 1;
                    }
                    assert(peaks_view(self.peaks@) =~= bag_window(pv, i as int, size as nat));
                },
                None => {},
            }
            i = i + 1;
        }
    }

    /// The concatenated digests of the `bag_size` slots from `start`, if
    /// they are all occupied.
    fn window_contents(&self, start: usize) -> (r: Option<Vec<u8>>)
        requires
            start + self.bag_size <= self.peaks@.len(),
        ensures
            r is Some <==> window_full(self.peaks_spec(), start as int, self.bag_size_spec()),
            r matches Some(c) ==> c@ == concat_range(
                self.peaks_spec(),
                start as int,
                start + self.bag_size_spec(),
            ),
    {
        let ghost pv = self.peaks_spec();
        let mut joined: Vec<u8> = Vec::new();
        let mut j: usize = 0;
        while j < self.bag_size
            invariant
                pv == self.peaks_spec(),
                start + self.bag_size <= self.peaks@.len(),
                j <= self.bag_size,
                window_full(pv, start as int, j as nat),
                joined@ == concat_range(pv, start as int, start + j),
            decreases self.bag_size - j,
        {
            let n = self.peaks.len();
            assert(start + j < n);
            match &self.peaks[start + j] {
                Some(peak) => {
                    let mut k: usize = 0;
                    let ghost prefix = joined@;
                    while k < peak.len()
                        invariant
                            k <= peak@.len(),
                            joined@ == prefix + peak@.subrange(0, k as int),
                        decreases peak@.len() - k,
                    {
                        joined.push(peak[k]);
                        assert(peak@.subrange(0, k + 1) =~= peak@.subrange(0, k as int).push(peak@[k as int]));
                        k = k + 1;
                    }
                    assert(peak@.subrange(0, peak@.len() as int) =~= peak@);
                    assert(pv[start + j] == Some(peak@));
                },
                None => {
                    assert(pv[start + j] is None);
                    return None;
                },
            }
            j = j + 1;
        }
        Some(joined)
    }

    /// The digest of all peaks, folded from the highest slot down (the
    /// higher peaks' digest on the right); `None` while no slot is occupied.
    pub fn root(&self) -> (r: Option<Vec<u8>>)
        ensures
            slot_view(r) == fold_peaks(self.peaks_spec(), 0),
    {
        let ghost pv = self.peaks_spec();
        let mut acc: Option<Vec<u8>> = None;
        let mut k: usize = self.peaks.len();
        while k > 0
            invariant
                pv == self.peaks_spec(),
                k <= self.peaks@.len(),
                slot_view(acc) == fold_peaks(pv, k as int),
            decreases k,
        {
            k = k - 1;
            assert(pv[k as int] == slot_view(self.peaks@[k as int]));
            acc = match &self.peaks[k] {
                None => acc,
                Some(peak) => match acc {
                    None => Some(copy_bytes(peak.as_slice())),
                    Some(a) => Some(pair_hash(peak.as_slice(), a.as_slice())),
                },
            };
        }
        acc
    }

    /// The peak slots, by height.
    pub fn peaks(&self) -> (r: &Vec<Option<Vec<u8>>>)
        ensures
            peaks_view(r@) == self.peaks_spec(),
    {
        &self.peaks
    }

    /// The leaf digests, in order of appending.
    pub fn leaves(&self) -> (r: &Vec<Vec<u8>>)
        ensures
            r@.map_values(|d: Vec<u8>| d@) == self.leaves_spec(),
    {
        &self.leaves
    }

    /// The width of a bagging window.
    pub fn bag_size(&self) -> (r: usize)
        ensures
            r == self.bag_size_spec(),
    {
        self.bag_size
    }
}

} // verus!
