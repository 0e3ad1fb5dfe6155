//! Salience peaks of one analysis frame, split into foreground and
//! background, and the extraction of the peak that continues a pitch
//! contour.
use vstd::prelude::*;
use crate::ordering::{SortKey, stable_sort_desc, stable_sorted_desc};
use crate::real_bits::{key_of, is_nan, order_key, real_eq, real_lt, real_le, bits_eq, bits_is_nan, bits_lt, bits_le};
use vstd::std_specs::cmp::PartialEqSpecImpl;

verus! {

/// Gap budget a contour has after a foreground peak, in tenths of a frame.
pub const FULL_GAP: i64 = 1000;

/// Gap budget that one background peak uses up, in tenths of a frame.
pub const BACKGROUND_GAP_COST: i64 = 29;

/// Largest pitch-bin distance between consecutive peaks of a contour.
pub const MAX_BIN_STEP: usize = 8;

/// A peak of the salience function: its pitch bin and its salience
/// (bit pattern of a single-precision number).
#[derive(Clone, Copy, Debug)]
pub struct SaliencePeak {
    pub bin: usize,
    pub salience: u32,
}

impl SaliencePeak {
    pub fn new(b: usize, s: u32) -> (r: Self)
        ensures
            r.bin == b,
            r.salience == s,
    {
        SaliencePeak { bin: b, salience: s }
    }
}

/// Two peaks are equal when their bins are and their saliences are equal
/// numbers (so the two zeros are equal, and a NaN salience equals nothing).
impl PartialEq for SaliencePeak {
    fn eq(&self, other: &Self) -> (r: bool) {
        self.bin == other.bin && bits_eq(self.salience, other.salience)
    }
}

impl PartialEqSpecImpl for SaliencePeak {
    open spec fn obeys_eq_spec() -> bool {
        true
    }

    open spec fn eq_spec(&self, other: &Self) -> bool {
        self.bin == other.bin && real_eq(self.salience, other.salience)
    }
}

impl SortKey for SaliencePeak {
    open spec fn key(&self) -> int {
        order_key(self.salience)
    }

    fn sort_key(&self) -> (k: u128) {
        key_of(self.salience) as u128
    }
}

/// Whether two pitch bins are close enough to be consecutive in a contour.
pub open spec fn is_close(bin: usize, prev: usize) -> bool {
    -(MAX_BIN_STEP as int) <= bin - prev <= MAX_BIN_STEP as int
}

/// Whether `k` is the first index of `s` whose bin is close to `prev`.
pub open spec fn first_close_at(s: Seq<SaliencePeak>, prev: usize, k: int) -> bool {
    &&& 0 <= k < s.len()
    &&& is_close(s[k].bin, prev)
    &&& forall|j: int| 0 <= j < k ==> !is_close(#[trigger] s[j].bin, prev)
}

/// Whether some peak of `s` is close to `prev`.
pub open spec fn has_close(s: Seq<SaliencePeak>, prev: usize) -> bool {
    exists|k: int| 0 <= k < s.len() && is_close(#[trigger] s[k].bin, prev)
}

/// The first index of `s` whose bin is close to `prev`.
pub open spec fn first_close(s: Seq<SaliencePeak>, prev: usize) -> int {
    choose|k: int| first_close_at(s, prev, k)
}

/// `s` without its `k`th peak; a peak whose salience is NaN compares
/// unequal to itself, is not found again, and stays.
pub open spec fn take_at(s: Seq<SaliencePeak>, k: int) -> Seq<SaliencePeak> {
    if is_nan(s[k].salience) {
        s
    } else {
        s.remove(k)
    }
}

/// Peaks that are not below `threshold`.
pub open spec fn not_below(threshold: u32) -> spec_fn(SaliencePeak) -> bool {
    |p: SaliencePeak| !real_lt(p.salience, threshold)
}

/// Peaks that are below `threshold`.
pub open spec fn below(threshold: u32) -> spec_fn(SaliencePeak) -> bool {
    |p: SaliencePeak| real_lt(p.salience, threshold)
}

/// Peaks that are at least `threshold`.
pub open spec fn at_least(threshold: u32) -> spec_fn(SaliencePeak) -> bool {
    |p: SaliencePeak| real_le(threshold, p.salience)
}

/// There is at most one first close index.
pub proof fn lemma_first_close_unique(s: Seq<SaliencePeak>, prev: usize, k: int)
    requires
        first_close_at(s, prev, k),
    ensures
        first_close(s, prev) == k,
        has_close(s, prev),
{
    let c = first_close(s, prev);
    assert(first_close_at(s, prev, c));
    if c < k {
        assert(!is_close(s[c].bin, prev));
    } else if k < c {
        assert(!is_close(s[k].bin, prev));
    }
}

/// Index of the first peak of `s` close to `prev`, if there is one.
fn find_close(s: &Vec<SaliencePeak>, prev: usize) -> (r: Option<usize>)
    ensures
        r is None <==> !has_close(s@, prev),
        r matches Some(k) ==> first_close_at(s@, prev, k as int) && first_close(s@, prev) == k,
{
    let mut i: usize = 0;
    while i < s.len()
        invariant
            0 <= i <= s@.len(),
            forall|j: int| 0 <= j < i ==> !is_close(#[trigger] s@[j].bin, prev),
        decreases s@.len() - i,
    {
        let b = s[i].bin;
        let close = if b >= prev { b - prev <= MAX_BIN_STEP } else { prev - b <= MAX_BIN_STEP };
        if close {
            proof {
                lemma_first_close_unique(s@, prev, i as int);
            }
            return Some(i);
        }
        i = i + 1;
    }
    None
}

/// Splits `peaks`, in order, into those not below `threshold` and those below it.
fn split_peaks(peaks: &[SaliencePeak], threshold: u32) -> (r: (Vec<SaliencePeak>, Vec<SaliencePeak>))
    ensures
        r.0@ == peaks@.filter(not_below(threshold)),
        r.1@ == peaks@.filter(below(threshold)),
{
    let mut upper: Vec<SaliencePeak> = Vec::new();
    let mut lower: Vec<SaliencePeak> = Vec::new();
    let mut i: usize = 0;
    while i < peaks.len()
        invariant
            0 <= i <= peaks@.len(),
            upper@ == peaks@.take(i as int).filter(not_below(threshold)),
            lower@ == peaks@.take(i as int).filter(below(threshold)),
        decreases peaks@.len() - i,
    {
        let p = peaks[i];
        proof {
            assert(peaks@.take(i + 1) == peaks@.take(i as int).push(p));
            peaks@.take(i as int).lemma_filter_push(p, not_below(threshold));
            peaks@.take(i as int).lemma_filter_push(p, below(threshold));
        }
        if bits_lt(p.salience, threshold) {
            lower.push(p);
        } else {
            upper.push(p);
        }
        i = i + 1;
    }
    assert(peaks@.take(peaks@.len() as int) == peaks@);
    (upper, lower)
}

/// The salience peaks of one frame: the foreground, strongest first, which
/// seeds and continues contours, and the background, which may only
/// continue them.
pub struct SalienceFramePeaks {
    pub foreground: Vec<SaliencePeak>,
    pub background: Vec<SaliencePeak>,
}

impl SalienceFramePeaks {
    /// First split of a frame's peaks: those not below `threshold` (the
    /// fraction of the strongest salience) go to the foreground, the others
    /// to the background, each in their order.
    pub fn new(salience_peaks: &[SaliencePeak], threshold: u32) -> (r: Self)
        ensures
            r.foreground@ == salience_peaks@.filter(not_below(threshold)),
            r.background@ == salience_peaks@.filter(below(threshold)),
    {
        let (fg, bg) = split_peaks(salience_peaks, threshold);
        SalienceFramePeaks { foreground: fg, background: bg }
    }

    /// Second split: foreground peaks below `threshold` are appended to the
    /// background in their order, those at least `threshold` stay in the
    /// foreground, stably sorted by decreasing salience. A peak whose
    /// salience is NaN is neither below nor at least the threshold and
    /// leaves both.
    pub fn settle(&mut self, threshold: u32)
        ensures
            final(self).background@ == old(self).background@ + old(self).foreground@.filter(
                below(threshold),
            ),
            stable_sorted_desc(
                final(self).foreground@,
                old(self).foreground@.filter(at_least(threshold)),
            ),
            forall|q: int|
                0 <= q < final(self).foreground@.len() ==> real_le(
                    threshold,
                    #[trigger] final(self).foreground@[q].salience,
                ),
    {
        let mut kept: Vec<SaliencePeak> = Vec::new();
        let mut i: usize = 0;
        let ghost bg0 = self.background@;
        while i < self.foreground.len()
            invariant
                0 <= i <= self.foreground@.len(),
                self.foreground@ == old(self).foreground@,
                self.background@ == bg0 + old(self).foreground@.take(i as int).filter(below(threshold)),
                kept@ == old(self).foreground@.take(i as int).filter(at_least(threshold)),
                bg0 == old(self).background@,
            decreases self.foreground@.len() - i,
        {
            let p = self.foreground[i];
            proof {
                let s = old(self).foreground@;
                assert(s.take(i + 1) == s.take(i as int).push(p));
                s.take(i as int).lemma_filter_push(p, below(threshold));
                s.take(i as int).lemma_filter_push(p, at_least(threshold));
            }
            if bits_lt(p.salience, threshold) {
                self.background.push(p);
            }
            if bits_le(threshold, p.salience) {
                kept.push(p);
            }
            i = i + 1;
        }
        proof {
            let s = old(self).foreground@;
            assert(s.take(s.len() as int) == s);
            broadcast use vstd::seq_lib::group_filter_ensures;
        }
        let ghost unsorted = kept@;
        stable_sort_desc(&mut kept);
        proof {
            let perm = choose|perm: Seq<int>|
                {
                    &&& #[trigger] crate::ordering::is_permutation_by(kept@, unsorted, perm)
                    &&& forall|q: int, r: int|
                        0 <= q < r < kept@.len() ==> (#[trigger] kept@[q]).key() >= (
                        #[trigger] kept@[r]).key()
                    &&& forall|q: int, r: int|
                        0 <= q < r < kept@.len() && (#[trigger] kept@[q]).key() == (
                        #[trigger] kept@[r]).key() ==> perm[q] < perm[r]
                };
            assert forall|q: int| 0 <= q < kept@.len() implies real_le(
                threshold,
                #[trigger] kept@[q].salience,
            ) by {
                assert(kept@[q] == unsorted[perm[q]]);
                assert(at_least(threshold)(unsorted[perm[q]]));
            }
        }
        self.foreground = kept;
    }

    /// Takes out of this frame the peak that continues a contour whose last
    /// bin is `prev_cent`, given the contour's remaining gap budget
    /// `gap_len` (tenths of a frame). The first foreground peak within
    /// `MAX_BIN_STEP` bins is taken and the budget is refilled; failing
    /// that, the first such background peak is taken and the budget shrinks
    /// by `BACKGROUND_GAP_COST`. With no budget left, or no such peak,
    /// nothing is taken.
    pub fn extract_peak(&mut self, prev_cent: usize, gap_len: i64) -> (r: Option<(SaliencePeak, i64)>)
        ensures
            gap_len <= 0 ==> r is None && final(self).foreground@ == old(self).foreground@
                && final(self).background@ == old(self).background@,
            gap_len > 0 && has_close(old(self).foreground@, prev_cent) ==> {
                let k = first_close(old(self).foreground@, prev_cent);
                &&& first_close_at(old(self).foreground@, prev_cent, k)
                &&& r == Some((old(self).foreground@[k], FULL_GAP))
                &&& final(self).foreground@ == take_at(old(self).foreground@, k)
                &&& final(self).background@ == old(self).background@
            },
            gap_len > 0 && !has_close(old(self).foreground@, prev_cent) && has_close(
                old(self).background@,
                prev_cent,
            ) ==> {
                let k = first_close(old(self).background@, prev_cent);
                &&& first_close_at(old(self).background@, prev_cent, k)
                &&& r == Some((old(self).background@[k], (gap_len - BACKGROUND_GAP_COST) as i64))
                &&& final(self).background@ == take_at(old(self).background@, k)
                &&& final(self).foreground@ == old(self).foreground@
            },
            gap_len > 0 && !has_close(old(self).foreground@, prev_cent) && !has_close(
                old(self).background@,
                prev_cent,
            ) ==> r is None && final(self).foreground@ == old(self).foreground@
                && final(self).background@ == old(self).background@,
    {
        if gap_len <= 0 {
            return None;
        }
        match find_close(&self.foreground, prev_cent) {
            Some(k) => {
                let x = self.foreground[k];
                if !bits_is_nan(x.salience) {
                    self.foreground.remove(k);
                }
                Some((x, FULL_GAP))
            },
            None => {
                match find_close(&self.background, prev_cent) {
                    Some(k) => {
                        let x = self.background[k];
                        if !bits_is_nan(x.salience) {
                            self.background.remove(k);
                        }
                        Some((x, gap_len - BACKGROUND_GAP_COST))
                    },
                    None => None,
                }
            },
        }
    }

    /// Whether a foreground peak is left to seed a contour.
    pub fn can_extract(&self) -> (r: bool)
        ensures
            r == (self.foreground@.len() > 0),
    {
        !self.foreground.is_empty()
    }
}

} // verus!
