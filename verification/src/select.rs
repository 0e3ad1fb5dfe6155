//! Selection among pitch contours: per-frame pitch gathering, removal of
//! octave duplicates and pitch outliers, and the choice of the melody bin
//! of each frame.
use vstd::prelude::*;
use vstd::multiset::Multiset;
use crate::contour::PitchContour;
use crate::ordering::{SortKey, stable_sort_desc, stable_sorted_desc};
use crate::real_bits::{real_lt, real_le, bits_lt, bits_le, NEG_INFINITY_BITS};

verus! {

/// `s` with its item at `k` replaced by its last item, and shortened by one.
pub open spec fn swap_removed<T>(s: Seq<T>, k: int) -> Seq<T> {
    s.update(k, s.last()).drop_last()
}

/// `s` after swap-removing, from the highest index down to `k`, every
/// index at or above `k` whose flag is set.
pub open spec fn swept_from<T>(s: Seq<T>, flags: Seq<bool>, k: int) -> Seq<T>
    decreases s.len() - k,
{
    if k >= s.len() || k < 0 {
        s
    } else {
        let t = swept_from(s, flags, k + 1);
        if flags[k] {
            swap_removed(t, k)
        } else {
            t
        }
    }
}

/// Number of set flags at or above `k` among the first `n`.
pub open spec fn flagged_from(flags: Seq<bool>, k: int, n: int) -> int
    decreases n - k,
{
    if k >= n || k < 0 {
        0
    } else {
        flagged_from(flags, k + 1, n) + if flags[k] { 1int } else { 0int }
    }
}

proof fn lemma_swept_len<T>(s: Seq<T>, flags: Seq<bool>, k: int)
    requires
        0 <= k <= s.len(),
        flags.len() == s.len(),
    ensures
        swept_from(s, flags, k).len() == s.len() - flagged_from(flags, k, s.len() as int),
        swept_from(s, flags, k).len() >= k,
        forall|q: int| 0 <= q < k ==> #[trigger] swept_from(s, flags, k)[q] == s[q],
    decreases s.len() - k,
{
    if k < s.len() {
        lemma_swept_len(s, flags, k + 1);
        assert(flagged_from(flags, k + 1, s.len() as int) <= s.len() - (k + 1)) by {
            lemma_flagged_bound(flags, k + 1, s.len() as int);
        }
    }
}

proof fn lemma_flagged_bound(flags: Seq<bool>, k: int, n: int)
    requires
        0 <= k <= n,
    ensures
        0 <= flagged_from(flags, k, n) <= n - k,
    decreases n - k,
{
    if k < n {
        lemma_flagged_bound(flags, k + 1, n);
    }
}

/// Removes every contour whose flag is set, by swap-removal from the
/// highest flagged index down.
pub fn remove_flagged(pitch_contours: &mut Vec<PitchContour>, flags: &[bool])
    requires
        flags@.len() == old(pitch_contours)@.len(),
    ensures
        final(pitch_contours)@ == swept_from(old(pitch_contours)@, flags@, 0),
{
    let ghost s = pitch_contours@;
    let n = pitch_contours.len();
    let mut k: usize = n;
    while k > 0
        invariant
            0 <= k <= n,
            n == s.len(),
            flags@.len() == n,
            pitch_contours@ == swept_from(s, flags@, k as int),
        decreases k,
    {
        proof {
            lemma_swept_len(s, flags@, k as int);
        }
        k = k - 1;
        if flags[k] {
            pitch_contours.swap_remove(k);
        }
    }
}

/// Sorts contours by decreasing first frame, then decreasing last frame,
/// keeping the order of contours with equal spans.
pub fn sort_contours(pitch_contours: &mut Vec<PitchContour>)
    ensures
        stable_sorted_desc(final(pitch_contours)@, old(pitch_contours)@),
{
    stable_sort_desc(pitch_contours);
}

/// Keeps, in order, the contours whose flag is set.
pub open spec fn kept_where<T>(s: Seq<T>, keep: Seq<bool>) -> Seq<T>
    decreases s.len(),
{
    if s.len() == 0 {
        s
    } else {
        let rest = kept_where(s.drop_last(), keep);
        if keep[s.len() - 1] {
            rest.push(s.last())
        } else {
            rest
        }
    }
}

/// `out` is the subsequence of `s` at exactly the indices where `keep`
/// holds: `idx` lists those indices in increasing order, each item of
/// `out` is the item of `s` at its index, and every kept index appears.
pub open spec fn subsequence_where<T>(out: Seq<T>, s: Seq<T>, keep: Seq<bool>, idx: Seq<int>) -> bool {
    &&& idx.len() == out.len()
    &&& forall|k: int|
        0 <= k < idx.len() ==> 0 <= #[trigger] idx[k] < s.len() && out[k] == s[idx[k]] && keep[idx[k]]
    &&& forall|k: int, l: int| 0 <= k < l < idx.len() ==> #[trigger] idx[k] < #[trigger] idx[l]
    &&& forall|c: int| 0 <= c < s.len() && #[trigger] keep[c] ==> exists|k: int| 0 <= k < idx.len() && idx[k] == c
}

/// Keeping where a flag is set gives exactly the flagged items, in order:
/// no unflagged item is kept and no flagged item is lost.
pub proof fn lemma_kept_where_is_flagged_subsequence<T>(s: Seq<T>, keep: Seq<bool>) -> (idx: Seq<int>)
    requires
        keep.len() == s.len(),
    ensures
        subsequence_where(kept_where(s, keep), s, keep, idx),
    decreases s.len(),
{
    if s.len() == 0 {
        Seq::empty()
    } else {
        let d = s.drop_last();
        let rest_idx = lemma_kept_where_is_flagged_subsequence(d, keep.take(d.len() as int));
        let n = s.len() - 1;
        assert(kept_where(d, keep) == kept_where(d, keep.take(d.len() as int))) by {
            lemma_kept_where_prefix_flags(d, keep, keep.take(d.len() as int));
        }
        let out = kept_where(s, keep);
        let rest = kept_where(d, keep);
        let idx = if keep[n] { rest_idx.push(n) } else { rest_idx };
        assert forall|k: int| 0 <= k < idx.len() implies 0 <= #[trigger] idx[k] < s.len() && out[k] == s[idx[k]]
            && keep[idx[k]] by {
            if k < rest_idx.len() {
                assert(idx[k] == rest_idx[k]);
                assert(keep.take(d.len() as int)[rest_idx[k]] == keep[rest_idx[k]]);
                assert(d[rest_idx[k]] == s[rest_idx[k]]);
            }
        }
        assert forall|k: int, l: int| 0 <= k < l < idx.len() implies #[trigger] idx[k] < #[trigger] idx[l] by {
            if l == rest_idx.len() {
                assert(rest_idx[k] < d.len());
            }
        }
        assert forall|c: int| 0 <= c < s.len() && #[trigger] keep[c] implies exists|k: int|
            0 <= k < idx.len() && idx[k] == c by {
            if c < n {
                assert(keep.take(d.len() as int)[c]);
                let k = choose|k: int| 0 <= k < rest_idx.len() && rest_idx[k] == c;
                assert(idx[k] == c);
            } else {
                assert(idx[idx.len() - 1] == c);
            }
        }
        idx
    }
}

proof fn lemma_kept_where_prefix_flags<T>(s: Seq<T>, keep: Seq<bool>, keep2: Seq<bool>)
    requires
        keep.len() >= s.len(),
        keep2.len() >= s.len(),
        forall|c: int| 0 <= c < s.len() ==> keep[c] == keep2[c],
    ensures
        kept_where(s, keep) == kept_where(s, keep2),
    decreases s.len(),
{
    if s.len() > 0 {
        lemma_kept_where_prefix_flags(s.drop_last(), keep, keep2);
    }
}

/// For each contour, whether its mean salience (bit pattern) reaches
/// `threshold`.
pub open spec fn salient_flags(mean_saliences: Seq<u32>, threshold: u32) -> Seq<bool> {
    Seq::new(mean_saliences.len(), |c: int| real_le(threshold, mean_saliences[c]))
}

/// Keeps, in order, the contours whose mean salience (bit pattern) is at
/// least `threshold`: the result is the subsequence of the input at exactly
/// the indices whose mean salience reaches the threshold, so a contour
/// below it never stays and one that reaches it is never dropped.
pub fn retain_salient(
    pitch_contours: &mut Vec<PitchContour>,
    mean_saliences: &[u32],
    threshold: u32,
)
    requires
        mean_saliences@.len() == old(pitch_contours)@.len(),
    ensures
        final(pitch_contours)@ == kept_where(
            old(pitch_contours)@,
            salient_flags(mean_saliences@, threshold),
        ),
        exists|idx: Seq<int>|
            #[trigger] subsequence_where(
                final(pitch_contours)@,
                old(pitch_contours)@,
                salient_flags(mean_saliences@, threshold),
                idx,
            ),
{
    let ghost keep = salient_flags(mean_saliences@, threshold);
    let mut taken: Vec<PitchContour> = Vec::new();
    std::mem::swap(&mut taken, pitch_contours);
    let ghost s = taken@;
    let n = taken.len();
    let mut rest: Vec<PitchContour> = Vec::new();
    // walk from the back, popping, then restore order
    let mut k: usize = n;
    proof {
        assert(s.take(n as int) =~= s);
        assert(rest@.reverse() =~= Seq::<PitchContour>::empty());
        assert(kept_where(s, keep) =~= kept_where(s.take(n as int), keep) + rest@.reverse());
    }
    while k > 0
        invariant
            0 <= k <= n,
            n == s.len(),
            taken@ == s.take(k as int),
            mean_saliences@.len() == n,
            keep.len() == n,
            forall|c: int| 0 <= c < n ==> keep[c] == real_le(threshold, mean_saliences@[c]),
            kept_where(s, keep) == kept_where(s.take(k as int), keep) + rest@.reverse(),
        decreases k,
    {
        let ghost before = taken@;
        let c = taken.pop().unwrap();
        k = k - 1;
        proof {
            assert(before.drop_last() == s.take(k as int));
            assert(before.last() == c);
            assert(s.take(k + 1).drop_last() == s.take(k as int));
        }
        if bits_le(threshold, mean_saliences[k]) {
            let ghost r0 = rest@;
            rest.push(c);
            proof {
                assert(rest@.reverse() == seq![c] + r0.reverse());
                assert(kept_where(s.take(k + 1), keep) == kept_where(s.take(k as int), keep).push(c));
                assert(kept_where(s.take(k as int), keep).push(c) + r0.reverse() == kept_where(s.take(k as int), keep) + (seq![c] + r0.reverse()));
            }
        } else {
            proof {
                assert(kept_where(s.take(k + 1), keep) == kept_where(s.take(k as int), keep));
            }
        }
    }
    proof {
        assert(s.take(0) == Seq::<PitchContour>::empty());
        assert(kept_where(s.take(0), keep) == Seq::<PitchContour>::empty());
        assert(kept_where(s, keep) == rest@.reverse());
    }
    // reverse `rest` into `pitch_contours`
    let ghost target = rest@.reverse();
    while rest.len() > 0
        invariant
            pitch_contours@ + rest@.reverse() == target,
        decreases rest@.len(),
    {
        let ghost r0 = rest@;
        let ghost p0 = pitch_contours@;
        let c = rest.pop().unwrap();
        pitch_contours.push(c);
        proof {
            assert(r0 == rest@.push(c));
            assert(r0.reverse() == seq![c] + rest@.reverse());
            assert(p0 + r0.reverse() == p0.push(c) + rest@.reverse());
        }
    }
    proof {
        assert(rest@.reverse() == Seq::<PitchContour>::empty());
        assert(pitch_contours@ == target);
        let idx = lemma_kept_where_is_flagged_subsequence(s, keep);
        assert(subsequence_where(pitch_contours@, s, keep, idx));
    }
}

/// Whether every peak of every contour falls on a frame below `audio_len`.
pub open spec fn within_frames(cs: Seq<PitchContour>, audio_len: int) -> bool {
    forall|c: int|
        0 <= c < cs.len() ==> (#[trigger] cs[c]).peaks@.len() == 0 || cs[c].start
            + cs[c].peaks@.len() <= audio_len
}

/// The bin the contour has at frame `f`, if it has one.
pub open spec fn bin_at(c: PitchContour, f: int) -> Seq<usize> {
    if c.start <= f < c.start + c.peaks@.len() {
        seq![c.peaks@[f - c.start].bin]
    } else {
        seq![]
    }
}

/// The bins the contours have at frame `f`, in contour order.
pub open spec fn bins_at(cs: Seq<PitchContour>, f: int) -> Seq<usize>
    decreases cs.len(),
{
    if cs.len() == 0 {
        seq![]
    } else {
        bins_at(cs.drop_last(), f) + bin_at(cs.last(), f)
    }
}

/// Whether the contour has a peak at frame `f`.
pub open spec fn covers(c: PitchContour, f: int) -> bool {
    c.start <= f < c.start + c.peaks@.len()
}

/// The contours that have a peak at frame `f`, in contour order.
pub open spec fn covering(cs: Seq<PitchContour>, f: int) -> Seq<PitchContour> {
    cs.filter(|c: PitchContour| covers(c, f))
}

/// What is gathered at a frame is one bin from each contour that covers
/// it, in contour order: as many bins as covering contours, the `j`-th
/// being the `j`-th covering contour's bin there, so every peak of every
/// contour is among the bins of its frame.
pub proof fn lemma_bins_at_gathers_every_peak(cs: Seq<PitchContour>, f: int)
    ensures
        bins_at(cs, f).len() == covering(cs, f).len(),
        forall|j: int|
            0 <= j < covering(cs, f).len() ==> #[trigger] bins_at(cs, f)[j] == covering(cs, f)[j].peaks@[f
                - covering(cs, f)[j].start].bin,
        forall|c: int|
            0 <= c < cs.len() && covers(#[trigger] cs[c], f) ==> bins_at(cs, f).contains(
                cs[c].peaks@[f - cs[c].start].bin,
            ),
    decreases cs.len(),
{
    reveal(Seq::filter);
    if cs.len() > 0 {
        let d = cs.drop_last();
        let l = cs.last();
        lemma_bins_at_gathers_every_peak(d, f);
        let pred = |c: PitchContour| covers(c, f);
        assert(covering(cs, f) == (if pred(l) { d.filter(pred).push(l) } else { d.filter(pred) }));
        assert(covering(d, f) == d.filter(pred));
        let prev = bins_at(d, f);
        assert forall|c: int| 0 <= c < cs.len() && covers(#[trigger] cs[c], f) implies bins_at(cs, f).contains(
            cs[c].peaks@[f - cs[c].start].bin,
        ) by {
            if c < d.len() {
                assert(d[c] == cs[c]);
                let i = choose|i: int| 0 <= i < prev.len() && prev[i] == d[c].peaks@[f - d[c].start].bin;
                assert(bins_at(cs, f)[i] == prev[i]);
            } else {
                assert(bins_at(cs, f)[prev.len() as int] == l.peaks@[f - l.start].bin);
            }
        }
        assert forall|j: int| 0 <= j < covering(cs, f).len() implies #[trigger] bins_at(cs, f)[j]
            == covering(cs, f)[j].peaks@[f - covering(cs, f)[j].start].bin by {
            if j < covering(d, f).len() {
                assert(bins_at(cs, f)[j] == prev[j]);
                assert(covering(cs, f)[j] == covering(d, f)[j]);
            }
        }
    }
}

/// For each of the `audio_len` frames, the pitch bins the contours have
/// there, in contour order (the values whose mean is the melody pitch
/// mean): every peak of every contour is gathered at its frame, and a
/// frame holds exactly one bin per contour that covers it.
pub fn frame_pitch_bins(audio_len: usize, pitch_contours: &[PitchContour]) -> (pf: Vec<Vec<usize>>)
    requires
        within_frames(pitch_contours@, audio_len as int),
    ensures
        pf@.len() == audio_len,
        forall|f: int| 0 <= f < audio_len ==> (#[trigger] pf@[f])@ == bins_at(pitch_contours@, f),
        forall|f: int|
            0 <= f < audio_len ==> (#[trigger] pf@[f])@.len() == covering(pitch_contours@, f).len(),
        forall|f: int, j: int|
            0 <= f < audio_len && 0 <= j < covering(pitch_contours@, f).len() ==> (#[trigger] pf@[f])@[j]
                == (#[trigger] covering(pitch_contours@, f)[j]).peaks@[f - covering(pitch_contours@, f)[j].start].bin,
        forall|c: int, k: int|
            0 <= c < pitch_contours@.len() && 0 <= k < pitch_contours@[c].peaks@.len() ==> pf@[pitch_contours@[c].start
                + k]@.contains(#[trigger] pitch_contours@[c].peaks@[k].bin),
{
    let ghost cs = pitch_contours@;
    let mut pf: Vec<Vec<usize>> = Vec::new();
    let mut f: usize = 0;
    while f < audio_len
        invariant
            0 <= f <= audio_len,
            pf@.len() == f,
            forall|g: int| 0 <= g < f ==> (#[trigger] pf@[g])@ == Seq::<usize>::empty(),
        decreases audio_len - f,
    {
        pf.push(Vec::new());
        f = f + 1;
    }
    proof {
        assert forall|g: int| 0 <= g < audio_len implies (#[trigger] pf@[g])@ == bins_at(cs.take(0), g) by {
            assert(cs.take(0).len() == 0);
        }
    }
    let mut c: usize = 0;
    while c < pitch_contours.len()
        invariant
            0 <= c <= cs.len(),
            cs == pitch_contours@,
            within_frames(cs, audio_len as int),
            pf@.len() == audio_len,
            forall|g: int| 0 <= g < audio_len ==> (#[trigger] pf@[g])@ == bins_at(cs.take(c as int), g),
        decreases cs.len() - c,
    {
        let contour = &pitch_contours[c];
        let s = contour.start;
        let mut i: usize = 0;
        while i < contour.peaks.len()
            invariant
                0 <= c < cs.len(),
                *contour == cs[c as int],
                s == contour.start,
                0 <= i <= contour.peaks@.len(),
                contour.peaks@.len() == 0 || s + contour.peaks@.len() <= audio_len,
                pf@.len() == audio_len,
                forall|g: int|
                    0 <= g < audio_len ==> (#[trigger] pf@[g])@ == bins_at(cs.take(c as int), g) + (
                    if s <= g < s + i {
                        seq![contour.peaks@[g - s].bin]
                    } else {
                        seq![]
                    }),
            decreases contour.peaks@.len() - i,
        {
            let b = contour.peaks[i].bin;
            let ghost before = pf@;
            pf[s + i].push(b);
            proof {
                assert forall|g: int| 0 <= g < audio_len implies (#[trigger] pf@[g])@ == bins_at(
                    cs.take(c as int),
                    g,
                ) + (if s <= g < s + i + 1 {
                    seq![contour.peaks@[g - s].bin]
                } else {
                    seq![]
                }) by {
                    if g != s + i {
                        assert(pf@[g] == before[g]);
                    }
                }
            }
            i = i + 1;
        }
        proof {
            assert(cs.take(c + 1).drop_last() == cs.take(c as int));
            assert(cs.take(c + 1).last() == cs[c as int]);
            assert forall|g: int| 0 <= g < audio_len implies (#[trigger] pf@[g])@ == bins_at(
                cs.take(c + 1),
                g,
            ) by {
            }
        }
        c = c + 1;
    }
    proof {
        assert(cs.take(cs.len() as int) == cs);
        assert forall|f: int| 0 <= f < audio_len implies (#[trigger] pf@[f])@.len() == covering(cs, f).len()
            by {
            lemma_bins_at_gathers_every_peak(cs, f);
        }
        assert forall|f: int, j: int|
            0 <= f < audio_len && 0 <= j < covering(cs, f).len() implies (#[trigger] pf@[f])@[j]
                == (#[trigger] covering(cs, f)[j]).peaks@[f - covering(cs, f)[j].start].bin by {
            lemma_bins_at_gathers_every_peak(cs, f);
        }
        assert forall|c: int, k: int|
            0 <= c < cs.len() && 0 <= k < cs[c].peaks@.len() implies pf@[cs[c].start + k]@.contains(
                #[trigger] cs[c].peaks@[k].bin,
            ) by {
            let f = cs[c].start + k;
            assert(covers(cs[c], f));
            lemma_bins_at_gathers_every_peak(cs, f);
            assert(f - cs[c].start == k);
        }
    }
    pf
}

/// The candidate the contour offers at frame `f`: its bin there and the
/// contour's total salience.
pub open spec fn candidate_at(c: PitchContour, total: u32, f: int) -> Seq<(usize, u32)> {
    if c.start <= f < c.start + c.peaks@.len() {
        seq![(c.peaks@[f - c.start].bin, total)]
    } else {
        seq![]
    }
}

/// The candidates at frame `f`, in contour order.
pub open spec fn candidates_at(cs: Seq<PitchContour>, totals: Seq<u32>, f: int) -> Seq<(usize, u32)>
    decreases cs.len(),
{
    if cs.len() == 0 {
        seq![]
    } else {
        candidates_at(cs.drop_last(), totals, f) + candidate_at(cs.last(), totals[cs.len() - 1], f)
    }
}

/// Running choice over candidates: the greatest total seen so far
/// (starting from negative infinity) and its bin; a candidate replaces the
/// choice only when its total is strictly greater, so the first of equal
/// totals wins and NaN totals never win.
pub open spec fn strongest(cands: Seq<(usize, u32)>) -> (u32, Option<usize>)
    decreases cands.len(),
{
    if cands.len() == 0 {
        (NEG_INFINITY_BITS, None)
    } else {
        let (m, b) = strongest(cands.drop_last());
        let x = cands.last();
        if real_lt(m, x.1) {
            (x.1, Some(x.0))
        } else {
            (m, b)
        }
    }
}

/// For each of the `audio_len` frames, the bin of the peak whose contour
/// has the greatest total salience there (`totals[c]` is contour `c`'s
/// total salience, a bit pattern), or `None` when no contour passes
/// through the frame.
pub fn select_final_bins(audio_len: usize, pitch_contours: &[PitchContour], totals: &[u32]) -> (r: Vec<Option<usize>>)
    requires
        within_frames(pitch_contours@, audio_len as int),
        totals@.len() == pitch_contours@.len(),
    ensures
        r@.len() == audio_len,
        forall|f: int|
            0 <= f < audio_len ==> #[trigger] r@[f] == strongest(
                candidates_at(pitch_contours@, totals@, f),
            ).1,
{
    let ghost cs = pitch_contours@;
    let mut best: Vec<u32> = Vec::new();
    let mut chosen: Vec<Option<usize>> = Vec::new();
    let mut f: usize = 0;
    while f < audio_len
        invariant
            0 <= f <= audio_len,
            best@.len() == f,
            chosen@.len() == f,
            forall|g: int| 0 <= g < f ==> #[trigger] best@[g] == NEG_INFINITY_BITS && chosen@[g] is None,
        decreases audio_len - f,
    {
        best.push(NEG_INFINITY_BITS);
        chosen.push(None);
        f = f + 1;
    }
    proof {
        assert forall|g: int| 0 <= g < audio_len implies (best@[g], #[trigger] chosen@[g]) == strongest(
            candidates_at(cs.take(0), totals@, g),
        ) by {
            assert(cs.take(0).len() == 0);
        }
    }
    let mut c: usize = 0;
    while c < pitch_contours.len()
        invariant
            0 <= c <= cs.len(),
            cs == pitch_contours@,
            totals@.len() == cs.len(),
            within_frames(cs, audio_len as int),
            best@.len() == audio_len,
            chosen@.len() == audio_len,
            forall|g: int|
                0 <= g < audio_len ==> (best@[g], #[trigger] chosen@[g]) == strongest(
                    candidates_at(cs.take(c as int), totals@, g),
                ),
        decreases cs.len() - c,
    {
        let contour = &pitch_contours[c];
        let t = totals[c];
        let s = contour.start;
        let mut i: usize = 0;
        while i < contour.peaks.len()
            invariant
                0 <= c < cs.len(),
                *contour == cs[c as int],
                totals@.len() == cs.len(),
                t == totals@[c as int],
                s == contour.start,
                0 <= i <= contour.peaks@.len(),
                contour.peaks@.len() == 0 || s + contour.peaks@.len() <= audio_len,
                best@.len() == audio_len,
                chosen@.len() == audio_len,
                forall|g: int|
                    0 <= g < audio_len ==> (best@[g], #[trigger] chosen@[g]) == strongest(
                        candidates_at(cs.take(c as int), totals@, g) + (if s <= g < s + i {
                            seq![(contour.peaks@[g - s].bin, t)]
                        } else {
                            seq![]
                        }),
                    ),
            decreases contour.peaks@.len() - i,
        {
            let b = contour.peaks[i].bin;
            let g = s + i;
            let ghost best0 = best@;
            let ghost chosen0 = chosen@;
            let ghost prefix = candidates_at(cs.take(c as int), totals@, g as int);
            if bits_lt(best[g], t) {
                best.set(g, t);
                chosen.set(g, Some(b));
            }
            proof {
                let ext = prefix.push((b, t));
                assert(ext.drop_last() == prefix);
                assert(prefix + seq![(b, t)] == ext);
                assert(prefix + Seq::<(usize, u32)>::empty() == prefix);
                assert forall|h: int| 0 <= h < audio_len implies (best@[h], #[trigger] chosen@[h]) == strongest(
                    candidates_at(cs.take(c as int), totals@, h) + (if s <= h < s + i + 1 {
                        seq![(contour.peaks@[h - s].bin, t)]
                    } else {
                        seq![]
                    }),
                ) by {
                    if h != g {
                        assert(best@[h] == best0[h] && chosen@[h] == chosen0[h]);
                    } else {
                        assert((best0[h], chosen0[h]) == strongest(prefix));
                        assert(contour.peaks@[h - s].bin == b);
                        assert(strongest(ext).0 == best@[h] && strongest(ext).1 == chosen@[h]);
                    }
                }
            }
            i = i + 1;
        }
        proof {
            assert(cs.take(c + 1).drop_last() == cs.take(c as int));
            assert(cs.take(c + 1).last() == cs[c as int]);
            assert forall|g: int| 0 <= g < audio_len implies (best@[g], #[trigger] chosen@[g]) == strongest(
                candidates_at(cs.take(c + 1), totals@, g),
            ) by {
                let pre = candidates_at(cs.take(c as int), totals@, g);
                assert(pre + Seq::<(usize, u32)>::empty() == pre);
            }
        }
        c = c + 1;
    }
    proof {
        assert(cs.take(cs.len() as int) == cs);
    }
    chosen
}

/// Bit pattern of 115, the lower end of the octave band of mean bin
/// distances (a bin is a tenth of a semitone).
pub const OCTAVE_LOW_BITS: u32 = 0x42e6_0000u32;

/// Bit pattern of 125, the upper end of the octave band.
pub const OCTAVE_HIGH_BITS: u32 = 0x42fa_0000u32;

/// Bit pattern of 60: a contour this far from the melody pitch mean is far.
pub const FAR_DISTANCE_BITS: u32 = 0x4270_0000u32;

/// Bit pattern of 120: a contour whose mean pitch is this far from the
/// melody pitch mean is an outlier.
pub const OUTLIER_DISTANCE_BITS: u32 = 0x42f0_0000u32;

/// Which of two overlapping contours compared for an octave error goes.
#[derive(Clone, Copy, Debug, PartialEq, Eq, Structural)]
pub enum OctaveVerdict {
    Keep,
    DropFirst,
    DropSecond,
}

/// What the comparison of two overlapping contours, the first before the
/// second in sorted order, rests on; all values are bit patterns of
/// single-precision numbers.
#[derive(Clone, Copy, Debug, PartialEq, Eq, Structural)]
pub struct OctaveEvidence {
    /// Mean distance, in bins, between the contours over their overlap.
    pub mean_overlap: u32,
    /// Total salience of the first contour.
    pub first_total: u32,
    /// Total salience of the second contour.
    pub second_total: u32,
    /// Half the total salience of the second contour.
    pub half_second_total: u32,
    /// Distance of the first contour's mean salience from the mean melody
    /// pitch over the overlap.
    pub first_distance: u32,
    /// Distance of the second contour's mean salience from that mean.
    pub second_distance: u32,
}

/// The decision on two overlapping contours: none goes unless they lie
/// about an octave apart; then the first goes if its total salience is
/// below half the second's, the second goes if its own total is below its
/// half; otherwise, when both are far from the melody pitch mean, the one
/// with the smaller total goes (the second on a tie), and else the one
/// farther from it (the second on a tie).
pub open spec fn verdict_of(e: OctaveEvidence) -> OctaveVerdict {
    if !(real_le(OCTAVE_LOW_BITS, e.mean_overlap) && real_le(e.mean_overlap, OCTAVE_HIGH_BITS)) {
        OctaveVerdict::Keep
    } else if real_lt(e.first_total, e.half_second_total) {
        OctaveVerdict::DropFirst
    } else if real_lt(e.second_total, e.half_second_total) {
        OctaveVerdict::DropSecond
    } else if real_lt(FAR_DISTANCE_BITS, e.first_distance) && real_lt(FAR_DISTANCE_BITS, e.second_distance) {
        if real_lt(e.first_total, e.second_total) {
            OctaveVerdict::DropFirst
        } else {
            OctaveVerdict::DropSecond
        }
    } else if real_lt(e.second_distance, e.first_distance) {
        OctaveVerdict::DropFirst
    } else {
        OctaveVerdict::DropSecond
    }
}

/// How two overlapping contours are judged, case by case: contours whose
/// mean distance lies outside [115, 125] bins are both kept; otherwise a
/// first contour whose total is below half the second's goes; otherwise
/// a second contour whose total is below its own half (a negative total)
/// goes; otherwise, when both mean saliences are more than 60 from the
/// melody pitch mean, the smaller total goes (the second on a tie); and
/// otherwise only the distances decide: the first goes exactly when the
/// second is the closer one.
pub proof fn lemma_octave_verdict_cases(e: OctaveEvidence)
    ensures
        !(real_le(OCTAVE_LOW_BITS, e.mean_overlap) && real_le(e.mean_overlap, OCTAVE_HIGH_BITS))
            ==> verdict_of(e) == OctaveVerdict::Keep,
        real_le(OCTAVE_LOW_BITS, e.mean_overlap) && real_le(e.mean_overlap, OCTAVE_HIGH_BITS)
            && real_lt(e.first_total, e.half_second_total) ==> verdict_of(e) == OctaveVerdict::DropFirst,
        real_le(OCTAVE_LOW_BITS, e.mean_overlap) && real_le(e.mean_overlap, OCTAVE_HIGH_BITS)
            && !real_lt(e.first_total, e.half_second_total) && real_lt(e.second_total, e.half_second_total)
            ==> verdict_of(e) == OctaveVerdict::DropSecond,
        real_le(OCTAVE_LOW_BITS, e.mean_overlap) && real_le(e.mean_overlap, OCTAVE_HIGH_BITS)
            && !real_lt(e.first_total, e.half_second_total) && !real_lt(e.second_total, e.half_second_total)
            && real_lt(FAR_DISTANCE_BITS, e.first_distance) && real_lt(FAR_DISTANCE_BITS, e.second_distance)
            ==> verdict_of(e) == (if real_lt(e.first_total, e.second_total) {
                OctaveVerdict::DropFirst
            } else {
                OctaveVerdict::DropSecond
            }),
        real_le(OCTAVE_LOW_BITS, e.mean_overlap) && real_le(e.mean_overlap, OCTAVE_HIGH_BITS)
            && !real_lt(e.first_total, e.half_second_total) && !real_lt(e.second_total, e.half_second_total)
            && !(real_lt(FAR_DISTANCE_BITS, e.first_distance) && real_lt(FAR_DISTANCE_BITS, e.second_distance))
            ==> verdict_of(e) == (if real_lt(e.second_distance, e.first_distance) {
                OctaveVerdict::DropFirst
            } else {
                OctaveVerdict::DropSecond
            }),
        verdict_of(e) == OctaveVerdict::Keep <==> !(real_le(OCTAVE_LOW_BITS, e.mean_overlap) && real_le(
            e.mean_overlap,
            OCTAVE_HIGH_BITS,
        )),
{
}

/// Decides which of two overlapping contours goes (see `verdict_of`).
pub fn octave_verdict(e: &OctaveEvidence) -> (v: OctaveVerdict)
    ensures
        v == verdict_of(*e),
        real_le(OCTAVE_LOW_BITS, e.mean_overlap) && real_le(e.mean_overlap, OCTAVE_HIGH_BITS)
            && real_lt(e.first_total, e.half_second_total) ==> v == OctaveVerdict::DropFirst,
        real_le(OCTAVE_LOW_BITS, e.mean_overlap) && real_le(e.mean_overlap, OCTAVE_HIGH_BITS)
            && !real_lt(e.first_total, e.half_second_total) && !real_lt(e.second_total, e.half_second_total)
            && !(real_lt(FAR_DISTANCE_BITS, e.first_distance) && real_lt(FAR_DISTANCE_BITS, e.second_distance))
            ==> (v == OctaveVerdict::DropFirst <==> real_lt(e.second_distance, e.first_distance)) && v
            != OctaveVerdict::Keep,
{
    proof {
        lemma_octave_verdict_cases(*e);
    }
    if !(bits_le(OCTAVE_LOW_BITS, e.mean_overlap) && bits_le(e.mean_overlap, OCTAVE_HIGH_BITS)) {
        OctaveVerdict::Keep
    } else if bits_lt(e.first_total, e.half_second_total) {
        OctaveVerdict::DropFirst
    } else if bits_lt(e.second_total, e.half_second_total) {
        OctaveVerdict::DropSecond
    } else if bits_lt(FAR_DISTANCE_BITS, e.first_distance) && bits_lt(FAR_DISTANCE_BITS, e.second_distance) {
        if bits_lt(e.first_total, e.second_total) {
            OctaveVerdict::DropFirst
        } else {
            OctaveVerdict::DropSecond
        }
    } else if bits_lt(e.second_distance, e.first_distance) {
        OctaveVerdict::DropFirst
    } else {
        OctaveVerdict::DropSecond
    }
}

/// The frames over which `first` and `second` are compared, as a half-open
/// range: from the later start to the earlier end, cut at `mpm_len`.
pub open spec fn overlap_of(first: PitchContour, second: PitchContour, mpm_len: int) -> (int, int) {
    let lo = if first.start >= second.start { first.start as int } else { second.start as int };
    let last = if first.end <= second.end { first.end as int } else { second.end as int };
    let hi = if last + 1 <= mpm_len { last + 1 } else { mpm_len };
    (lo, hi)
}

/// The overlap's peaks can be read: the frame after the earlier end is a
/// machine index, and every compared frame has a peak in the first
/// contour at its own frame and in the second at the same offset from
/// the overlap's start.
pub open spec fn overlap_readable(first: PitchContour, second: PitchContour, mpm_len: int) -> bool {
    let (lo, hi) = overlap_of(first, second, mpm_len);
    &&& first.end < usize::MAX && second.end < usize::MAX
    &&& lo < hi ==> hi - 1 - first.start < first.peaks@.len() && hi - 1 - lo < second.peaks@.len()
}

/// The half-open range of frames over which two contours are compared.
pub fn overlap_span(first: &PitchContour, second: &PitchContour, mpm_len: usize) -> (r: (usize, usize))
    requires
        first.end < usize::MAX,
        second.end < usize::MAX,
    ensures
        r.0 == overlap_of(*first, *second, mpm_len as int).0,
        r.1 == overlap_of(*first, *second, mpm_len as int).1,
{
    let lo = if first.start >= second.start { first.start } else { second.start };
    let last = if first.end <= second.end { first.end } else { second.end };
    let hi = if last + 1 <= mpm_len { last + 1 } else { mpm_len };
    (lo, hi)
}

/// Distance between two bins.
pub open spec fn bin_distance(a: usize, b: usize) -> int {
    if a >= b {
        a - b
    } else {
        b - a
    }
}

/// Bin distances between the contours over their overlap: at each frame
/// `r` of the overlap, the first contour's bin at `r` against the second
/// contour's bin at offset `r - lo` from its own first peak, `lo` being
/// the overlap's start.
pub fn overlap_distances(first: &PitchContour, second: &PitchContour, mpm_len: usize) -> (d: Vec<usize>)
    requires
        overlap_readable(*first, *second, mpm_len as int),
    ensures
        ({
            let (lo, hi) = overlap_of(*first, *second, mpm_len as int);
            &&& d@.len() == (if lo < hi { hi - lo } else { 0 })
            &&& forall|k: int|
                0 <= k < d@.len() ==> #[trigger] d@[k] == bin_distance(
                    first.peaks@[lo + k - first.start].bin,
                    second.peaks@[k].bin,
                )
        }),
{
    let (lo, hi) = overlap_span(first, second, mpm_len);
    let mut d: Vec<usize> = Vec::new();
    let mut r: usize = lo;
    while r < hi
        invariant
            lo <= r,
            lo < hi ==> r <= hi,
            lo >= hi ==> r == lo,
            lo == overlap_of(*first, *second, mpm_len as int).0,
            hi == overlap_of(*first, *second, mpm_len as int).1,
            overlap_readable(*first, *second, mpm_len as int),
            first.start <= lo,
            d@.len() == r - lo,
            forall|k: int|
                0 <= k < d@.len() ==> #[trigger] d@[k] == bin_distance(
                    first.peaks@[lo + k - first.start].bin,
                    second.peaks@[k].bin,
                ),
        decreases hi - r,
    {
        let a = first.peaks[r - first.start].bin;
        let b = second.peaks[r - lo].bin;
        d.push(if a >= b { a - b } else { b - a });
        r = r + 1;
    }
    assert(lo < hi ==> d@.len() == hi - lo);
    assert(lo >= hi ==> d@.len() == 0);
    d
}

/// `del` after the verdict on the pair `(i, j)`.
pub open spec fn judged(del: Seq<bool>, v: OctaveVerdict, i: int, j: int) -> Seq<bool> {
    match v {
        OctaveVerdict::Keep => del,
        OctaveVerdict::DropFirst => del.update(i, true),
        OctaveVerdict::DropSecond => del.update(j, true),
    }
}

/// Comparing contour `i` with the contours from `j` on: it stops at the
/// first contour that starts after `i` ends, or as soon as `i` is marked;
/// marked contours are passed over; each other one is judged with `i`.
pub open spec fn row_from(
    cs: Seq<PitchContour>,
    verdicts: Seq<Vec<OctaveVerdict>>,
    del: Seq<bool>,
    i: int,
    j: int,
) -> Seq<bool>
    decreases cs.len() - j,
{
    if j >= cs.len() || j < 0 || cs[j].start > cs[i].end || del[i] {
        del
    } else if del[j] {
        row_from(cs, verdicts, del, i, j + 1)
    } else {
        row_from(cs, verdicts, judged(del, verdicts[i]@[j], i, j), i, j + 1)
    }
}

/// Comparing each contour from `i` on with the contours after it.
pub open spec fn rows_from(
    cs: Seq<PitchContour>,
    verdicts: Seq<Vec<OctaveVerdict>>,
    del: Seq<bool>,
    i: int,
) -> Seq<bool>
    decreases cs.len() - i,
{
    if i + 1 >= cs.len() || i < 0 {
        del
    } else {
        rows_from(cs, verdicts, row_from(cs, verdicts, del, i, i + 1), i + 1)
    }
}

/// No contour marked.
pub open spec fn unmarked(n: nat) -> Seq<bool> {
    Seq::new(n, |k: int| false)
}

/// The contours marked for removal as octave duplicates, given the verdict
/// `verdicts[i][j]` on each pair `i < j`: contours are compared in order,
/// each with the later ones, as `rows_from` describes.
pub fn octave_deletions(pitch_contours: &[PitchContour], verdicts: &Vec<Vec<OctaveVerdict>>) -> (del: Vec<bool>)
    requires
        verdicts@.len() == pitch_contours@.len(),
        forall|i: int| 0 <= i < verdicts@.len() ==> (#[trigger] verdicts@[i])@.len() == pitch_contours@.len(),
    ensures
        del@ == rows_from(pitch_contours@, verdicts@, unmarked(pitch_contours@.len()), 0),
{
    let ghost cs = pitch_contours@;
    let n = pitch_contours.len();
    let mut del: Vec<bool> = Vec::new();
    let mut k: usize = 0;
    while k < n
        invariant
            0 <= k <= n,
            del@.len() == k,
            forall|q: int| 0 <= q < k ==> !(#[trigger] del@[q]),
        decreases n - k,
    {
        del.push(false);
        k = k + 1;
    }
    assert(del@ == Seq::new(n as nat, |k: int| false));
    let ghost target = rows_from(cs, verdicts@, del@, 0);
    let mut i: usize = 0;
    while i + 1 < n
        invariant
            n == cs.len(),
            cs == pitch_contours@,
            i < n || (n == 0 && i == 0),
            del@.len() == n,
            verdicts@.len() == n,
            forall|i: int| 0 <= i < verdicts@.len() ==> (#[trigger] verdicts@[i])@.len() == n,
            rows_from(cs, verdicts@, del@, i as int) == target,
        decreases n - i,
    {
        let ghost d0 = del@;
        let mut j: usize = i + 1;
        while j < n
            invariant
                n == cs.len(),
                cs == pitch_contours@,
                i < j <= n,
                del@.len() == n,
                verdicts@.len() == n,
                forall|i: int| 0 <= i < verdicts@.len() ==> (#[trigger] verdicts@[i])@.len() == n,
                row_from(cs, verdicts@, d0, i as int, i + 1) == row_from(cs, verdicts@, del@, i as int, j as int),
            ensures
                del@.len() == n,
                row_from(cs, verdicts@, d0, i as int, i + 1) == del@,
            decreases n - j,
        {
            if pitch_contours[j].start > pitch_contours[i].end || del[i] {
                break;
            }
            if del[j] {
                j = j + 1;
                continue;
            }
            match verdicts[i][j] {
                OctaveVerdict::Keep => {},
                OctaveVerdict::DropFirst => {
                    del.set(i, true);
                },
                OctaveVerdict::DropSecond => {
                    del.set(j, true);
                },
            }
            j = j + 1;
        }
        i = i + 1;
    }
    del
}

/// Flags of the contours whose mean pitch is at least 120 bins (a distance
/// given as a bit pattern) from the melody pitch mean over their frames.
pub open spec fn outlier_flags(pitch_distances: Seq<u32>) -> Seq<bool> {
    Seq::new(pitch_distances.len(), |c: int| real_le(OUTLIER_DISTANCE_BITS, pitch_distances[c]))
}

/// Removes the contours whose mean pitch lies at least 120 bins from the
/// melody pitch mean over their frames (`pitch_distances[c]`, bit
/// patterns), by swap-removal from the highest index down.
pub fn remove_pitch_outliers(pitch_contours: &mut Vec<PitchContour>, pitch_distances: &[u32])
    requires
        pitch_distances@.len() == old(pitch_contours)@.len(),
    ensures
        final(pitch_contours)@ == swept_from(old(pitch_contours)@, outlier_flags(pitch_distances@), 0),
{
    let mut flags: Vec<bool> = Vec::new();
    let mut c: usize = 0;
    while c < pitch_distances.len()
        invariant
            0 <= c <= pitch_distances@.len(),
            flags@ == outlier_flags(pitch_distances@).take(c as int),
        decreases pitch_distances@.len() - c,
    {
        flags.push(bits_le(OUTLIER_DISTANCE_BITS, pitch_distances[c]));
        c = c + 1;
    }
    assert(flags@ == outlier_flags(pitch_distances@));
    remove_flagged(pitch_contours, &flags);
}

/// The running choice is the first greatest candidate: when a bin is
/// chosen, it comes with a candidate whose total no candidate exceeds and
/// that no earlier candidate matches or exceeds; when none is chosen, no
/// candidate's total is above negative infinity.
pub proof fn lemma_strongest_is_first_maximum(cands: Seq<(usize, u32)>)
    ensures
        !crate::real_bits::is_nan(strongest(cands).0),
        forall|m: int| 0 <= m < cands.len() ==> !real_lt(strongest(cands).0, #[trigger] cands[m].1),
        strongest(cands).1 is None ==> strongest(cands).0 == NEG_INFINITY_BITS,
        strongest(cands).1 is None ==> forall|m: int|
            0 <= m < cands.len() ==> !real_lt(NEG_INFINITY_BITS, #[trigger] cands[m].1),
        strongest(cands).1 matches Some(b) ==> exists|k: int|
            0 <= k < cands.len() && #[trigger] cands[k] == (b, strongest(cands).0) && forall|m: int|
                0 <= m < k ==> !real_le(strongest(cands).0, #[trigger] cands[m].1),
    decreases cands.len(),
{
    if cands.len() > 0 {
        let pre = cands.drop_last();
        lemma_strongest_is_first_maximum(pre);
        let (m0, b0) = strongest(pre);
        let x = cands.last();
        assert forall|m: int| 0 <= m < cands.len() - 1 implies #[trigger] cands[m] == pre[m] by {}
        if real_lt(m0, x.1) {
            let k = cands.len() - 1;
            assert(cands[k] == (x.0, x.1));
            assert forall|m: int| 0 <= m < k implies !real_le(x.1, #[trigger] cands[m].1) by {
                assert(cands[m] == pre[m]);
                assert(!real_lt(m0, pre[m].1));
                crate::real_bits::lemma_real_order(pre[m].1, m0, x.1);
                crate::real_bits::lemma_real_order(x.1, pre[m].1, m0);
            }
            assert forall|m: int| 0 <= m < cands.len() implies !real_lt(x.1, #[trigger] cands[m].1) by {
                if m < k {
                    assert(cands[m] == pre[m]);
                    crate::real_bits::lemma_real_order(pre[m].1, m0, x.1);
                    crate::real_bits::lemma_real_order(x.1, pre[m].1, m0);
                } else {
                    crate::real_bits::lemma_real_order(x.1, x.1, x.1);
                }
            }
        } else {
            assert(!real_lt(m0, cands[cands.len() - 1].1));
            if b0 is Some {
                let k = choose|k: int|
                    0 <= k < pre.len() && #[trigger] pre[k] == (b0->0, m0) && forall|m: int|
                        0 <= m < k ==> !real_le(m0, #[trigger] pre[m].1);
                assert(cands[k] == pre[k]);
                assert forall|m: int| 0 <= m < k implies !real_le(m0, #[trigger] cands[m].1) by {
                    assert(cands[m] == pre[m]);
                }
            }
        }
    }
}

/// The items of `s` at unflagged indices from `k` on, as a multiset.
pub open spec fn unflagged_from<T>(s: Seq<T>, flags: Seq<bool>, k: int) -> Multiset<T>
    decreases s.len() - k,
{
    if k >= s.len() || k < 0 {
        Multiset::empty()
    } else {
        let rest = unflagged_from(s, flags, k + 1);
        if flags[k] {
            rest
        } else {
            rest.insert(s[k])
        }
    }
}

proof fn lemma_swept_multiset<T>(s: Seq<T>, flags: Seq<bool>, k: int)
    requires
        0 <= k <= s.len(),
        flags.len() == s.len(),
    ensures
        swept_from(s, flags, k).to_multiset() =~= s.take(k).to_multiset().add(unflagged_from(s, flags, k)),
    decreases s.len() - k,
{
    broadcast use vstd::seq_lib::group_to_multiset_ensures, vstd::multiset::group_multiset_axioms;

    if k == s.len() {
        assert(s.take(k) == s);
    } else {
        lemma_swept_multiset(s, flags, k + 1);
        lemma_swept_len(s, flags, k + 1);
        let t = swept_from(s, flags, k + 1);
        assert(s.take(k + 1) == s.take(k).push(s[k]));
        assert(t[k] == s[k]);
        if flags[k] {
            let u = t.update(k, t.last());
            assert(u.last() == t.last());
            assert(swap_removed(t, k) == u.drop_last());
            assert(u.drop_last() == u.remove(u.len() - 1));
            assert(u.drop_last().to_multiset() =~= u.to_multiset().remove(u.last()));
            assert(u.to_multiset() =~= t.to_multiset().insert(t.last()).remove(t[k]));
        }
    }
}

/// Swap-removing the flagged items keeps exactly the unflagged ones: the
/// result holds the items at unflagged indices, each as often as there.
pub proof fn lemma_swept_keeps_unflagged<T>(s: Seq<T>, flags: Seq<bool>)
    requires
        flags.len() == s.len(),
    ensures
        swept_from(s, flags, 0).to_multiset() =~= unflagged_from(s, flags, 0),
{
    broadcast use vstd::seq_lib::group_to_multiset_ensures, vstd::multiset::group_multiset_axioms;

    lemma_swept_multiset(s, flags, 0);
    assert(s.take(0).len() == 0);
    assert(s.take(0).to_multiset() =~= Multiset::empty());
}

/// Verdicts only ever mark contours: a mark once set stays.
proof fn lemma_row_marks_stay(
    cs: Seq<PitchContour>,
    verdicts: Seq<Vec<OctaveVerdict>>,
    del: Seq<bool>,
    i: int,
    j: int,
)
    requires
        0 <= i < cs.len(),
        del.len() == cs.len(),
        j > i,
    ensures
        row_from(cs, verdicts, del, i, j).len() == del.len(),
        forall|x: int| 0 <= x < del.len() && del[x] ==> #[trigger] row_from(cs, verdicts, del, i, j)[x],
    decreases cs.len() - j,
{
    if j >= cs.len() || j < 0 || cs[j].start > cs[i].end || del[i] {
    } else if del[j] {
        lemma_row_marks_stay(cs, verdicts, del, i, j + 1);
    } else {
        let d2 = judged(del, verdicts[i]@[j], i, j);
        lemma_row_marks_stay(cs, verdicts, d2, i, j + 1);
    }
}

proof fn lemma_rows_marks_stay(
    cs: Seq<PitchContour>,
    verdicts: Seq<Vec<OctaveVerdict>>,
    del: Seq<bool>,
    i: int,
)
    requires
        0 <= i,
        del.len() == cs.len(),
    ensures
        rows_from(cs, verdicts, del, i).len() == del.len(),
        forall|x: int| 0 <= x < del.len() && del[x] ==> #[trigger] rows_from(cs, verdicts, del, i)[x],
    decreases cs.len() - i,
{
    if i + 1 >= cs.len() {
    } else {
        let r = row_from(cs, verdicts, del, i, i + 1);
        lemma_row_marks_stay(cs, verdicts, del, i, i + 1);
        lemma_rows_marks_stay(cs, verdicts, r, i + 1);
    }
}

proof fn lemma_row_keep(
    cs: Seq<PitchContour>,
    verdicts: Seq<Vec<OctaveVerdict>>,
    del: Seq<bool>,
    i: int,
    j0: int,
    j: int,
)
    requires
        0 <= i < j0 <= j < cs.len(),
        del.len() == cs.len(),
        forall|m: int| j0 <= m <= j ==> (#[trigger] cs[m]).start <= cs[i].end,
        !row_from(cs, verdicts, del, i, j0)[i],
        !row_from(cs, verdicts, del, i, j0)[j],
    ensures
        verdicts[i]@[j] == OctaveVerdict::Keep,
    decreases j - j0,
{
    assert(cs[j0].start <= cs[i].end);
    lemma_row_marks_stay(cs, verdicts, del, i, j0);
    if del[j0] {
        lemma_row_keep(cs, verdicts, del, i, j0 + 1, j);
    } else {
        let d2 = judged(del, verdicts[i]@[j0], i, j0);
        lemma_row_marks_stay(cs, verdicts, d2, i, j0 + 1);
        if j0 == j {
            assert(!d2[i] && !d2[j]);
        } else {
            lemma_row_keep(cs, verdicts, d2, i, j0 + 1, j);
        }
    }
}

proof fn lemma_rows_keep(
    cs: Seq<PitchContour>,
    verdicts: Seq<Vec<OctaveVerdict>>,
    del: Seq<bool>,
    a: int,
    i: int,
    j: int,
)
    requires
        0 <= a <= i < j < cs.len(),
        del.len() == cs.len(),
        forall|m: int| i < m <= j ==> (#[trigger] cs[m]).start <= cs[i].end,
        !rows_from(cs, verdicts, del, a)[i],
        !rows_from(cs, verdicts, del, a)[j],
    ensures
        verdicts[i]@[j] == OctaveVerdict::Keep,
    decreases i - a,
{
    let r = row_from(cs, verdicts, del, a, a + 1);
    lemma_row_marks_stay(cs, verdicts, del, a, a + 1);
    lemma_rows_marks_stay(cs, verdicts, r, a + 1);
    if a == i {
        lemma_row_keep(cs, verdicts, del, i, i + 1, j);
    } else {
        lemma_rows_keep(cs, verdicts, r, a + 1, i, j);
    }
}

/// Two contours that both survive the octave check were judged compatible
/// if they were compared, that is, if no contour between them (the second
/// included) starts after the first ends.
pub proof fn lemma_survivors_were_compatible(
    cs: Seq<PitchContour>,
    verdicts: Seq<Vec<OctaveVerdict>>,
    i: int,
    j: int,
)
    requires
        0 <= i < j < cs.len(),
        forall|m: int| i < m <= j ==> (#[trigger] cs[m]).start <= cs[i].end,
        !rows_from(cs, verdicts, unmarked(cs.len()), 0)[i],
        !rows_from(cs, verdicts, unmarked(cs.len()), 0)[j],
    ensures
        verdicts[i]@[j] == OctaveVerdict::Keep,
{
    lemma_rows_keep(cs, verdicts, unmarked(cs.len()), 0, i, j);
}

/// Some verdict on a pair `a < b` among the first `n` contours drops `x`.
pub open spec fn condemned(verdicts: Seq<Vec<OctaveVerdict>>, n: int, x: int) -> bool {
    exists|a: int, b: int|
        0 <= a < b < n && ((x == a && #[trigger] verdicts[a]@[b] == OctaveVerdict::DropFirst) || (x
            == b && verdicts[a]@[b] == OctaveVerdict::DropSecond))
}

proof fn lemma_row_marks_condemned(
    cs: Seq<PitchContour>,
    verdicts: Seq<Vec<OctaveVerdict>>,
    del: Seq<bool>,
    i: int,
    j: int,
)
    requires
        0 <= i < j,
        i < cs.len(),
        del.len() == cs.len(),
    ensures
        forall|x: int|
            0 <= x < del.len() && #[trigger] row_from(cs, verdicts, del, i, j)[x] ==> del[x]
                || condemned(verdicts, cs.len() as int, x),
    decreases cs.len() - j,
{
    lemma_row_marks_stay(cs, verdicts, del, i, j);
    if j >= cs.len() || j < 0 || cs[j].start > cs[i].end || del[i] {
    } else if del[j] {
        lemma_row_marks_condemned(cs, verdicts, del, i, j + 1);
        assert(row_from(cs, verdicts, del, i, j) == row_from(cs, verdicts, del, i, j + 1));
    } else {
        let v = verdicts[i]@[j];
        let d2 = judged(del, v, i, j);
        assert(d2.len() == del.len());
        lemma_row_marks_condemned(cs, verdicts, d2, i, j + 1);
        assert(row_from(cs, verdicts, del, i, j) == row_from(cs, verdicts, d2, i, j + 1));
        assert forall|x: int|
            0 <= x < del.len() && #[trigger] row_from(cs, verdicts, del, i, j)[x] implies del[x]
                || condemned(verdicts, cs.len() as int, x) by {
            assert(d2[x] || condemned(verdicts, cs.len() as int, x));
            if d2[x] && !del[x] {
                if v == OctaveVerdict::DropFirst {
                    assert(x == i);
                    assert(verdicts[i]@[j] == OctaveVerdict::DropFirst);
                } else {
                    assert(v == OctaveVerdict::DropSecond && x == j);
                    assert(verdicts[i]@[j] == OctaveVerdict::DropSecond);
                }
            }
        }
    }
}

proof fn lemma_rows_marks_condemned(
    cs: Seq<PitchContour>,
    verdicts: Seq<Vec<OctaveVerdict>>,
    del: Seq<bool>,
    i: int,
)
    requires
        0 <= i,
        del.len() == cs.len(),
    ensures
        forall|x: int|
            0 <= x < del.len() && #[trigger] rows_from(cs, verdicts, del, i)[x] ==> del[x]
                || condemned(verdicts, cs.len() as int, x),
    decreases cs.len() - i,
{
    lemma_rows_marks_stay(cs, verdicts, del, i);
    if i + 1 >= cs.len() {
    } else {
        let r = row_from(cs, verdicts, del, i, i + 1);
        lemma_row_marks_stay(cs, verdicts, del, i, i + 1);
        lemma_row_marks_condemned(cs, verdicts, del, i, i + 1);
        lemma_rows_marks_condemned(cs, verdicts, r, i + 1);
        assert forall|x: int|
            0 <= x < del.len() && #[trigger] rows_from(cs, verdicts, del, i)[x] implies del[x]
                || condemned(verdicts, cs.len() as int, x) by {
            assert(rows_from(cs, verdicts, r, i + 1)[x]);
            if r[x] {
                assert(row_from(cs, verdicts, del, i, i + 1)[x]);
            }
        }
    }
}

/// A contour is removed as an octave duplicate only if some verdict on a
/// pair it belongs to drops it.
pub proof fn lemma_removed_were_condemned(cs: Seq<PitchContour>, verdicts: Seq<Vec<OctaveVerdict>>, x: int)
    requires
        0 <= x < cs.len(),
        rows_from(cs, verdicts, unmarked(cs.len()), 0)[x],
    ensures
        condemned(verdicts, cs.len() as int, x),
{
    lemma_rows_marks_condemned(cs, verdicts, unmarked(cs.len()), 0);
}

/// When every verdict on a pair keeps both contours, the octave check
/// marks nothing: a pass over contours already judged compatible removes
/// none of them.
pub proof fn lemma_all_kept_marks_nothing(cs: Seq<PitchContour>, verdicts: Seq<Vec<OctaveVerdict>>)
    requires
        forall|a: int, b: int|
            0 <= a < b < cs.len() ==> #[trigger] verdicts[a]@[b] == OctaveVerdict::Keep,
    ensures
        rows_from(cs, verdicts, unmarked(cs.len()), 0).len() == cs.len(),
        forall|x: int| 0 <= x < cs.len() ==> !#[trigger] rows_from(cs, verdicts, unmarked(cs.len()), 0)[x],
{
    let init = unmarked(cs.len());
    lemma_rows_marks_stay(cs, verdicts, init, 0);
    assert forall|x: int|
        0 <= x < cs.len() implies !#[trigger] rows_from(cs, verdicts, init, 0)[x] by {
        if rows_from(cs, verdicts, init, 0)[x] {
            lemma_removed_were_condemned(cs, verdicts, x);
            let (a, b) = choose|a: int, b: int|
                0 <= a < b < cs.len() && ((x == a && #[trigger] verdicts[a]@[b] == OctaveVerdict::DropFirst)
                    || (x == b && verdicts[a]@[b] == OctaveVerdict::DropSecond));
            assert(verdicts[a]@[b] == OctaveVerdict::Keep);
        }
    }
}

proof fn lemma_swept_unflagged_is_identity<T>(s: Seq<T>, flags: Seq<bool>, k: int)
    requires
        0 <= k <= s.len(),
        flags.len() == s.len(),
        forall|x: int| k <= x < s.len() ==> !#[trigger] flags[x],
    ensures
        swept_from(s, flags, k) == s,
    decreases s.len() - k,
{
    if k < s.len() {
        lemma_swept_unflagged_is_identity(s, flags, k + 1);
    }
}

/// A pass of octave-duplicate removal over contours that are judged
/// pairwise compatible removes none: after sorting (`sorted` is the
/// stable descending sort of `cs`) and a verdict of `Keep` on every pair,
/// the swap-removal of the marked contours leaves exactly the sorted
/// contours, a permutation of those the pass started from.
pub proof fn lemma_compatible_pass_removes_nothing(
    cs: Seq<PitchContour>,
    sorted: Seq<PitchContour>,
    verdicts: Seq<Vec<OctaveVerdict>>,
)
    requires
        stable_sorted_desc(sorted, cs),
        forall|a: int, b: int|
            0 <= a < b < sorted.len() ==> #[trigger] verdicts[a]@[b] == OctaveVerdict::Keep,
    ensures
        swept_from(sorted, rows_from(sorted, verdicts, unmarked(sorted.len()), 0), 0) == sorted,
        exists|perm: Seq<int>|
            crate::ordering::is_permutation_by(
                #[trigger] swept_from(sorted, rows_from(sorted, verdicts, unmarked(sorted.len()), 0), 0),
                cs,
                perm,
            ),
{
    lemma_all_kept_marks_nothing(sorted, verdicts);
    let flags = rows_from(sorted, verdicts, unmarked(sorted.len()), 0);
    lemma_swept_unflagged_is_identity(sorted, flags, 0);
}

/// Where each item of a swap-removal result came from: `m[q]` is the
/// index of `s` whose item stands at `q`; indices below `k` are not yet
/// moved, those from `k` on are unflagged, and no index is used twice.
proof fn lemma_swept_sources<T>(s: Seq<T>, flags: Seq<bool>, k: int) -> (m: Seq<int>)
    requires
        0 <= k <= s.len(),
        flags.len() == s.len(),
    ensures
        m.len() == swept_from(s, flags, k).len(),
        forall|q: int| 0 <= q < m.len() ==> 0 <= #[trigger] m[q] < s.len() && swept_from(s, flags, k)[q] == s[m[q]],
        forall|q: int| 0 <= q < m.len() && q < k ==> #[trigger] m[q] == q,
        forall|q: int| 0 <= q < m.len() && k <= q ==> k <= #[trigger] m[q] && !flags[m[q]],
        forall|q: int, r: int| 0 <= q < m.len() && 0 <= r < m.len() && q != r ==> #[trigger] m[q] != #[trigger] m[r],
    decreases s.len() - k,
{
    if k == s.len() {
        Seq::new(s.len(), |q: int| q)
    } else {
        let mt = lemma_swept_sources(s, flags, k + 1);
        lemma_swept_len(s, flags, k + 1);
        let t = swept_from(s, flags, k + 1);
        if !flags[k] {
            assert(mt[k] == k);
            mt
        } else {
            let last = t.len() - 1;
            let m = mt.update(k, mt[last]).drop_last();
            let u = swept_from(s, flags, k);
            assert(u == t.update(k, t.last()).drop_last());
            assert forall|q: int| 0 <= q < m.len() implies 0 <= #[trigger] m[q] < s.len() && u[q] == s[m[q]] by {
                if q == k {
                    assert(u[q] == t[last]);
                } else {
                    assert(u[q] == t[q] && m[q] == mt[q]);
                }
            }
            assert forall|q: int| 0 <= q < m.len() && k <= q implies k <= #[trigger] m[q] && !flags[m[q]] by {
                if q == k {
                    assert(m[q] == mt[last]);
                    assert(last >= k + 1);
                } else {
                    assert(m[q] == mt[q]);
                }
            }
            assert forall|q: int| 0 <= q < m.len() && q < k implies #[trigger] m[q] == q by {
                assert(m[q] == mt[q]);
            }
            assert forall|q: int, r: int| 0 <= q < m.len() && 0 <= r < m.len() && q != r implies #[trigger] m[q] != #[trigger] m[r] by {
                let qq = if q == k { last } else { q };
                let rr = if r == k { last } else { r };
                assert(m[q] == mt[qq] && m[r] == mt[rr]);
            }
            m
        }
    }
}

/// The contours left by one pass of octave-duplicate removal over contours
/// already sorted, given the verdicts on their pairs.
pub open spec fn passed(sorted: Seq<PitchContour>, verdicts: Seq<Vec<OctaveVerdict>>) -> Seq<PitchContour> {
    swept_from(sorted, rows_from(sorted, verdicts, unmarked(sorted.len()), 0), 0)
}

/// The verdict on each pair `a < b` of `sorted` is what `judge` says of
/// the two contours in that order.
pub open spec fn judged_by(
    sorted: Seq<PitchContour>,
    verdicts: Seq<Vec<OctaveVerdict>>,
    judge: spec_fn(PitchContour, PitchContour) -> OctaveVerdict,
) -> bool {
    forall|a: int, b: int|
        0 <= a < b < sorted.len() ==> #[trigger] verdicts[a]@[b] == judge(sorted[a], sorted[b])
}

proof fn lemma_earlier_starts_later(x: PitchContour, y: PitchContour)
    requires
        x.key() >= y.key(),
    ensures
        x.start >= y.start,
{
    if x.start < y.start {
        assert(y.start * 0x1_0000_0000_0000_0000 >= x.start * 0x1_0000_0000_0000_0000 + 0x1_0000_0000_0000_0000)
            by (nonlinear_arith)
            requires
                x.start < y.start,
        ;
    }
}

/// Removing octave duplicates a second time removes nothing. Let `judge`
/// be the verdict the evidence gives an ordered pair of contours (for a
/// fixed melody pitch mean), every contour start no later than it ends,
/// and contours of equal span judged compatible in one order also in the
/// other. A first pass sorts `cs` into `first_sorted` and removes what its
/// verdicts mark; a second pass sorts the survivors into `second_sorted`.
/// The second pass marks nothing, and its result holds the same contours
/// as the first pass's result.
pub proof fn lemma_second_pass_removes_nothing(
    cs: Seq<PitchContour>,
    judge: spec_fn(PitchContour, PitchContour) -> OctaveVerdict,
    first_sorted: Seq<PitchContour>,
    first_verdicts: Seq<Vec<OctaveVerdict>>,
    second_sorted: Seq<PitchContour>,
    second_verdicts: Seq<Vec<OctaveVerdict>>,
)
    requires
        forall|c: int| 0 <= c < cs.len() ==> (#[trigger] cs[c]).start <= cs[c].end,
        forall|a: int, b: int|
            0 <= a < cs.len() && 0 <= b < cs.len() && cs[a].key() == cs[b].key() && #[trigger] judge(cs[a], cs[b])
                == OctaveVerdict::Keep ==> #[trigger] judge(cs[b], cs[a]) == OctaveVerdict::Keep,
        stable_sorted_desc(first_sorted, cs),
        judged_by(first_sorted, first_verdicts, judge),
        stable_sorted_desc(second_sorted, passed(first_sorted, first_verdicts)),
        judged_by(second_sorted, second_verdicts, judge),
    ensures
        passed(second_sorted, second_verdicts) == second_sorted,
        exists|perm: Seq<int>|
            crate::ordering::is_permutation_by(
                passed(second_sorted, second_verdicts),
                passed(first_sorted, first_verdicts),
                perm,
            ),
{
    let s1 = first_sorted;
    let s2 = second_sorted;
    let n1 = s1.len();
    let perm1 = choose|perm: Seq<int>|
        {
            &&& #[trigger] crate::ordering::is_permutation_by(s1, cs, perm)
            &&& forall|q: int, r: int|
                0 <= q < r < s1.len() ==> (#[trigger] s1[q]).key() >= (#[trigger] s1[r]).key()
            &&& forall|q: int, r: int|
                0 <= q < r < s1.len() && (#[trigger] s1[q]).key() == (#[trigger] s1[r]).key()
                    ==> perm[q] < perm[r]
        };
    let del1 = rows_from(s1, first_verdicts, unmarked(n1), 0);
    lemma_rows_marks_stay(s1, first_verdicts, unmarked(n1), 0);
    let after = swept_from(s1, del1, 0);
    let m = lemma_swept_sources(s1, del1, 0);
    let perm2 = choose|perm: Seq<int>|
        {
            &&& #[trigger] crate::ordering::is_permutation_by(s2, after, perm)
            &&& forall|q: int, r: int|
                0 <= q < r < s2.len() ==> (#[trigger] s2[q]).key() >= (#[trigger] s2[r]).key()
            &&& forall|q: int, r: int|
                0 <= q < r < s2.len() && (#[trigger] s2[q]).key() == (#[trigger] s2[r]).key()
                    ==> perm[q] < perm[r]
        };
    assert forall|a: int, b: int| 0 <= a < b < s2.len() implies #[trigger] second_verdicts[a]@[b]
        == OctaveVerdict::Keep by {
        let ia = m[perm2[a]];
        let ib = m[perm2[b]];
        assert(s2[a] == after[perm2[a]] && s2[b] == after[perm2[b]]);
        assert(s2[a] == s1[ia] && s2[b] == s1[ib]);
        assert(ia != ib);
        assert(!del1[ia] && !del1[ib]);
        assert(second_verdicts[a]@[b] == judge(s1[ia], s1[ib]));
        assert(s2[a].key() >= s2[b].key());
        if ia < ib {
            assert forall|k: int| ia < k <= ib implies (#[trigger] s1[k]).start <= s1[ia].end by {
                assert(s1[ia].key() >= s1[k].key());
                lemma_earlier_starts_later(s1[ia], s1[k]);
                assert(s1[ia] == cs[perm1[ia]]);
            }
            lemma_survivors_were_compatible(s1, first_verdicts, ia, ib);
            assert(first_verdicts[ia]@[ib] == judge(s1[ia], s1[ib]));
        } else {
            assert forall|k: int| ib < k <= ia implies (#[trigger] s1[k]).start <= s1[ib].end by {
                assert(s1[ib].key() >= s1[k].key());
                lemma_earlier_starts_later(s1[ib], s1[k]);
                assert(s1[ib] == cs[perm1[ib]]);
            }
            lemma_survivors_were_compatible(s1, first_verdicts, ib, ia);
            assert(first_verdicts[ib]@[ia] == judge(s1[ib], s1[ia]));
            assert(s1[ib].key() >= s1[ia].key());
            assert(s1[ib] == cs[perm1[ib]] && s1[ia] == cs[perm1[ia]]);
            assert(judge(cs[perm1[ib]], cs[perm1[ia]]) == OctaveVerdict::Keep);
        }
    }
    lemma_compatible_pass_removes_nothing(after, s2, second_verdicts);
}

} // verus!
