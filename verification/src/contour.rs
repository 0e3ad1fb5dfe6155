//! Pitch contours and their tracking through the frames' salience peaks.
use vstd::prelude::*;
use vstd::multiset::Multiset;
use crate::ordering::SortKey;
use crate::real_bits::{is_nan, real_lt, bits_lt, FOUR_BITS};
use crate::salience::{
    SaliencePeak, SalienceFramePeaks, FULL_GAP, is_close, first_close_at, first_close, has_close,
    take_at,
};

verus! {

/// A pitch contour: one salience peak per frame for the frames
/// `start..=end`, and whether its total salience is weighted up for a
/// wide pitch deviation.
pub struct PitchContour {
    pub peaks: Vec<SaliencePeak>,
    pub start: usize,
    pub end: usize,
    pub boosted: bool,
}

/// One peak per frame of the contour's span, and at least one.
pub open spec fn well_formed(c: PitchContour) -> bool {
    &&& c.peaks@.len() >= 1
    &&& c.end - c.start + 1 == c.peaks@.len()
}

/// Consecutive peaks of the contour lie within the bin step of each other.
pub open spec fn continuous(c: PitchContour) -> bool {
    forall|q: int|
        0 <= q < c.peaks@.len() - 1 ==> is_close(#[trigger] c.peaks@[q + 1].bin, c.peaks@[q].bin)
}

/// The frame held the peak, in its foreground or its background.
pub open spec fn held(frame: SalienceFramePeaks, p: SaliencePeak) -> bool {
    frame.foreground@.contains(p) || frame.background@.contains(p)
}

/// Each peak of the contour was held by the frame it stands for.
pub open spec fn drawn_from(c: PitchContour, frames: Seq<SalienceFramePeaks>) -> bool {
    forall|q: int|
        0 <= q < c.peaks@.len() ==> 0 <= c.start + q < frames.len() && held(
            frames[c.start + q],
            #[trigger] c.peaks@[q],
        )
}

/// Among the contour's peaks `w..=w + spent_run()`, one was a foreground
/// peak of its frame in `frames`.
pub open spec fn foreground_within(c: PitchContour, frames: Seq<SalienceFramePeaks>, w: int) -> bool {
    exists|q: int|
        w <= q <= w + spent_run() && #[trigger] frames[c.start + q].foreground@.contains(c.peaks@[q])
}

/// The contour never runs through more background peaks in a row than a
/// full gap budget pays for: among any `spent_run() + 1` consecutive peaks,
/// one was a foreground peak of its frame in `frames`.
pub open spec fn foreground_paced(c: PitchContour, frames: Seq<SalienceFramePeaks>) -> bool {
    forall|w: int| 0 <= w && w + spent_run() < c.peaks@.len() ==> #[trigger] foreground_within(c, frames, w)
}

/// What the tracking promises of each contour it returns.
pub open spec fn follows_frames(c: PitchContour, frames: Seq<SalienceFramePeaks>) -> bool {
    &&& well_formed(c)
    &&& continuous(c)
    &&& c.end < frames.len()
    &&& drawn_from(c, frames)
    &&& foreground_paced(c, frames)
}

/// Every peak that `now` holds, `before` held at the same frame.
pub open spec fn holds_no_more(now: Seq<SalienceFramePeaks>, before: Seq<SalienceFramePeaks>) -> bool {
    &&& now.len() == before.len()
    &&& forall|f: int, p: SaliencePeak|
        0 <= f < now.len() && #[trigger] held(now[f], p) ==> held(before[f], p)
}

/// A frame's peaks, foreground and background together, as a multiset.
pub open spec fn frame_content(frame: SalienceFramePeaks) -> Multiset<SaliencePeak> {
    (frame.foreground@ + frame.background@).to_multiset()
}

/// No peak of the frame has a NaN salience.
pub open spec fn frame_nan_free(frame: SalienceFramePeaks) -> bool {
    &&& forall|k: int| 0 <= k < frame.foreground@.len() ==> !is_nan(#[trigger] frame.foreground@[k].salience)
    &&& forall|k: int| 0 <= k < frame.background@.len() ==> !is_nan(#[trigger] frame.background@[k].salience)
}

/// No peak of any frame has a NaN salience.
pub open spec fn nan_free(frames: Seq<SalienceFramePeaks>) -> bool {
    forall|f: int| 0 <= f < frames.len() ==> frame_nan_free(#[trigger] frames[f])
}

/// The contour's peak at frame `f`, as a multiset of at most one peak.
pub open spec fn peak_at(c: PitchContour, f: int) -> Multiset<SaliencePeak> {
    if c.start <= f < c.start + c.peaks@.len() {
        Multiset::singleton(c.peaks@[f - c.start])
    } else {
        Multiset::empty()
    }
}

/// The peaks the contours have at frame `f`.
pub open spec fn placed_at(cs: Seq<PitchContour>, f: int) -> Multiset<SaliencePeak>
    decreases cs.len(),
{
    if cs.len() == 0 {
        Multiset::empty()
    } else {
        placed_at(cs.drop_last(), f).add(peak_at(cs.last(), f))
    }
}

/// Each frame's peaks are the peaks it has left plus those the contours
/// took from it.
pub open spec fn conserved(
    before: Seq<SalienceFramePeaks>,
    now: Seq<SalienceFramePeaks>,
    cs: Seq<PitchContour>,
) -> bool {
    forall|f: int|
        0 <= f < before.len() ==> #[trigger] frame_content(before[f]) == frame_content(now[f]).add(
            placed_at(cs, f),
        )
}

impl PitchContour {
    /// A contour of the one peak `peak` at frame `i`.
    pub fn new(peak: SaliencePeak, i: usize) -> (r: Self)
        ensures
            r.peaks@ == seq![peak],
            r.start == i,
            r.end == i,
            !r.boosted,
    {
        PitchContour { peaks: vec![peak], start: i, end: i, boosted: false }
    }

    /// Extends the contour by `peak` at frame `i`, before its first frame
    /// or after its last one.
    pub fn add(&mut self, peak: SaliencePeak, i: usize)
        requires
            i < old(self).start || i > old(self).end,
        ensures
            i < old(self).start ==> final(self).peaks@ == seq![peak] + old(self).peaks@
                && final(self).start == i && final(self).end == old(self).end,
            old(self).start <= i ==> final(self).peaks@ == old(self).peaks@.push(peak)
                && final(self).end == i && final(self).start == old(self).start,
            final(self).boosted == old(self).boosted,
    {
        if i < self.start {
            self.peaks.insert(0, peak);
            self.start = i;
            proof {
                assert(self.peaks@ =~= seq![peak] + old(self).peaks@);
            }
        } else {
            self.peaks.push(peak);
            self.end = i;
        }
    }

    /// Weights the contour's total salience up when its pitch deviation
    /// (bit pattern of a single-precision number) exceeds 4 bins.
    pub fn set_multiplier(&mut self, pitch_deviance: u32)
        ensures
            final(self).boosted == (old(self).boosted || real_lt(FOUR_BITS, pitch_deviance)),
            final(self).peaks@ == old(self).peaks@,
            final(self).start == old(self).start,
            final(self).end == old(self).end,
    {
        if bits_lt(FOUR_BITS, pitch_deviance) {
            self.boosted = true;
        }
    }

    /// Whether the total salience is weighted up.
    pub fn is_boosted(&self) -> (r: bool)
        ensures
            r == self.boosted,
    {
        self.boosted
    }
}

impl SortKey for PitchContour {
    /// Orders by first frame, then by last frame.
    open spec fn key(&self) -> int {
        self.start * 0x1_0000_0000_0000_0000 + self.end
    }

    fn sort_key(&self) -> (k: u128) {
        (self.start as u128) * 0x1_0000_0000_0000_0000u128 + self.end as u128
    }
}

/// Removing an item keeps every other item and adds none.
proof fn lemma_take_at_subset(s: Seq<SaliencePeak>, k: int, p: SaliencePeak)
    requires
        0 <= k < s.len(),
        take_at(s, k).contains(p),
    ensures
        s.contains(p),
{
    let t = take_at(s, k);
    let j = choose|j: int| 0 <= j < t.len() && t[j] == p;
    if !crate::real_bits::is_nan(s[k].salience) {
        if j < k {
            assert(s[j] == p);
        } else {
            assert(s[j + 1] == p);
        }
    }
}

impl SalienceFramePeaks {
    /// Takes the first foreground peak out of the frame.
    fn take_first_foreground(&mut self) -> (r: SaliencePeak)
        requires
            old(self).foreground@.len() > 0,
        ensures
            r == old(self).foreground@[0],
            final(self).foreground@ == old(self).foreground@.remove(0),
            final(self).background@ == old(self).background@,
    {
        self.foreground.remove(0)
    }
}

/// What `extract_peak` promises when the budget is positive: `after` is
/// `before` with the returned peak taken out as `take_at` says.
pub open spec fn extracted(
    before: SalienceFramePeaks,
    after: SalienceFramePeaks,
    prev: usize,
    gap: i64,
    r: Option<(SaliencePeak, i64)>,
) -> bool {
    &&& gap > 0
    &&& has_close(before.foreground@, prev) ==> {
        let k = first_close(before.foreground@, prev);
        &&& first_close_at(before.foreground@, prev, k)
        &&& r == Some((before.foreground@[k], FULL_GAP))
        &&& after.foreground@ == take_at(before.foreground@, k)
        &&& after.background@ == before.background@
    }
    &&& !has_close(before.foreground@, prev) && has_close(before.background@, prev) ==> {
        let k = first_close(before.background@, prev);
        &&& first_close_at(before.background@, prev, k)
        &&& r == Some((before.background@[k], (gap - crate::salience::BACKGROUND_GAP_COST) as i64))
        &&& after.background@ == take_at(before.background@, k)
        &&& after.foreground@ == before.foreground@
    }
    &&& !has_close(before.foreground@, prev) && !has_close(before.background@, prev) ==> r is None
        && after.foreground@ == before.foreground@ && after.background@ == before.background@
}

/// Whether the frame offers a peak within reach of `bin`, in its
/// foreground or its background.
pub open spec fn reaches(frame: SalienceFramePeaks, bin: usize) -> bool {
    has_close(frame.foreground@, bin) || has_close(frame.background@, bin)
}

/// `after` holds no peak that `before` did not, in each of its lists.
pub open spec fn shrunk(before: SalienceFramePeaks, after: SalienceFramePeaks) -> bool {
    &&& forall|p: SaliencePeak| #[trigger] after.foreground@.contains(p) ==> before.foreground@.contains(p)
    &&& forall|p: SaliencePeak| #[trigger] after.background@.contains(p) ==> before.background@.contains(p)
}

/// Each frame of `after` is `shrunk` from the same frame of `before`.
pub open spec fn frames_shrunk(before: Seq<SalienceFramePeaks>, after: Seq<SalienceFramePeaks>) -> bool {
    &&& before.len() == after.len()
    &&& forall|f: int| 0 <= f < before.len() ==> shrunk(before[f], #[trigger] after[f])
}

/// Every foreground peak of `now` was a foreground peak of the same frame
/// of `before`, and every background peak a background peak.
pub open spec fn lists_no_more(now: Seq<SalienceFramePeaks>, before: Seq<SalienceFramePeaks>) -> bool {
    &&& now.len() == before.len()
    &&& forall|f: int, p: SaliencePeak|
        0 <= f < now.len() && #[trigger] now[f].foreground@.contains(p) ==> before[f].foreground@.contains(p)
    &&& forall|f: int, p: SaliencePeak|
        0 <= f < now.len() && #[trigger] now[f].background@.contains(p) ==> before[f].background@.contains(p)
}

/// The number of background peaks in a row that uses up a full gap budget.
pub open spec fn spent_run() -> int {
    FULL_GAP / crate::salience::BACKGROUND_GAP_COST + 1
}

/// The contour's first `spent_run()` peaks, and not all of its peaks, were
/// background peaks of their frames in `frames`.
pub open spec fn led_by_background(c: PitchContour, frames: Seq<SalienceFramePeaks>) -> bool {
    &&& c.peaks@.len() > spent_run()
    &&& forall|q: int| 0 <= q < spent_run() ==> frames[c.start + q].background@.contains(#[trigger] c.peaks@[q])
}

/// The contour's last `spent_run()` peaks, and not all of its peaks, were
/// background peaks of their frames in `frames`.
pub open spec fn trailed_by_background(c: PitchContour, frames: Seq<SalienceFramePeaks>) -> bool {
    &&& c.peaks@.len() > spent_run()
    &&& forall|q: int|
        0 <= q < spent_run() ==> frames[c.end - q].background@.contains(
            #[trigger] c.peaks@[c.peaks@.len() - 1 - q],
        )
}

/// The contour could not have been extended backwards: the frame before
/// its first one offers no peak within reach of its first bin in `now`,
/// unless its leading background peaks (in `orig`) used up the budget.
pub open spec fn stopped_before(c: PitchContour, now: Seq<SalienceFramePeaks>, orig: Seq<SalienceFramePeaks>) -> bool {
    c.start > 0 ==> !reaches(now[c.start - 1], c.peaks@[0].bin) || led_by_background(c, orig)
}

/// The contour could not have been extended forwards: the frame after its
/// last one offers no peak within reach of its last bin in `now`, unless
/// its trailing background peaks (in `orig`) used up the budget.
pub open spec fn stopped_after(c: PitchContour, now: Seq<SalienceFramePeaks>, orig: Seq<SalienceFramePeaks>) -> bool {
    c.end + 1 < now.len() ==> !reaches(now[c.end + 1], c.peaks@.last().bin) || trailed_by_background(c, orig)
}

/// A frame that only lost peaks offers no more than it did.
proof fn lemma_reaches_shrunk(before: SalienceFramePeaks, after: SalienceFramePeaks, bin: usize)
    requires
        shrunk(before, after),
        reaches(after, bin),
    ensures
        reaches(before, bin),
{
    if has_close(after.foreground@, bin) {
        let k = choose|k: int| 0 <= k < after.foreground@.len() && is_close(#[trigger] after.foreground@[k].bin, bin);
        assert(after.foreground@.contains(after.foreground@[k]));
        let m = choose|m: int| 0 <= m < before.foreground@.len() && before.foreground@[m] == after.foreground@[k];
        assert(is_close(before.foreground@[m].bin, bin));
    } else {
        let k = choose|k: int| 0 <= k < after.background@.len() && is_close(#[trigger] after.background@[k].bin, bin);
        assert(after.background@.contains(after.background@[k]));
        let m = choose|m: int| 0 <= m < before.background@.len() && before.background@[m] == after.background@[k];
        assert(is_close(before.background@[m].bin, bin));
    }
}

/// Frames that only lose peaks keep every contour stopped.
proof fn lemma_stops_kept(
    out: Seq<PitchContour>,
    before: Seq<SalienceFramePeaks>,
    after: Seq<SalienceFramePeaks>,
    orig: Seq<SalienceFramePeaks>,
)
    requires
        frames_shrunk(before, after),
        orig.len() == before.len(),
        forall|c: int| 0 <= c < out.len() ==> follows_frames(#[trigger] out[c], orig),
        forall|c: int|
            0 <= c < out.len() ==> stopped_before(#[trigger] out[c], before, orig) && stopped_after(
                out[c],
                before,
                orig,
            ),
    ensures
        forall|c: int|
            0 <= c < out.len() ==> stopped_before(#[trigger] out[c], after, orig) && stopped_after(
                out[c],
                after,
                orig,
            ),
{
    assert forall|c: int| 0 <= c < out.len() implies stopped_before(#[trigger] out[c], after, orig)
        && stopped_after(out[c], after, orig) by {
        let x = out[c];
        if x.start > 0 && reaches(after[x.start - 1], x.peaks@[0].bin) {
            lemma_reaches_shrunk(before[x.start - 1], after[x.start - 1], x.peaks@[0].bin);
        }
        if x.end + 1 < after.len() && reaches(after[x.end + 1], x.peaks@.last().bin) {
            lemma_reaches_shrunk(before[x.end + 1], after[x.end + 1], x.peaks@.last().bin);
        }
    }
}

/// Changing one frame into a frame `shrunk` from it shrinks the frames,
/// and keeps their lists within those of `orig`.
proof fn lemma_frames_shrunk_at(
    before: Seq<SalienceFramePeaks>,
    after: Seq<SalienceFramePeaks>,
    orig: Seq<SalienceFramePeaks>,
    j: int,
)
    requires
        0 <= j < before.len(),
        after == before.update(j, after[j]),
        shrunk(before[j], after[j]),
        lists_no_more(before, orig),
    ensures
        frames_shrunk(before, after),
        lists_no_more(after, orig),
{
    assert forall|f: int| 0 <= f < before.len() implies shrunk(before[f], #[trigger] after[f]) by {
        if f != j {
            assert(after[f] == before[f]);
        }
    }
    assert forall|f: int, p: SaliencePeak|
        0 <= f < after.len() && #[trigger] after[f].background@.contains(p) implies orig[f].background@.contains(
        p,
    ) by {
        assert(before[f].background@.contains(p));
    }
    assert forall|f: int, p: SaliencePeak|
        0 <= f < after.len() && #[trigger] after[f].foreground@.contains(p) implies orig[f].foreground@.contains(
        p,
    ) by {
        assert(before[f].foreground@.contains(p));
    }
}

/// One step of a contour from frame `j`: the frame loses at most the
/// returned peak, which it held and which lies within reach of `prev`.
proof fn lemma_extraction_step(
    before: SalienceFramePeaks,
    after: SalienceFramePeaks,
    prev: usize,
    gap: i64,
    r: Option<(SaliencePeak, i64)>,
)
    requires
        extracted(before, after, prev, gap, r),
    ensures
        forall|p: SaliencePeak| held(after, p) ==> held(before, p),
        before.foreground@.len() == 0 ==> after.foreground@.len() == 0,
        r matches Some((peak, g)) ==> held(before, peak) && is_close(peak.bin, prev),
        frame_nan_free(before) ==> frame_nan_free(after),
        frame_nan_free(before) && r is None ==> frame_content(before) == frame_content(after),
        frame_nan_free(before) ==> (r matches Some((peak, g)) ==> frame_content(before)
            == frame_content(after).insert(peak)),
        taken_from(frame_model(before), prev, gap) == (frame_model(after), r),
        shrunk(before, after),
        r is None ==> !reaches(after, prev),
        r matches Some((peak, g)) ==> ((g == FULL_GAP && before.foreground@.contains(peak)) || (g == gap
            - crate::salience::BACKGROUND_GAP_COST && before.background@.contains(peak))),
{
    broadcast use vstd::seq_lib::group_to_multiset_ensures, vstd::multiset::group_multiset_axioms;

    if frame_nan_free(before) {
        if has_close(before.foreground@, prev) {
            let k = first_close(before.foreground@, prev);
            let s = before.foreground@;
            assert(!is_nan(s[k].salience));
            assert(after.foreground@ == s.remove(k));
            assert forall|q: int| 0 <= q < after.foreground@.len() implies !is_nan(
                #[trigger] after.foreground@[q].salience,
            ) by {
                if q < k {
                    assert(after.foreground@[q] == s[q]);
                } else {
                    assert(after.foreground@[q] == s[q + 1]);
                }
            }
            vstd::seq_lib::lemma_multiset_commutative(s, before.background@);
            vstd::seq_lib::lemma_multiset_commutative(s.remove(k), before.background@);
            assert(s.to_multiset().count(s[k]) > 0);
            assert(frame_content(before) =~= frame_content(after).insert(s[k]));
        } else if has_close(before.background@, prev) {
            let k = first_close(before.background@, prev);
            let s = before.background@;
            assert(!is_nan(s[k].salience));
            assert(after.background@ == s.remove(k));
            assert forall|q: int| 0 <= q < after.background@.len() implies !is_nan(
                #[trigger] after.background@[q].salience,
            ) by {
                if q < k {
                    assert(after.background@[q] == s[q]);
                } else {
                    assert(after.background@[q] == s[q + 1]);
                }
            }
            vstd::seq_lib::lemma_multiset_commutative(before.foreground@, s);
            vstd::seq_lib::lemma_multiset_commutative(before.foreground@, s.remove(k));
            assert(s.to_multiset().count(s[k]) > 0);
            assert(frame_content(before) =~= frame_content(after).insert(s[k]));
        }
    }

    assert forall|p: SaliencePeak| held(after, p) implies held(before, p) by {
        if has_close(before.foreground@, prev) {
            let k = first_close(before.foreground@, prev);
            if after.foreground@.contains(p) {
                lemma_take_at_subset(before.foreground@, k, p);
            }
        } else if has_close(before.background@, prev) {
            let k = first_close(before.background@, prev);
            if after.background@.contains(p) {
                lemma_take_at_subset(before.background@, k, p);
            }
        }
    }
    assert forall|p: SaliencePeak| #[trigger] after.foreground@.contains(p) implies before.foreground@.contains(p) by {
        if has_close(before.foreground@, prev) {
            lemma_take_at_subset(before.foreground@, first_close(before.foreground@, prev), p);
        }
    }
    assert forall|p: SaliencePeak| #[trigger] after.background@.contains(p) implies before.background@.contains(p) by {
        if !has_close(before.foreground@, prev) && has_close(before.background@, prev) {
            lemma_take_at_subset(before.background@, first_close(before.background@, prev), p);
        }
    }
    if has_close(before.foreground@, prev) {
        let k = first_close(before.foreground@, prev);
        assert(before.foreground@.contains(before.foreground@[k]));
    } else if has_close(before.background@, prev) {
        let k = first_close(before.background@, prev);
        assert(before.background@.contains(before.background@[k]));
    }
}

/// One extraction at frame `j` during tracking keeps the frames' account:
/// the frame models change at `j` only, as `taken_from` says; no frame
/// gains a peak; NaN-freedom is kept; a step that takes nothing keeps
/// every frame's content; a taken peak was held by frame `j` and lies
/// within reach of `prev`.
proof fn lemma_frame_extraction(
    orig: Seq<SalienceFramePeaks>,
    before: Seq<SalienceFramePeaks>,
    after: Seq<SalienceFramePeaks>,
    out: Seq<PitchContour>,
    pc: PitchContour,
    j: int,
    prev: usize,
    gap: i64,
    r: Option<(SaliencePeak, i64)>,
)
    requires
        0 <= j < before.len(),
        orig.len() == before.len(),
        after == before.update(j, after[j]),
        extracted(before[j], after[j], prev, gap, r),
        holds_no_more(before, orig),
        lists_no_more(before, orig),
        nan_free(orig) ==> nan_free(before) && conserved_with(orig, before, out, pc),
    ensures
        frames_shrunk(before, after),
        lists_no_more(after, orig),
        r is None ==> !reaches(after[j], prev),
        r matches Some((peak, g)) ==> ((g == FULL_GAP && orig[j].foreground@.contains(peak)) || (g == gap
            - crate::salience::BACKGROUND_GAP_COST && orig[j].background@.contains(peak))),
        frames_model(after) == frames_model(before).update(j, frame_model(after[j])),
        taken_from(frame_model(before[j]), prev, gap) == (frame_model(after[j]), r),
        holds_no_more(after, orig),
        nan_free(orig) ==> nan_free(after),
        nan_free(orig) && r is None ==> conserved_with(orig, after, out, pc),
        nan_free(orig) ==> (r matches Some((peak, g)) ==> frame_content(before[j])
            == frame_content(after[j]).insert(peak)),
        r matches Some((peak, g)) ==> held(orig[j], peak) && is_close(peak.bin, prev),
{
    let n = before.len();
    assert(frames_model(after) =~= frames_model(before).update(j, frame_model(after[j])));
    lemma_extraction_step(before[j], after[j], prev, gap, r);
    lemma_frames_shrunk_at(before, after, orig, j);
    if nan_free(orig) {
        assert forall|f: int| 0 <= f < n implies frame_nan_free(#[trigger] after[f]) by {
            if f != j {
                assert(after[f] == before[f]);
            }
        }
        if r is None {
            lemma_conserved_unchanged(orig, before, after, out, pc, j);
        }
    }
    assert forall|f: int, p: SaliencePeak|
        0 <= f < n && #[trigger] held(after[f], p) implies held(orig[f], p) by {
        if f == j {
            assert(held(before[j], p));
        } else {
            assert(after[f] == before[f]);
        }
    }
    if let Some((peak, g)) = r {
        assert(held(before[j], peak));
    }
}

/// Each frame's peaks are the peaks it has left plus those that the
/// contours and the contour `c` being built took from it.
pub open spec fn conserved_with(
    before: Seq<SalienceFramePeaks>,
    now: Seq<SalienceFramePeaks>,
    cs: Seq<PitchContour>,
    c: PitchContour,
) -> bool {
    forall|f: int|
        0 <= f < before.len() ==> #[trigger] frame_content(before[f]) == frame_content(now[f]).add(
            placed_at(cs, f),
        ).add(peak_at(c, f))
}

/// Extending a contour by one frame at either end adds that frame's peak
/// and keeps the others.
proof fn lemma_peak_at_extended(old_c: PitchContour, new_c: PitchContour, peak: SaliencePeak, j: int)
    requires
        well_formed(old_c),
        (j == old_c.end + 1 && new_c.peaks@ == old_c.peaks@.push(peak) && new_c.start == old_c.start)
            || (j + 1 == old_c.start && new_c.peaks@ == seq![peak] + old_c.peaks@ && new_c.start == j),
    ensures
        peak_at(old_c, j) == Multiset::<SaliencePeak>::empty(),
        peak_at(new_c, j) == Multiset::singleton(peak),
        forall|f: int| f != j ==> #[trigger] peak_at(new_c, f) == peak_at(old_c, f),
{
    assert forall|f: int| f != j implies #[trigger] peak_at(new_c, f) == peak_at(old_c, f) by {
        if old_c.start <= f < old_c.start + old_c.peaks@.len() {
            if j == old_c.end + 1 && new_c.peaks@ == old_c.peaks@.push(peak) && new_c.start == old_c.start {
                assert(new_c.peaks@[f - new_c.start] == old_c.peaks@[f - old_c.start]);
            } else {
                assert(new_c.peaks@[f - new_c.start] == old_c.peaks@[f - old_c.start]);
            }
        }
    }
}

/// The contours pushed so far and the one being built account for the
/// same peaks once it is pushed.
proof fn lemma_conserved_push(
    orig: Seq<SalienceFramePeaks>,
    now: Seq<SalienceFramePeaks>,
    cs: Seq<PitchContour>,
    c: PitchContour,
)
    requires
        conserved_with(orig, now, cs, c),
    ensures
        conserved(orig, now, cs.push(c)),
{
    assert forall|f: int| 0 <= f < orig.len() implies #[trigger] frame_content(orig[f])
        == frame_content(now[f]).add(placed_at(cs.push(c), f)) by {
        assert(cs.push(c).drop_last() == cs);
        assert(frame_content(orig[f]) == frame_content(now[f]).add(placed_at(cs, f)).add(peak_at(c, f)));
        assert(frame_content(now[f]).add(placed_at(cs, f)).add(peak_at(c, f))
            =~= frame_content(now[f]).add(placed_at(cs, f).add(peak_at(c, f))));
    }
}

/// Moving `peak` from frame `j` into the contour keeps every frame's
/// account.
proof fn lemma_conserved_move(
    orig: Seq<SalienceFramePeaks>,
    before: Seq<SalienceFramePeaks>,
    after: Seq<SalienceFramePeaks>,
    cs: Seq<PitchContour>,
    c_old: PitchContour,
    c_new: PitchContour,
    j: int,
    peak: SaliencePeak,
)
    requires
        conserved_with(orig, before, cs, c_old),
        orig.len() == before.len(),
        after.len() == before.len(),
        0 <= j < before.len(),
        forall|f: int| 0 <= f < before.len() && f != j ==> #[trigger] after[f] == before[f],
        frame_content(before[j]) == frame_content(after[j]).insert(peak),
        peak_at(c_old, j) == Multiset::<SaliencePeak>::empty(),
        peak_at(c_new, j) == Multiset::singleton(peak),
        forall|f: int| f != j ==> #[trigger] peak_at(c_new, f) == peak_at(c_old, f),
    ensures
        conserved_with(orig, after, cs, c_new),
{
    assert forall|f: int| 0 <= f < orig.len() implies #[trigger] frame_content(orig[f])
        == frame_content(after[f]).add(placed_at(cs, f)).add(peak_at(c_new, f)) by {
        assert(frame_content(orig[f]) == frame_content(before[f]).add(placed_at(cs, f)).add(
            peak_at(c_old, f),
        ));
        if f == j {
            assert(frame_content(before[j]).add(placed_at(cs, f)).add(peak_at(c_old, f))
                =~= frame_content(after[j]).add(placed_at(cs, f)).add(peak_at(c_new, f)));
        } else {
            assert(after[f] == before[f]);
        }
    }
}

/// A step that takes nothing keeps every frame's account.
proof fn lemma_conserved_unchanged(
    orig: Seq<SalienceFramePeaks>,
    before: Seq<SalienceFramePeaks>,
    after: Seq<SalienceFramePeaks>,
    cs: Seq<PitchContour>,
    c: PitchContour,
    j: int,
)
    requires
        conserved_with(orig, before, cs, c),
        orig.len() == before.len(),
        after.len() == before.len(),
        0 <= j < before.len(),
        forall|f: int| 0 <= f < before.len() && f != j ==> #[trigger] after[f] == before[f],
        frame_content(before[j]) == frame_content(after[j]),
    ensures
        conserved_with(orig, after, cs, c),
{
    assert forall|f: int| 0 <= f < orig.len() implies #[trigger] frame_content(orig[f])
        == frame_content(after[f]).add(placed_at(cs, f)).add(peak_at(c, f)) by {
        assert(frame_content(orig[f]) == frame_content(before[f]).add(placed_at(cs, f)).add(
            peak_at(c, f),
        ));
        if f != j {
            assert(after[f] == before[f]);
        }
    }
}

/// Taking the seed out of frame `i` into a fresh contour keeps every
/// frame's account.
proof fn lemma_conserved_seed(
    orig: Seq<SalienceFramePeaks>,
    before: Seq<SalienceFramePeaks>,
    after: Seq<SalienceFramePeaks>,
    cs: Seq<PitchContour>,
    c: PitchContour,
    i: int,
    seed: SaliencePeak,
)
    requires
        conserved(orig, before, cs),
        orig.len() == before.len(),
        after.len() == before.len(),
        0 <= i < before.len(),
        forall|f: int| 0 <= f < before.len() && f != i ==> #[trigger] after[f] == before[f],
        after[i].foreground@ == before[i].foreground@.remove(0),
        after[i].background@ == before[i].background@,
        before[i].foreground@.len() > 0,
        seed == before[i].foreground@[0],
        c.peaks@ == seq![seed],
        c.start == i,
    ensures
        conserved_with(orig, after, cs, c),
{
    broadcast use vstd::seq_lib::group_to_multiset_ensures, vstd::multiset::group_multiset_axioms;

    let s = before[i].foreground@;
    vstd::seq_lib::lemma_multiset_commutative(s, before[i].background@);
    vstd::seq_lib::lemma_multiset_commutative(s.remove(0), before[i].background@);
    assert(s.to_multiset().count(s[0]) > 0);
    assert(frame_content(before[i]) =~= frame_content(after[i]).insert(seed));
    assert forall|f: int| 0 <= f < orig.len() implies #[trigger] frame_content(orig[f])
        == frame_content(after[f]).add(placed_at(cs, f)).add(peak_at(c, f)) by {
        assert(frame_content(orig[f]) == frame_content(before[f]).add(placed_at(cs, f)));
        if f == i {
            assert(peak_at(c, f) == Multiset::singleton(seed));
            assert(frame_content(before[i]).add(placed_at(cs, f))
                =~= frame_content(after[i]).add(placed_at(cs, f)).add(peak_at(c, f)));
        } else {
            assert(after[f] == before[f]);
            assert(peak_at(c, f) =~= Multiset::<SaliencePeak>::empty());
            assert(frame_content(before[f]).add(placed_at(cs, f))
                =~= frame_content(after[f]).add(placed_at(cs, f)).add(peak_at(c, f)));
        }
    }
}

/// A frame's foreground and background as sequences.
pub struct FrameModel {
    pub fg: Seq<SaliencePeak>,
    pub bg: Seq<SaliencePeak>,
}

/// A contour's peaks and span.
pub struct ContourModel {
    pub peaks: Seq<SaliencePeak>,
    pub start: int,
    pub end: int,
}

pub open spec fn frame_model(frame: SalienceFramePeaks) -> FrameModel {
    FrameModel { fg: frame.foreground@, bg: frame.background@ }
}

pub open spec fn frames_model(frames: Seq<SalienceFramePeaks>) -> Seq<FrameModel> {
    frames.map_values(|frame: SalienceFramePeaks| frame_model(frame))
}

pub open spec fn contour_model(c: PitchContour) -> ContourModel {
    ContourModel { peaks: c.peaks@, start: c.start as int, end: c.end as int }
}

pub open spec fn contours_model(cs: Seq<PitchContour>) -> Seq<ContourModel> {
    cs.map_values(|c: PitchContour| contour_model(c))
}

/// What `extract_peak` does to a frame and returns.
pub open spec fn taken_from(frame: FrameModel, prev: usize, gap: i64) -> (FrameModel, Option<(SaliencePeak, i64)>) {
    if gap <= 0 {
        (frame, None)
    } else if has_close(frame.fg, prev) {
        let k = first_close(frame.fg, prev);
        (FrameModel { fg: take_at(frame.fg, k), bg: frame.bg }, Some((frame.fg[k], FULL_GAP)))
    } else if has_close(frame.bg, prev) {
        let k = first_close(frame.bg, prev);
        (
            FrameModel { fg: frame.fg, bg: take_at(frame.bg, k) },
            Some((frame.bg[k], (gap - crate::salience::BACKGROUND_GAP_COST) as i64)),
        )
    } else {
        (frame, None)
    }
}

/// Extends contour `c` forwards, frame after frame, while a frame offers a
/// peak within reach of `prev` and the gap budget lasts.
pub open spec fn extended_forwards(
    frames: Seq<FrameModel>,
    c: ContourModel,
    prev: usize,
    gap: i64,
) -> (Seq<FrameModel>, ContourModel)
    decreases frames.len() - c.end,
{
    if !(c.end + 1 < frames.len() && gap > 0 && c.end >= -1) {
        (frames, c)
    } else {
        let j = c.end + 1;
        let (fj, r) = taken_from(frames[j], prev, gap);
        match r {
            None => (frames.update(j, fj), c),
            Some((p, g)) => extended_forwards(
                frames.update(j, fj),
                ContourModel { peaks: c.peaks.push(p), start: c.start, end: j },
                p.bin,
                g,
            ),
        }
    }
}

/// Extends contour `c` backwards, frame before frame, likewise.
pub open spec fn extended_backwards(
    frames: Seq<FrameModel>,
    c: ContourModel,
    prev: usize,
    gap: i64,
) -> (Seq<FrameModel>, ContourModel)
    decreases c.start,
{
    if !(c.start > 0 && gap > 0 && c.start <= frames.len()) {
        (frames, c)
    } else {
        let j = c.start - 1;
        let (fj, r) = taken_from(frames[j], prev, gap);
        match r {
            None => (frames.update(j, fj), c),
            Some((p, g)) => extended_backwards(
                frames.update(j, fj),
                ContourModel { peaks: seq![p] + c.peaks, start: j, end: c.end },
                p.bin,
                g,
            ),
        }
    }
}

/// The contour seeded by the first foreground peak of frame `i`, grown
/// forwards with a full budget and then backwards with a full budget, and
/// the frames it leaves.
pub open spec fn grown_from_seed(frames: Seq<FrameModel>, i: int) -> (Seq<FrameModel>, ContourModel) {
    let seed = frames[i].fg[0];
    let seeded = frames.update(i, FrameModel { fg: frames[i].fg.remove(0), bg: frames[i].bg });
    let (after_fwd, c) = extended_forwards(
        seeded,
        ContourModel { peaks: seq![seed], start: i, end: i },
        seed.bin,
        FULL_GAP,
    );
    extended_backwards(after_fwd, c, c.peaks[0].bin, FULL_GAP)
}

/// Frame `i` seeds contours, at most `budget` of them, while it has a
/// foreground peak left.
pub open spec fn seeded_at(
    frames: Seq<FrameModel>,
    i: int,
    out: Seq<ContourModel>,
    budget: nat,
) -> (Seq<FrameModel>, Seq<ContourModel>)
    decreases budget,
{
    if budget == 0 || frames[i].fg.len() == 0 {
        (frames, out)
    } else {
        let (f, c) = grown_from_seed(frames, i);
        seeded_at(f, i, out.push(c), (budget - 1) as nat)
    }
}

/// The frames from `i` up to `n` seed contours in turn, each until its
/// foreground is used up.
pub open spec fn tracked_from(
    frames: Seq<FrameModel>,
    i: int,
    n: int,
    out: Seq<ContourModel>,
) -> (Seq<FrameModel>, Seq<ContourModel>)
    decreases n - i,
{
    if i >= n || i < 0 {
        (frames, out)
    } else {
        let (f, o) = seeded_at(frames, i, out, frames[i].fg.len());
        tracked_from(f, i + 1, n, o)
    }
}

/// Tracks pitch contours through the frames. Frame by frame, each
/// foreground peak left in the frame (strongest first) seeds a contour,
/// which is extended forwards and then backwards one frame at a time by
/// `extract_peak`, each direction with a full gap budget, until a frame
/// offers no peak within reach or the budget runs out. Extended peaks are
/// taken out of their frames. `tracked_from` states the result exactly.
///
/// Each returned contour spans consecutive frames with one peak each,
/// moves at most `MAX_BIN_STEP` bins from peak to peak, holds only peaks
/// its frames held, and never runs through more background peaks in a row
/// than a full gap budget pays for. Each contour stopped where it had to,
/// in both directions, whatever the other direction did: the frame just
/// before it, and the frame just after it, offer no peak within reach of
/// its first (last) bin once tracking is done, unless the budget was spent
/// on a run of background peaks at that end. Afterwards no frame has a
/// foreground peak left, and, when no salience is NaN, every peak is either
/// still in its frame (in the background) or in exactly one contour.
pub fn track_contours(salience_frame_peaks: &mut Vec<SalienceFramePeaks>) -> (out: Vec<PitchContour>)
    ensures
        final(salience_frame_peaks)@.len() == old(salience_frame_peaks)@.len(),
        forall|f: int|
            0 <= f < final(salience_frame_peaks)@.len()
                ==> (#[trigger] final(salience_frame_peaks)@[f]).foreground@.len() == 0,
        holds_no_more(final(salience_frame_peaks)@, old(salience_frame_peaks)@),
        forall|c: int|
            0 <= c < out@.len() ==> follows_frames(#[trigger] out@[c], old(salience_frame_peaks)@),
        nan_free(old(salience_frame_peaks)@) ==> conserved(
            old(salience_frame_peaks)@,
            final(salience_frame_peaks)@,
            out@,
        ),
        frames_model(final(salience_frame_peaks)@) == tracked_from(
            frames_model(old(salience_frame_peaks)@),
            0,
            old(salience_frame_peaks)@.len() as int,
            Seq::empty(),
        ).0,
        contours_model(out@) == tracked_from(
            frames_model(old(salience_frame_peaks)@),
            0,
            old(salience_frame_peaks)@.len() as int,
            Seq::empty(),
        ).1,
        forall|c: int| 0 <= c < out@.len() ==> !(#[trigger] out@[c]).boosted,
        forall|c: int|
            0 <= c < out@.len() ==> stopped_before(
                #[trigger] out@[c],
                final(salience_frame_peaks)@,
                old(salience_frame_peaks)@,
            ) && stopped_after(out@[c], final(salience_frame_peaks)@, old(salience_frame_peaks)@),
{
    let frames = salience_frame_peaks;
    let ghost orig = frames@;
    let n = frames.len();
    let mut out: Vec<PitchContour> = Vec::new();
    proof {
        assert forall|f: int| 0 <= f < orig.len() implies #[trigger] frame_content(orig[f])
            == frame_content(frames@[f]).add(placed_at(out@, f)) by {
            assert(frame_content(orig[f]).add(Multiset::empty()) =~= frame_content(orig[f]));
        }
    }
    let ghost target = tracked_from(frames_model(orig), 0, n as int, Seq::empty());
    assert(contours_model(out@) =~= Seq::<ContourModel>::empty());
    let mut i: usize = 0;
    while i < n
        invariant
            n == frames@.len(),
            0 <= i <= n,
            holds_no_more(frames@, orig),
            forall|f: int| 0 <= f < i ==> (#[trigger] frames@[f]).foreground@.len() == 0,
            forall|c: int| 0 <= c < out@.len() ==> follows_frames(#[trigger] out@[c], orig),
            nan_free(orig) ==> nan_free(frames@) && conserved(orig, frames@, out@),
            tracked_from(frames_model(frames@), i as int, n as int, contours_model(out@)) == target,
            forall|c: int| 0 <= c < out@.len() ==> !(#[trigger] out@[c]).boosted,
            lists_no_more(frames@, orig),
            forall|c: int|
                0 <= c < out@.len() ==> stopped_before(#[trigger] out@[c], frames@, orig) && stopped_after(
                    out@[c],
                    frames@,
                    orig,
                ),
        decreases n - i,
    {
        let ghost row_target = seeded_at(
            frames_model(frames@),
            i as int,
            contours_model(out@),
            frames@[i as int].foreground@.len(),
        );
        assert(tracked_from(row_target.0, i + 1, n as int, row_target.1) == target);
        while frames[i].can_extract()
            invariant
                n == frames@.len(),
                0 <= i < n,
                holds_no_more(frames@, orig),
                forall|f: int| 0 <= f < i ==> (#[trigger] frames@[f]).foreground@.len() == 0,
                forall|c: int| 0 <= c < out@.len() ==> follows_frames(#[trigger] out@[c], orig),
                nan_free(orig) ==> nan_free(frames@) && conserved(orig, frames@, out@),
                seeded_at(
                    frames_model(frames@),
                    i as int,
                    contours_model(out@),
                    frames@[i as int].foreground@.len(),
                ) == row_target,
                tracked_from(row_target.0, i + 1, n as int, row_target.1) == target,
                forall|c: int| 0 <= c < out@.len() ==> !(#[trigger] out@[c]).boosted,
                lists_no_more(frames@, orig),
                forall|c: int|
                    0 <= c < out@.len() ==> stopped_before(#[trigger] out@[c], frames@, orig) && stopped_after(
                        out@[c],
                        frames@,
                        orig,
                    ),
            decreases frames@[i as int].foreground@.len(),
        {
            let ghost s0 = frames_model(frames@);
            let ghost o0 = contours_model(out@);
            let ghost fi_before = frames@[i as int];
            let ghost frames_before_seed = frames@;
            let seed = frames[i].take_first_foreground();
            let ghost fi = frames@[i as int];
            proof {
                assert(fi_before.foreground@.contains(seed));
                assert forall|f: int, p: SaliencePeak|
                    0 <= f < n && #[trigger] held(frames@[f], p) implies held(orig[f], p) by {
                    if f == i {
                        if fi.foreground@.contains(p) {
                            let j = choose|j: int| 0 <= j < fi.foreground@.len() && fi.foreground@[j] == p;
                            assert(fi_before.foreground@[j + 1] == p);
                            assert(held(fi_before, p));
                        } else {
                            assert(held(fi_before, p));
                        }
                    }
                }
                assert forall|p: SaliencePeak| #[trigger] fi.foreground@.contains(p) implies fi_before.foreground@.contains(
                    p,
                ) by {
                    let j = choose|j: int| 0 <= j < fi.foreground@.len() && fi.foreground@[j] == p;
                    assert(fi_before.foreground@[j + 1] == p);
                }
                assert(shrunk(fi_before, fi));
                assert(frames@ =~= frames_before_seed.update(i as int, fi));
                lemma_frames_shrunk_at(frames_before_seed, frames@, orig, i as int);
                lemma_stops_kept(out@, frames_before_seed, frames@, orig);
            }
            let mut pc = PitchContour::new(seed, i);
            let ghost seeded = s0.update(i as int, FrameModel { fg: s0[i as int].fg.remove(0), bg: s0[i as int].bg });
            let ghost fwd = extended_forwards(
                seeded,
                ContourModel { peaks: seq![seed], start: i as int, end: i as int },
                seed.bin,
                FULL_GAP,
            );
            proof {
                assert(frames@ =~= frames_before_seed.update(i as int, fi));
                assert(frames_model(frames@) =~= seeded);
                assert(contour_model(pc) == ContourModel { peaks: seq![seed], start: i as int, end: i as int });
                assert(held(frames@[i as int], seed) ==> held(orig[i as int], seed));
                assert(held(fi_before, seed));
                assert(held(orig[i as int], seed));
                assert(pc.peaks@[0] == seed);
                if nan_free(orig) {
                    lemma_conserved_seed(orig, frames_before_seed, frames@, out@, pc, i as int, seed);
                    assert(frame_nan_free(fi_before));
                    assert forall|q: int| 0 <= q < fi.foreground@.len() implies !is_nan(
                        #[trigger] fi.foreground@[q].salience,
                    ) by {
                        assert(fi.foreground@[q] == fi_before.foreground@[q + 1]);
                    }
                    assert forall|f: int| 0 <= f < n implies frame_nan_free(#[trigger] frames@[f]) by {
                        if f != i {
                            assert(frames@[f] == frames_before_seed[f]);
                        }
                    }
                }
            }
            // forwards
            let mut gap: i64 = FULL_GAP;
            let mut prev: usize = seed.bin;
            let ghost mut run: int = 0;
            while pc.end + 1 < n && gap > 0
                invariant
                    lists_no_more(frames@, orig),
                    forall|c: int|
                        0 <= c < out@.len() ==> stopped_before(#[trigger] out@[c], frames@, orig)
                            && stopped_after(out@[c], frames@, orig),
                    gap == FULL_GAP - crate::salience::BACKGROUND_GAP_COST * run,
                    0 <= run < pc.peaks@.len(),
                    forall|q: int|
                        0 <= q < run ==> orig[pc.end - q].background@.contains(
                            #[trigger] pc.peaks@[pc.peaks@.len() - 1 - q],
                        ),
                    run <= spent_run(),
                    orig[pc.end - run].foreground@.contains(pc.peaks@[pc.peaks@.len() - 1 - run]),
                    foreground_paced(pc, orig),
                    n == frames@.len(),
                    0 <= i < n,
                    frames@[i as int] == fi,
                    fi.foreground@.len() < fi_before.foreground@.len(),
                    holds_no_more(frames@, orig),
                    forall|f: int| 0 <= f < i ==> (#[trigger] frames@[f]).foreground@.len() == 0,
                    forall|c: int| 0 <= c < out@.len() ==> follows_frames(#[trigger] out@[c], orig),
                    pc.start == i,
                    i <= pc.end < n,
                    well_formed(pc),
                    continuous(pc),
                    drawn_from(pc, orig),
                    nan_free(orig) ==> nan_free(frames@) && conserved_with(orig, frames@, out@, pc),
                    prev == pc.peaks@.last().bin,
                    pc.peaks@[0] == seed,
                    !pc.boosted,
                    extended_forwards(frames_model(frames@), contour_model(pc), prev, gap) == fwd,
                ensures
                    frames_model(frames@) == fwd.0,
                    contour_model(pc) == fwd.1,
                    stopped_after(pc, frames@, orig),
                decreases n - pc.end,
            {
                let j = pc.end + 1;
                let ghost frames_b = frames@;
                let r = frames[j].extract_peak(prev, gap);
                proof {
                    assert(frames@ =~= frames_b.update(j as int, frames@[j as int]));
                    lemma_frame_extraction(orig, frames_b, frames@, out@, pc, j as int, prev, gap, r);
                    lemma_stops_kept(out@, frames_b, frames@, orig);
                }
                match r {
                    Some((peak, g)) => {
                        let ghost old_pc = pc.peaks@;
                        let ghost old_c = pc;
                        pc.add(peak, j);
                        proof {
                            if nan_free(orig) {
                                lemma_peak_at_extended(old_c, pc, peak, j as int);
                                lemma_conserved_move(orig, frames_b, frames@, out@, old_c, pc, j as int, peak);
                            }
                        }
                        prev = peak.bin;
                        gap = g;
                        proof {
                            assert(held(orig[j as int], peak));
                            assert forall|q: int| 0 <= q < pc.peaks@.len() implies 0 <= pc.start + q < orig.len()
                                && held(orig[pc.start + q], #[trigger] pc.peaks@[q]) by {
                                if q < old_pc.len() {
                                    assert(pc.peaks@[q] == old_pc[q]);
                                }
                            }
                            assert forall|q: int| 0 <= q < pc.peaks@.len() - 1 implies is_close(
                                #[trigger] pc.peaks@[q + 1].bin,
                                pc.peaks@[q].bin,
                            ) by {
                                if q < old_pc.len() - 1 {
                                    assert(pc.peaks@[q + 1] == old_pc[q + 1]);
                                    assert(pc.peaks@[q] == old_pc[q]);
                                }
                            }
                            let ghost old_run = run;
                            run = if g == FULL_GAP { 0 } else { old_run + 1 };
                            let ghost n0 = old_pc.len() as int;
                            assert(pc.peaks@[n0] == peak);
                            assert(pc.peaks@[n0 - 1 - old_run] == old_pc[n0 - 1 - old_run]);
                            assert forall|w: int| 0 <= w && w + spent_run() < pc.peaks@.len() implies #[trigger] foreground_within(
                                pc,
                                orig,
                                w,
                            ) by {
                                if w + spent_run() < n0 {
                                    assert(foreground_within(old_c, orig, w));
                                    let q = choose|q: int|
                                        w <= q <= w + spent_run() && #[trigger] orig[old_c.start + q].foreground@.contains(
                                            old_c.peaks@[q],
                                        );
                                    assert(pc.peaks@[q] == old_pc[q]);
                                    assert(orig[pc.start + q].foreground@.contains(pc.peaks@[q]));
                                } else if g == FULL_GAP {
                                    assert(orig[pc.start + n0].foreground@.contains(pc.peaks@[n0]));
                                } else {
                                    assert(orig[pc.start + (n0 - 1 - old_run)].foreground@.contains(
                                        pc.peaks@[n0 - 1 - old_run],
                                    ));
                                }
                            }
                            assert forall|q: int| 0 <= q < run implies orig[pc.end - q].background@.contains(
                                #[trigger] pc.peaks@[pc.peaks@.len() - 1 - q],
                            ) by {
                                if q > 0 {
                                    assert(pc.peaks@[pc.peaks@.len() - 1 - q] == old_pc[old_pc.len() - 1 - (q - 1)]);
                                    assert(orig[old_c.end - (q - 1)].background@.contains(
                                        old_c.peaks@[old_c.peaks@.len() - 1 - (q - 1)],
                                    ));
                                }
                            }
                        }
                    },
                    None => {
                        break;
                    },
                }
            }
            // backwards
            gap = FULL_GAP;
            prev = pc.peaks[0].bin;
            let ghost bwd = extended_backwards(fwd.0, fwd.1, fwd.1.peaks[0].bin, FULL_GAP);
            assert(grown_from_seed(s0, i as int) == bwd);
            proof {
                run = 0;
            }
            while pc.start > 0 && gap > 0
                invariant
                    lists_no_more(frames@, orig),
                    forall|c: int|
                        0 <= c < out@.len() ==> stopped_before(#[trigger] out@[c], frames@, orig)
                            && stopped_after(out@[c], frames@, orig),
                    gap == FULL_GAP - crate::salience::BACKGROUND_GAP_COST * run,
                    0 <= run < pc.peaks@.len(),
                    forall|q: int| 0 <= q < run ==> orig[pc.start + q].background@.contains(#[trigger] pc.peaks@[q]),
                    stopped_after(pc, frames@, orig),
                    run <= spent_run(),
                    orig[pc.start + run].foreground@.contains(pc.peaks@[run]),
                    foreground_paced(pc, orig),
                    n == frames@.len(),
                    0 <= i < n,
                    frames@[i as int] == fi,
                    fi.foreground@.len() < fi_before.foreground@.len(),
                    holds_no_more(frames@, orig),
                    forall|f: int| 0 <= f < i ==> (#[trigger] frames@[f]).foreground@.len() == 0,
                    forall|c: int| 0 <= c < out@.len() ==> follows_frames(#[trigger] out@[c], orig),
                    pc.start <= i,
                    i <= pc.end < n,
                    well_formed(pc),
                    continuous(pc),
                    drawn_from(pc, orig),
                    nan_free(orig) ==> nan_free(frames@) && conserved_with(orig, frames@, out@, pc),
                    prev == pc.peaks@[0].bin,
                    !pc.boosted,
                    extended_backwards(frames_model(frames@), contour_model(pc), prev, gap) == bwd,
                ensures
                    frames_model(frames@) == bwd.0,
                    contour_model(pc) == bwd.1,
                    stopped_before(pc, frames@, orig),
                decreases pc.start,
            {
                let j = pc.start - 1;
                let ghost frames_b = frames@;
                let r = frames[j].extract_peak(prev, gap);
                proof {
                    assert(frames@ =~= frames_b.update(j as int, frames@[j as int]));
                    lemma_frame_extraction(orig, frames_b, frames@, out@, pc, j as int, prev, gap, r);
                    lemma_stops_kept(out@, frames_b, frames@, orig);
                }
                match r {
                    Some((peak, g)) => {
                        let ghost old_pc = pc.peaks@;
                        let ghost prev0 = prev;
                        let ghost old_c = pc;
                        assert(is_close(peak.bin, prev0));
                        assert(prev0 == old_pc[0].bin);
                        pc.add(peak, j);
                        proof {
                            if nan_free(orig) {
                                lemma_peak_at_extended(old_c, pc, peak, j as int);
                                lemma_conserved_move(orig, frames_b, frames@, out@, old_c, pc, j as int, peak);
                            }
                        }
                        prev = peak.bin;
                        gap = g;
                        proof {
                            assert(held(orig[j as int], peak));
                            assert forall|q: int| 0 <= q < pc.peaks@.len() implies 0 <= pc.start + q < orig.len()
                                && held(orig[pc.start + q], #[trigger] pc.peaks@[q]) by {
                                if q > 0 {
                                    assert(pc.peaks@[q] == old_pc[q - 1]);
                                }
                            }
                            assert forall|q: int| 0 <= q < pc.peaks@.len() - 1 implies is_close(
                                #[trigger] pc.peaks@[q + 1].bin,
                                pc.peaks@[q].bin,
                            ) by {
                                if q > 0 {
                                    assert(pc.peaks@[q + 1] == old_pc[q]);
                                    assert(pc.peaks@[q] == old_pc[q - 1]);
                                    assert(is_close(old_pc[(q - 1) + 1].bin, old_pc[q - 1].bin));
                                } else {
                                    assert(pc.peaks@[1] == old_pc[0]);
                                    assert(pc.peaks@[0] == peak);
                                }
                            }
                            let ghost old_run = run;
                            run = if g == FULL_GAP { 0 } else { old_run + 1 };
                            assert(pc.peaks@[0] == peak);
                            assert(pc.peaks@[old_run + 1] == old_pc[old_run]);
                            assert forall|w: int| 0 <= w && w + spent_run() < pc.peaks@.len() implies #[trigger] foreground_within(
                                pc,
                                orig,
                                w,
                            ) by {
                                if w > 0 {
                                    assert(foreground_within(old_c, orig, w - 1));
                                    let q = choose|q: int|
                                        w - 1 <= q <= w - 1 + spent_run() && #[trigger] orig[old_c.start + q].foreground@.contains(
                                            old_c.peaks@[q],
                                        );
                                    assert(pc.peaks@[q + 1] == old_pc[q]);
                                    assert(orig[pc.start + (q + 1)].foreground@.contains(pc.peaks@[q + 1]));
                                } else if g == FULL_GAP {
                                    assert(orig[pc.start + 0].foreground@.contains(pc.peaks@[0]));
                                } else {
                                    assert(orig[pc.start + (old_run + 1)].foreground@.contains(pc.peaks@[old_run + 1]));
                                }
                            }
                            assert forall|q: int| 0 <= q < run implies orig[pc.start + q].background@.contains(
                                #[trigger] pc.peaks@[q],
                            ) by {
                                if q > 0 {
                                    assert(pc.peaks@[q] == old_pc[q - 1]);
                                    assert(orig[old_c.start + (q - 1)].background@.contains(old_c.peaks@[q - 1]));
                                }
                            }
                            if pc.end + 1 < n {
                                assert(frames@[pc.end + 1] == frames_b[pc.end + 1]);
                            }
                            assert(pc.peaks@.last() == old_pc.last());
                            if pc.end + 1 < n && trailed_by_background(old_c, orig) {
                                assert forall|q: int| 0 <= q < spent_run() implies orig[pc.end - q].background@.contains(
                                    #[trigger] pc.peaks@[pc.peaks@.len() - 1 - q],
                                ) by {
                                    assert(pc.peaks@[pc.peaks@.len() - 1 - q] == old_pc[old_pc.len() - 1 - q]);
                                    assert(orig[old_c.end - q].background@.contains(
                                        old_c.peaks@[old_c.peaks@.len() - 1 - q],
                                    ));
                                }
                            }
                        }
                    },
                    None => {
                        break;
                    },
                }
            }
            let ghost out_before = out@;
            let ghost last_pc = pc;
            out.push(pc);
            proof {
                assert(contours_model(out@) =~= o0.push(contour_model(last_pc)));
                assert(frames@[i as int] == fi);
                assert(fi.foreground@.len() == fi_before.foreground@.len() - 1);
                assert forall|c: int| 0 <= c < out@.len() implies !(#[trigger] out@[c]).boosted by {
                    if c < out@.len() - 1 {
                        assert(out@[c] == out_before[c]);
                    }
                }
                if nan_free(orig) {
                    lemma_conserved_push(orig, frames@, out_before, last_pc);
                }
                assert forall|c: int| 0 <= c < out@.len() implies follows_frames(#[trigger] out@[c], orig) by {
                    if c < out@.len() - 1 {
                    }
                }
            }
        }
        i = i + 1;
    }
    out
}

} // verus!
