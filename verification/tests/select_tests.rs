use melody_extraction::contour::PitchContour;
use melody_extraction::salience::SaliencePeak;
use melody_extraction::select::{
    frame_pitch_bins, octave_deletions, octave_verdict, overlap_distances, overlap_span,
    remove_flagged, remove_pitch_outliers, retain_salient, select_final_bins, sort_contours,
    OctaveEvidence, OctaveVerdict, FAR_DISTANCE_BITS, OCTAVE_HIGH_BITS, OCTAVE_LOW_BITS,
    OUTLIER_DISTANCE_BITS,
};

fn sp(bin: usize, s: f32) -> SaliencePeak {
    SaliencePeak::new(bin, s.to_bits())
}

fn contour(start: usize, bins: &[usize], s: f32) -> PitchContour {
    let mut c = PitchContour::new(sp(bins[0], s), start);
    for (k, &b) in bins.iter().enumerate().skip(1) {
        c.add(sp(b, s), start + k);
    }
    c
}

fn mean(v: &[f32]) -> f32 {
    if v.is_empty() {
        0.0
    } else {
        v.iter().sum::<f32>() / v.len() as f32
    }
}

fn mean_salience(c: &PitchContour) -> f32 {
    mean(&c.peaks.iter().map(|p| f32::from_bits(p.salience)).collect::<Vec<_>>())
}

fn total_salience(c: &PitchContour) -> f32 {
    let m = if c.is_boosted() { 1.5 } else { 1.0 };
    c.peaks.iter().map(|p| f32::from_bits(p.salience)).sum::<f32>() * m
}

fn evidence(curr: &PitchContour, cmpson: &PitchContour, mpm: &[f32]) -> OctaveEvidence {
    let (lo, hi) = overlap_span(curr, cmpson, mpm.len());
    let d = overlap_distances(curr, cmpson, mpm.len());
    let mean_overlap = mean(&d.iter().map(|&x| x as f32).collect::<Vec<_>>());
    let mpm_overlap = if lo < hi { mean(&mpm[lo..hi]) } else { 0.0 };
    let t1 = total_salience(curr);
    let t2 = total_salience(cmpson);
    OctaveEvidence {
        mean_overlap: mean_overlap.to_bits(),
        first_total: t1.to_bits(),
        second_total: t2.to_bits(),
        half_second_total: (0.5 * t2).to_bits(),
        first_distance: (mean_salience(curr) - mpm_overlap).abs().to_bits(),
        second_distance: (mean_salience(cmpson) - mpm_overlap).abs().to_bits(),
    }
}

fn remove_octave_duplicates(pitch_contours: &mut Vec<PitchContour>, mpm: &[f32]) {
    sort_contours(pitch_contours);
    let n = pitch_contours.len();
    let mut verdicts = vec![vec![OctaveVerdict::Keep; n]; n];
    for i in 0..n {
        for j in i + 1..n {
            verdicts[i][j] = octave_verdict(&evidence(&pitch_contours[i], &pitch_contours[j], mpm));
        }
    }
    let del = octave_deletions(pitch_contours, &verdicts);
    remove_flagged(pitch_contours, &del);
}

#[test]
fn test_octave_dup() {
    let sp1 = sp(1, 0.);
    let pc1 = PitchContour::new(sp1, 0);
    let sp2 = sp(120, 1.);
    let pc2 = PitchContour::new(sp2, 0);
    let mpm: [f32; 1] = [120.];
    let mut pitch_contours = vec![pc1, pc2];

    remove_octave_duplicates(&mut pitch_contours, &mpm);

    assert!(pitch_contours.len() == 1);
}

#[test]
fn octave_duplicate_keeps_the_stronger() {
    let mut pcs = vec![contour(0, &[1], 0.0), contour(0, &[120], 1.0)];
    remove_octave_duplicates(&mut pcs, &[120.0]);
    assert_eq!(pcs[0].peaks[0].bin, 120);
}

#[test]
fn band_constants_encode_their_values() {
    assert_eq!(OCTAVE_LOW_BITS, 115.0f32.to_bits());
    assert_eq!(OCTAVE_HIGH_BITS, 125.0f32.to_bits());
    assert_eq!(FAR_DISTANCE_BITS, 60.0f32.to_bits());
    assert_eq!(OUTLIER_DISTANCE_BITS, 120.0f32.to_bits());
}

fn ev(mean_overlap: f32, t1: f32, t2: f32, d1: f32, d2: f32) -> OctaveEvidence {
    OctaveEvidence {
        mean_overlap: mean_overlap.to_bits(),
        first_total: t1.to_bits(),
        second_total: t2.to_bits(),
        half_second_total: (0.5 * t2).to_bits(),
        first_distance: d1.to_bits(),
        second_distance: d2.to_bits(),
    }
}

#[test]
fn verdict_cases() {
    // outside the octave band: keep both
    assert_eq!(octave_verdict(&ev(114.9, 0.0, 10.0, 0.0, 0.0)), OctaveVerdict::Keep);
    assert_eq!(octave_verdict(&ev(125.1, 0.0, 10.0, 0.0, 0.0)), OctaveVerdict::Keep);
    assert_eq!(octave_verdict(&ev(f32::NAN, 0.0, 10.0, 0.0, 0.0)), OctaveVerdict::Keep);
    // band edges are inside
    assert_eq!(octave_verdict(&ev(115.0, 1.0, 10.0, 0.0, 0.0)), OctaveVerdict::DropFirst);
    assert_eq!(octave_verdict(&ev(125.0, 1.0, 10.0, 0.0, 0.0)), OctaveVerdict::DropFirst);
    // a negative second total is below its own half
    assert_eq!(octave_verdict(&ev(120.0, 0.0, -2.0, 0.0, 0.0)), OctaveVerdict::DropSecond);
    // both far: smaller total goes, the second on a tie
    assert_eq!(octave_verdict(&ev(120.0, 6.0, 10.0, 70.0, 80.0)), OctaveVerdict::DropFirst);
    assert_eq!(octave_verdict(&ev(120.0, 10.0, 6.0, 70.0, 80.0)), OctaveVerdict::DropSecond);
    assert_eq!(octave_verdict(&ev(120.0, 10.0, 10.0, 70.0, 80.0)), OctaveVerdict::DropSecond);
    // otherwise the one farther from the pitch mean goes
    assert_eq!(octave_verdict(&ev(120.0, 10.0, 10.0, 70.0, 10.0)), OctaveVerdict::DropFirst);
    assert_eq!(octave_verdict(&ev(120.0, 10.0, 10.0, 10.0, 70.0)), OctaveVerdict::DropSecond);
    assert_eq!(octave_verdict(&ev(120.0, 10.0, 10.0, 10.0, 10.0)), OctaveVerdict::DropSecond);
}

#[test]
fn overlap_reads_second_contour_from_its_first_peak() {
    let a = contour(2, &[10, 11, 12, 13], 1.0);
    let b = contour(0, &[100, 101, 102, 103, 104], 1.0);
    assert_eq!(overlap_span(&a, &b, 10), (2, 5));
    // second contour read at offsets 0.. from its own first peak
    assert_eq!(overlap_distances(&a, &b, 10), vec![90, 90, 90]);
    assert_eq!(overlap_span(&a, &b, 4), (2, 4));
    assert_eq!(overlap_distances(&a, &b, 4), vec![90, 90]);
    assert_eq!(overlap_distances(&a, &b, 1), Vec::<usize>::new());
}

#[test]
fn deletions_follow_the_order_of_comparison() {
    let pcs = vec![contour(0, &[1], 1.0), contour(0, &[2], 1.0), contour(0, &[3], 1.0)];
    let mut v = vec![vec![OctaveVerdict::Keep; 3]; 3];
    v[0][1] = OctaveVerdict::DropFirst;
    v[0][2] = OctaveVerdict::DropSecond; // never judged: contour 0 is gone
    v[1][2] = OctaveVerdict::DropSecond;
    assert_eq!(octave_deletions(&pcs, &v), vec![true, false, true]);
    // a later contour starting after the first ends stops the row
    let pcs = vec![contour(0, &[1], 1.0), contour(3, &[2], 1.0), contour(0, &[3], 1.0)];
    let mut v = vec![vec![OctaveVerdict::Keep; 3]; 3];
    v[0][2] = OctaveVerdict::DropSecond;
    assert_eq!(octave_deletions(&pcs, &v), vec![false, false, false]);
}

#[test]
fn swap_removal_from_the_top() {
    let mut pcs: Vec<PitchContour> = (0..5).map(|k| contour(k, &[k], 1.0)).collect();
    remove_flagged(&mut pcs, &[true, false, true, false, false]);
    let starts: Vec<usize> = pcs.iter().map(|c| c.start).collect();
    assert_eq!(starts, vec![3, 1, 4]);
}

#[test]
fn sorting_is_descending_and_stable() {
    let mut pcs = vec![
        contour(1, &[10, 10], 1.0),
        contour(3, &[20], 1.0),
        contour(1, &[30, 30], 1.0),
        contour(1, &[40], 1.0),
    ];
    sort_contours(&mut pcs);
    let bins: Vec<usize> = pcs.iter().map(|c| c.peaks[0].bin).collect();
    assert_eq!(bins, vec![20, 10, 30, 40]);
}

#[test]
fn frame_bins_in_contour_order() {
    let pcs = vec![contour(1, &[10, 11], 1.0), contour(0, &[20, 21, 22], 1.0)];
    let pf = frame_pitch_bins(4, &pcs);
    assert_eq!(pf, vec![vec![20], vec![10, 21], vec![11, 22], vec![]]);
}

#[test]
fn final_bins_pick_first_strongest() {
    let pcs = vec![
        contour(0, &[10, 11], 1.0),
        contour(1, &[20, 21], 1.0),
        contour(1, &[30], 1.0),
    ];
    let totals = [2.0f32.to_bits(), 5.0f32.to_bits(), 5.0f32.to_bits()];
    let r = select_final_bins(4, &pcs, &totals);
    assert_eq!(r, vec![Some(10), Some(20), Some(21), None]);
    let nan_totals = [f32::NAN.to_bits(), f32::NEG_INFINITY.to_bits(), 1.0f32.to_bits()];
    let r = select_final_bins(3, &pcs, &nan_totals);
    assert_eq!(r, vec![None, Some(30), None]);
}

#[test]
fn retain_keeps_salient_in_order() {
    let mut pcs: Vec<PitchContour> = (0..4).map(|k| contour(k, &[k], 1.0)).collect();
    let means = [1.0f32, 0.2, f32::NAN, 0.5].map(|x| x.to_bits());
    retain_salient(&mut pcs, &means, 0.5f32.to_bits());
    let starts: Vec<usize> = pcs.iter().map(|c| c.start).collect();
    assert_eq!(starts, vec![0, 3]);
}

#[test]
fn outliers_are_removed_from_the_top() {
    let mut pcs: Vec<PitchContour> = (0..4).map(|k| contour(k, &[k], 1.0)).collect();
    let d = [120.0f32, 119.9, 300.0, 0.0].map(|x| x.to_bits());
    remove_pitch_outliers(&mut pcs, &d);
    let starts: Vec<usize> = pcs.iter().map(|c| c.start).collect();
    assert_eq!(starts, vec![3, 1]);
}

#[test]
fn second_octave_pass_removes_nothing() {
    let mut pcs = vec![
        contour(0, &[1, 2], 0.5),
        contour(0, &[120, 121], 1.0),
        contour(1, &[300], 2.0),
    ];
    let mpm = [120.0f32, 121.0];
    remove_octave_duplicates(&mut pcs, &mpm);
    let after_first: Vec<(usize, usize)> = pcs.iter().map(|c| (c.start, c.peaks[0].bin)).collect();
    assert_eq!(after_first.len(), 2);
    remove_octave_duplicates(&mut pcs, &mpm);
    let mut after_second: Vec<(usize, usize)> = pcs.iter().map(|c| (c.start, c.peaks[0].bin)).collect();
    let mut first_sorted = after_first.clone();
    first_sorted.sort();
    after_second.sort();
    assert_eq!(after_second, first_sorted);
}

#[test]
fn all_kept_verdicts_mark_nothing() {
    let pcs = vec![contour(0, &[1], 1.0), contour(0, &[2], 1.0), contour(0, &[3], 1.0)];
    let v = vec![vec![OctaveVerdict::Keep; 3]; 3];
    assert_eq!(octave_deletions(&pcs, &v), vec![false, false, false]);
}
