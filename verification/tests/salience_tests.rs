use melody_extraction::salience::{
    SalienceFramePeaks, SaliencePeak, BACKGROUND_GAP_COST, FULL_GAP,
};

fn sp(bin: usize, s: f32) -> SaliencePeak {
    SaliencePeak::new(bin, s.to_bits())
}

#[test]
fn first_split_by_threshold() {
    let peaks = vec![sp(1, 1.0), sp(2, 5.0), sp(3, 4.4), sp(4, 4.5), sp(5, f32::NAN)];
    let f = SalienceFramePeaks::new(&peaks, (0.9f32 * 5.0).to_bits());
    let fg: Vec<usize> = f.foreground.iter().map(|p| p.bin).collect();
    let bg: Vec<usize> = f.background.iter().map(|p| p.bin).collect();
    assert_eq!(fg, vec![2, 4, 5]);
    assert_eq!(bg, vec![1, 3]);
}

#[test]
fn settle_moves_weak_peaks_and_sorts() {
    let mut f = SalienceFramePeaks::new(&Vec::new(), f32::NEG_INFINITY.to_bits());
    f.foreground = vec![sp(1, 2.0), sp(2, 5.0), sp(3, 0.5), sp(4, 5.0), sp(5, 3.0), sp(6, f32::NAN)];
    f.background = vec![sp(9, 0.1)];
    f.settle(1.0f32.to_bits());
    let fg: Vec<usize> = f.foreground.iter().map(|p| p.bin).collect();
    let bg: Vec<usize> = f.background.iter().map(|p| p.bin).collect();
    assert_eq!(fg, vec![2, 4, 5, 1]);
    assert_eq!(bg, vec![9, 3]);
}

#[test]
fn settle_with_nan_threshold_empties_foreground() {
    let mut f = SalienceFramePeaks::new(&vec![sp(1, 2.0), sp(2, 3.0)], 0.0f32.to_bits());
    f.settle(f32::NAN.to_bits());
    assert!(f.foreground.is_empty());
    assert!(f.background.is_empty());
}

#[test]
fn extraction_prefers_foreground_and_spends_gap() {
    let mut f = SalienceFramePeaks::new(&Vec::new(), f32::NEG_INFINITY.to_bits());
    f.foreground = vec![sp(30, 1.0), sp(52, 1.0)];
    f.background = vec![sp(49, 0.5)];
    let r = f.extract_peak(50, 500);
    assert_eq!(r, Some((sp(52, 1.0), FULL_GAP)));
    assert_eq!(f.foreground, vec![sp(30, 1.0)]);
    let r = f.extract_peak(50, 500);
    assert_eq!(r, Some((sp(49, 0.5), 500 - BACKGROUND_GAP_COST)));
    assert!(f.background.is_empty());
    assert_eq!(f.extract_peak(50, 500), None);
}

#[test]
fn extraction_needs_budget_and_reach() {
    let mut f = SalienceFramePeaks::new(&Vec::new(), f32::NEG_INFINITY.to_bits());
    f.foreground = vec![sp(58, 1.0), sp(42, 1.0)];
    f.background = vec![];
    assert_eq!(f.extract_peak(50, 0), None);
    assert_eq!(f.extract_peak(50, -3), None);
    assert_eq!(f.extract_peak(50, 1), Some((sp(58, 1.0), FULL_GAP)));
    assert_eq!(f.extract_peak(50, 1), Some((sp(42, 1.0), FULL_GAP)));
    let mut g = SalienceFramePeaks::new(&Vec::new(), f32::NEG_INFINITY.to_bits());
    g.foreground = vec![sp(59, 1.0), sp(41, 1.0)];
    assert_eq!(g.extract_peak(50, 1000), None);
}

#[test]
fn nan_peak_is_returned_but_stays() {
    let mut f = SalienceFramePeaks::new(&Vec::new(), f32::NEG_INFINITY.to_bits());
    f.foreground = vec![sp(50, f32::NAN)];
    let r = f.extract_peak(50, 10);
    assert!(r.is_some());
    assert_eq!(f.foreground.len(), 1);
}

#[test]
fn gap_budget_matches_single_precision() {
    let mut budget = FULL_GAP;
    let mut steps = 0;
    while budget > 0 {
        budget -= BACKGROUND_GAP_COST;
        steps += 1;
    }
    // the single-precision budget 100 - 2.9 k stays positive for the same k
    let mut g: f32 = 100.0;
    let mut fsteps = 0;
    while g > 0.0 {
        g -= 2.9;
        fsteps += 1;
    }
    assert_eq!(steps, 35);
    assert_eq!(steps, fsteps);
    assert!(f32::from_bits(SaliencePeak::new(0, 1.0f32.to_bits()).salience) == 1.0);
}

#[test]
fn peaks_compare_by_bin_and_salience_value() {
    assert!(sp(3, 0.0) == sp(3, -0.0));
    assert!(sp(3, 1.0) != sp(4, 1.0));
    assert!(sp(3, 1.0) != sp(3, 2.0));
    assert!(sp(3, f32::NAN) != sp(3, f32::NAN));
}
