use melody_extraction::stft_frame::{STFTFramePeaks, STFTPeak};

#[test]
fn frame_tracks_greatest_magnitude() {
    let mut f = STFTFramePeaks::default();
    assert_eq!(f32::from_bits(f.max_mag()), f32::NEG_INFINITY);
    f.add(440.0f32.to_bits(), 0.5f32.to_bits());
    f.add(880.0f32.to_bits(), f32::NAN.to_bits());
    f.add(220.0f32.to_bits(), 2.0f32.to_bits());
    f.add(110.0f32.to_bits(), 1.0f32.to_bits());
    assert_eq!(f32::from_bits(f.max_mag()), 2.0);
    assert_eq!(f.peaks().len(), 4);
    assert_eq!(f32::from_bits(f.peaks()[0].freq()), 440.0);
    assert_eq!(f32::from_bits(f.peaks()[2].mag()), 2.0);
    let p = STFTPeak::new(1.0f32.to_bits(), 2.0f32.to_bits());
    assert_eq!((p.freq, p.mag), (1.0f32.to_bits(), 2.0f32.to_bits()));
}

#[test]
fn greatest_magnitude_matches_single_precision_max() {
    let mags = [0.25f32, -3.0, f32::NAN, 7.5, f32::INFINITY, 1.0];
    let mut f = STFTFramePeaks::new();
    let mut m = f32::NEG_INFINITY;
    for &x in mags.iter() {
        f.add(0, x.to_bits());
        m = f32::max(m, x);
        assert_eq!(f32::from_bits(f.max_mag()), m);
    }
}
