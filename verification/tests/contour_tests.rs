use melody_extraction::contour::{track_contours, PitchContour};
use melody_extraction::salience::{SalienceFramePeaks, SaliencePeak};

fn sp(bin: usize, s: f32) -> SaliencePeak {
    SaliencePeak::new(bin, s.to_bits())
}

fn empty_frame() -> SalienceFramePeaks {
    // 0.9 times the greatest salience of no peaks is negative infinity
    SalienceFramePeaks::new(&Vec::new(), f32::NEG_INFINITY.to_bits())
}

#[test]
fn test_gap_len() {
    let mut sfp = Vec::new();
    let mut ans = Vec::new();

    let mut curr = empty_frame();
    curr.foreground = vec![sp(22, 1.)];
    curr.background = vec![];
    sfp.push(curr);
    ans.push(sp(22, 1.));

    for _ in 1..37 {
        let mut curr = empty_frame();
        curr.foreground = vec![sp(9, 1.)];
        curr.background = vec![sp(20, 1.)];
        sfp.push(curr);
        ans.push(sp(20, 1.));
    }

    let pc = track_contours(&mut sfp);
    assert!(pc[0].peaks.len() == 36);
    assert!(
        pc[0]
            .peaks
            .iter()
            .zip(&ans)
            .filter(|&(x, y)| x == y)
            .count()
            == 36
    );
}

#[test]
fn test_backwards() {
    let mut sfp = Vec::new();
    let mut ans = Vec::new();

    let mut curr = empty_frame();
    curr.foreground = vec![sp(22, 1.)];
    curr.background = vec![sp(13, 1.)];
    sfp.push(curr);
    ans.push(sp(13, 1.));

    let mut curr = empty_frame();
    curr.foreground = vec![sp(12, 1.)];
    curr.background = vec![];
    sfp.push(curr);
    ans.push(sp(12, 1.));

    let pc = track_contours(&mut sfp);
    assert!(pc.len() == 2);
    assert!(pc[1].peaks.len() == 2);
    assert!(
        pc[1]
            .peaks
            .iter()
            .zip(&ans)
            .filter(|&(x, y)| x == y)
            .count()
            == 2
    );
}

#[test]
fn contour_grows_at_both_ends() {
    let mut c = PitchContour::new(sp(50, 1.0), 5);
    assert_eq!((c.start, c.end, c.peaks.len()), (5, 5, 1));
    c.add(sp(52, 1.0), 6);
    c.add(sp(48, 1.0), 4);
    assert_eq!((c.start, c.end), (4, 6));
    let bins: Vec<usize> = c.peaks.iter().map(|p| p.bin).collect();
    assert_eq!(bins, vec![48, 50, 52]);
    assert!(!c.is_boosted());
}

#[test]
fn multiplier_raised_only_above_four() {
    let mut c = PitchContour::new(sp(50, 1.0), 0);
    c.set_multiplier(4.0f32.to_bits());
    assert!(!c.is_boosted());
    c.set_multiplier(f32::NAN.to_bits());
    assert!(!c.is_boosted());
    c.set_multiplier(4.5f32.to_bits());
    assert!(c.is_boosted());
    c.set_multiplier(0.0f32.to_bits());
    assert!(c.is_boosted());
}

#[test]
fn tracking_empties_foregrounds_and_keeps_every_peak() {
    let mut sfp = Vec::new();
    let mut f0 = empty_frame();
    f0.foreground = vec![sp(100, 3.0), sp(300, 2.0)];
    f0.background = vec![sp(200, 0.5)];
    sfp.push(f0);
    let mut f1 = empty_frame();
    f1.foreground = vec![sp(104, 3.0)];
    f1.background = vec![sp(296, 0.4), sp(150, 0.3)];
    sfp.push(f1);
    let mut f2 = empty_frame();
    f2.foreground = vec![sp(400, 1.0)];
    f2.background = vec![];
    sfp.push(f2);

    let pc = track_contours(&mut sfp);
    // contours: 100->104 from frame 0, 300->296 from frame 0, 400 at frame 2
    assert_eq!(pc.len(), 3);
    let spans: Vec<(usize, usize)> = pc.iter().map(|c| (c.start, c.end)).collect();
    assert_eq!(spans, vec![(0, 1), (0, 1), (2, 2)]);
    assert_eq!(pc[0].peaks.iter().map(|p| p.bin).collect::<Vec<_>>(), vec![100, 104]);
    assert_eq!(pc[1].peaks.iter().map(|p| p.bin).collect::<Vec<_>>(), vec![300, 296]);
    for f in sfp.iter() {
        assert!(f.foreground.is_empty());
    }
    assert_eq!(sfp[0].background.iter().map(|p| p.bin).collect::<Vec<_>>(), vec![200]);
    assert_eq!(sfp[1].background.iter().map(|p| p.bin).collect::<Vec<_>>(), vec![150]);
}
