use melody_extraction::peaks::{peak_indices, peaks_of_salience};

fn bits(v: &[f32]) -> Vec<u32> {
    v.iter().map(|x| x.to_bits()).collect()
}

#[test]
fn finds_strict_interior_maxima() {
    let a = bits(&[0.0, 1.0, 0.0, 2.0, 2.0, 1.0, 3.0, 0.5]);
    assert_eq!(peak_indices(&a), vec![1, 6]);
}

#[test]
fn short_arrays_have_no_peaks() {
    assert_eq!(peak_indices(&bits(&[])), Vec::<usize>::new());
    assert_eq!(peak_indices(&bits(&[1.0])), Vec::<usize>::new());
    assert_eq!(peak_indices(&bits(&[0.0, 1.0])), Vec::<usize>::new());
    assert_eq!(peak_indices(&bits(&[0.0, 1.0, 0.0])), vec![1]);
}

#[test]
fn edges_are_never_peaks_and_nan_blocks_peaks() {
    assert_eq!(peak_indices(&bits(&[5.0, 1.0, 5.0])), Vec::<usize>::new());
    assert_eq!(peak_indices(&bits(&[0.0, f32::NAN, 0.0, 1.0, 0.0])), vec![3]);
    assert_eq!(peak_indices(&bits(&[f32::NAN, 1.0, 0.0])), Vec::<usize>::new());
}

#[test]
fn negative_values_and_zeros() {
    assert_eq!(peak_indices(&bits(&[-3.0, -1.0, -2.0, -0.0, 0.0, -5.0])), vec![1]);
}

#[test]
fn salience_peaks_carry_bin_and_value() {
    let a = bits(&[0.0, 2.5, 1.0, 1.5, 0.0]);
    let p = peaks_of_salience(&a);
    assert_eq!(p.len(), 2);
    assert_eq!(p[0].bin, 1);
    assert_eq!(f32::from_bits(p[0].salience), 2.5);
    assert_eq!(p[1].bin, 3);
    assert_eq!(f32::from_bits(p[1].salience), 1.5);
}
