//! Local maxima of a sampled function.
use vstd::prelude::*;
use crate::real_bits::{real_lt, bits_lt};
use crate::salience::SaliencePeak;

verus! {

/// `i` is an interior index whose value exceeds both neighbours.
pub open spec fn is_peak(a: Seq<u32>, i: int) -> bool {
    &&& 1 <= i < a.len() - 1
    &&& real_lt(a[i - 1], a[i])
    &&& real_lt(a[i + 1], a[i])
}

/// `out` lists, in increasing order, exactly the peak indices of `a`.
pub open spec fn lists_peaks(a: Seq<u32>, out: Seq<usize>) -> bool {
    &&& forall|k: int| 0 <= k < out.len() ==> is_peak(a, #[trigger] out[k] as int)
    &&& forall|k: int, l: int| 0 <= k < l < out.len() ==> #[trigger] out[k] < #[trigger] out[l]
    &&& forall|i: int| #[trigger] is_peak(a, i) ==> out.contains(i as usize)
}

/// Indices of the strict local maxima of `arr` (values are bit patterns of
/// single-precision numbers), in increasing order. The first and last
/// index are never peaks; an array of fewer than three values has none.
pub fn peak_indices(arr: &[u32]) -> (out: Vec<usize>)
    ensures
        lists_peaks(arr@, out@),
{
    let mut out: Vec<usize> = Vec::new();
    let alen = arr.len();
    if alen > 2 {
        let mut i: usize = 1;
        while i < alen - 1
            invariant
                alen == arr@.len(),
                alen > 2,
                1 <= i <= alen - 1,
                forall|k: int| 0 <= k < out@.len() ==> is_peak(arr@, #[trigger] out@[k] as int),
                forall|k: int| 0 <= k < out@.len() ==> #[trigger] out@[k] < i,
                forall|k: int, l: int| 0 <= k < l < out@.len() ==> #[trigger] out@[k] < #[trigger] out@[l],
                forall|j: int| 1 <= j < i && #[trigger] is_peak(arr@, j) ==> out@.contains(j as usize),
            decreases alen - i,
        {
            if bits_lt(arr[i - 1], arr[i]) && bits_lt(arr[i + 1], arr[i]) {
                let ghost before = out@;
                out.push(i);
                proof {
                    assert(out@[out@.len() - 1] == i);
                    assert forall|j: int| 1 <= j < i + 1 && #[trigger] is_peak(arr@, j) implies out@.contains(j as usize) by {
                        if j < i {
                            let w = choose|w: int| 0 <= w < before.len() && before[w] == j as usize;
                            assert(out@[w] == j as usize);
                        }
                    }
                }
            }
            i = i + 1;
        }
    }
    proof {
        assert forall|j: int| #[trigger] is_peak(arr@, j) implies out@.contains(j as usize) by {
        }
    }
    out
}

/// The salience peaks of one frame's salience function: one per strict
/// local maximum, with its bin and value, in bin order.
pub fn peaks_of_salience(salience_bins: &[u32]) -> (r: Vec<SaliencePeak>)
    ensures
        exists|idx: Seq<usize>|
            {
                &&& #[trigger] lists_peaks(salience_bins@, idx)
                &&& r@.len() == idx.len()
                &&& forall|k: int|
                    0 <= k < idx.len() ==> (#[trigger] r@[k]).bin == idx[k] && r@[k].salience
                        == salience_bins@[idx[k] as int]
            },
{
    let ps = peak_indices(salience_bins);
    let mut r: Vec<SaliencePeak> = Vec::new();
    let mut k: usize = 0;
    while k < ps.len()
        invariant
            0 <= k <= ps@.len(),
            lists_peaks(salience_bins@, ps@),
            r@.len() == k,
            forall|m: int|
                0 <= m < k ==> (#[trigger] r@[m]).bin == ps@[m] && r@[m].salience
                    == salience_bins@[ps@[m] as int],
        decreases ps@.len() - k,
    {
        let x = ps[k];
        proof {
            assert(is_peak(salience_bins@, ps@[k as int] as int));
        }
        r.push(SaliencePeak::new(x, salience_bins[x]));
        k = k + 1;
    }
    r
}

} // verus!
