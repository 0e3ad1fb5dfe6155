//! Spectral peaks of one STFT frame: frequency and magnitude of each, and
//! the greatest magnitude seen.
use vstd::prelude::*;
use crate::real_bits::{is_nan, real_lt, bits_is_nan, bits_lt, NEG_INFINITY_BITS};

verus! {

/// A spectral peak: instantaneous frequency (Hz) and magnitude, both bit
/// patterns of single-precision numbers.
#[derive(Clone, Copy, Debug, PartialEq, Eq, Structural)]
pub struct STFTPeak {
    pub freq: u32,
    pub mag: u32,
}

impl STFTPeak {
    pub fn new(f: u32, m: u32) -> (r: Self)
        ensures
            r.freq == f,
            r.mag == m,
    {
        STFTPeak { freq: f, mag: m }
    }

    /// The peak's frequency (bit pattern).
    pub fn freq(&self) -> (r: u32)
        ensures
            r == self.freq,
    {
        self.freq
    }

    /// The peak's magnitude (bit pattern).
    pub fn mag(&self) -> (r: u32)
        ensures
            r == self.mag,
    {
        self.mag
    }
}

/// The greater of two numbers; a NaN gives way to the other argument.
pub open spec fn real_max(a: u32, b: u32) -> u32 {
    if is_nan(a) {
        b
    } else if is_nan(b) {
        a
    } else if real_lt(a, b) {
        b
    } else {
        a
    }
}

/// The spectral peaks of one frame, in the order they were added, and the
/// greatest of their magnitudes (negative infinity when there is none).
pub struct STFTFramePeaks {
    peaks: Vec<STFTPeak>,
    max_mag: u32,
}

impl STFTFramePeaks {
    /// The peaks added so far.
    pub closed spec fn peak_list(&self) -> Seq<STFTPeak> {
        self.peaks@
    }

    /// The greatest magnitude added so far.
    pub closed spec fn greatest_magnitude(&self) -> u32 {
        self.max_mag
    }

    /// A frame with no peaks.
    pub fn new() -> (r: Self)
        ensures
            r.peak_list() == Seq::<STFTPeak>::empty(),
            r.greatest_magnitude() == NEG_INFINITY_BITS,
    {
        STFTFramePeaks { peaks: Vec::new(), max_mag: NEG_INFINITY_BITS }
    }

    /// Adds the peak of frequency `f` and magnitude `m`.
    pub fn add(&mut self, f: u32, m: u32)
        ensures
            final(self).peak_list() == old(self).peak_list().push(STFTPeak { freq: f, mag: m }),
            final(self).greatest_magnitude() == real_max(old(self).greatest_magnitude(), m),
    {
        let p = STFTPeak::new(f, m);
        self.peaks.push(p);
        self.max_mag = if bits_is_nan(self.max_mag) {
            m
        } else if bits_is_nan(m) {
            self.max_mag
        } else if bits_lt(self.max_mag, m) {
            m
        } else {
            self.max_mag
        };
    }

    /// The peaks added so far.
    pub fn peaks(&self) -> (r: &[STFTPeak])
        ensures
            r@ == self.peak_list(),
    {
        self.peaks.as_slice()
    }

    /// The greatest magnitude added so far (bit pattern).
    pub fn max_mag(&self) -> (r: u32)
        ensures
            r == self.greatest_magnitude(),
    {
        self.max_mag
    }
}

impl Default for STFTFramePeaks {
    fn default() -> (r: Self)
        ensures
            r.peak_list() == Seq::<STFTPeak>::empty(),
            r.greatest_magnitude() == NEG_INFINITY_BITS,
    {
        STFTFramePeaks::new()
    }
}

/// `max_mag` is a number no magnitude of `peaks` exceeds.
pub open spec fn bounds_all(max_mag: u32, peaks: Seq<STFTPeak>) -> bool {
    &&& !is_nan(max_mag)
    &&& forall|k: int| 0 <= k < peaks.len() ==> !real_lt(max_mag, #[trigger] peaks[k].mag)
}

/// The greatest magnitude of a frame bounds every magnitude added to it:
/// it holds of a new frame, and each `add` keeps it, while the new
/// magnitude, if it is a number, is either the new greatest magnitude or
/// does not exceed it.
pub proof fn lemma_greatest_magnitude_bounds(old_max: u32, peaks: Seq<STFTPeak>, f: u32, m: u32)
    ensures
        bounds_all(NEG_INFINITY_BITS, Seq::<STFTPeak>::empty()),
        bounds_all(old_max, peaks) ==> bounds_all(
            real_max(old_max, m),
            peaks.push(STFTPeak { freq: f, mag: m }),
        ),
        !is_nan(m) ==> !real_lt(real_max(old_max, m), m),
{
    if bounds_all(old_max, peaks) {
        let nm = real_max(old_max, m);
        let np = peaks.push(STFTPeak { freq: f, mag: m });
        assert forall|k: int| 0 <= k < np.len() implies !real_lt(nm, #[trigger] np[k].mag) by {
            if k < peaks.len() {
                assert(np[k] == peaks[k]);
                crate::real_bits::lemma_real_order(nm, peaks[k].mag, old_max);
                crate::real_bits::lemma_real_order(old_max, m, peaks[k].mag);
                crate::real_bits::lemma_real_order(peaks[k].mag, old_max, m);
            }
        }
    }
}

} // verus!
