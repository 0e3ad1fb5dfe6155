//! Melody extraction after Salamon and Gómez: the discrete core of the
//! pipeline (peak picking, pitch-contour tracking, contour selection and
//! MIDI event generation), each function with its contract and proof.
//!
//! Sample values (magnitudes, saliences, pitch means) are carried through
//! the library as the bit patterns of IEEE-754 single-precision numbers
//! (`u32`); `real_bits` gives those patterns the order of the numbers
//! they encode. Arithmetic on the numbers themselves happens outside the
//! library.
pub mod real_bits;
pub mod ordering;
pub mod salience;
pub mod contour;
pub mod peaks;
pub mod select;
pub mod midi;
pub mod stft_frame;
