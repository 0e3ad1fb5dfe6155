# melody_extraction

Melody extraction from polyphonic audio after Salamon and Gómez: spectral
peaks, a harmonic salience function, pitch contours tracked through the
salience peaks, octave-error and outlier removal, and the choice of one
pitch per frame; the melody can be plotted or written as a MIDI file.

The library (`src/`) holds the discrete part of the method and is
verified with Verus:

- `real_bits` – comparison of single-precision numbers given by their bit
  patterns (the library carries sample values this way and never does
  arithmetic on them);
- `peaks` – strict local maxima of a sampled function;
- `salience` – a frame's salience peaks, their foreground/background split,
  and the extraction of the peak that continues a contour;
- `contour` – pitch contours and their tracking through the frames;
- `select` – per-frame pitch gathering, octave-duplicate and outlier
  removal, and the final per-frame choice;
- `midi` – the MIDI events of a melody;
- `stft_frame` – the spectral peaks of one frame;
- `ordering` – stable sorting into descending key order.

`app/` is the program around it: audio decoding, the STFT, the salience
function, means and deviations, filtering, tempo estimation, plotting and
MIDI output.

The STFT in `app/analysis.rs` comes from the `stft` crate, which
`Cargo.toml` does not list: its dependency tree includes `nalgebra`
0.5.1, whose manifest current cargo rejects. Until a buildable
release of it (or of that dependency) is available, `app/` does not
build; the library and its tests do not depend on it.
