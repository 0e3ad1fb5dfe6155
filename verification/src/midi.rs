//! The MIDI track of a melody: a note-on at each change of note, a
//! note-off for the note before it unless that note was too short (then
//! the last event is dropped instead), framed by a tempo event and an
//! end-of-track event.
use vstd::prelude::*;

verus! {

/// Microseconds per minute.
pub const MICROS_PER_MINUTE: u32 = 60_000_000u32;

/// Velocity of every note event.
pub const VELOCITY: u8 = 0x7fu8;

/// An event of the melody's MIDI track. Note events are on channel 0 with
/// velocity `VELOCITY`; tempo and note-on events come with no delay.
#[derive(Clone, Copy, Debug, PartialEq, Eq, Structural)]
pub enum MidiMessage {
    /// Tempo in microseconds per quarter note.
    SetTempo { tempo: u32 },
    NoteOn { note: u8 },
    NoteOff { delta_time: u32, note: u8 },
    EndOfTrack,
}

/// Microseconds per quarter note at `bpm` beats per minute.
pub fn midi_tempo(bpm: u32) -> (r: u32)
    requires
        bpm > 0,
    ensures
        r == MICROS_PER_MINUTE / bpm,
{
    MICROS_PER_MINUTE / bpm
}

/// The three data bytes of a set-tempo event: the tempo's bits 16..24,
/// 8..16 and 0..8 (bits above 24 are dropped).
pub fn tempo_bytes(tempo: u32) -> (r: Vec<u8>)
    ensures
        r@ == seq![(tempo >> 16u32) as u8, (tempo >> 8u32) as u8, tempo as u8],
{
    vec![(tempo >> 16u32) as u8, (tempo >> 8u32) as u8, tempo as u8]
}

/// `msgs` without its last event, if it has one.
pub open spec fn popped(msgs: Seq<MidiMessage>) -> Seq<MidiMessage> {
    if msgs.len() > 0 {
        msgs.drop_last()
    } else {
        msgs
    }
}

/// The track so far, the sounding note and the frame where it began.
pub struct TrackState {
    pub msgs: Seq<MidiMessage>,
    pub note: u32,
    pub since: int,
}

/// The state after frame `t`, whose note is `notes[t]`; `ticks[n]` is the
/// length of `n` frames in MIDI ticks.
pub open spec fn track_step(
    st: TrackState,
    notes: Seq<u32>,
    ticks: Seq<u32>,
    threshold_ticks: u32,
    t: int,
) -> TrackState {
    let note = notes[t];
    if st.note != note {
        let d = ticks[t - st.since];
        let msgs = if d < threshold_ticks {
            popped(st.msgs)
        } else {
            st.msgs.push(MidiMessage::NoteOff { delta_time: d, note: st.note as u8 })
        };
        TrackState { msgs: msgs.push(MidiMessage::NoteOn { note: note as u8 }), note, since: t }
    } else {
        st
    }
}

/// The state after the first `t` frames.
pub open spec fn track_after(
    notes: Seq<u32>,
    ticks: Seq<u32>,
    tempo: u32,
    threshold_ticks: u32,
    t: int,
) -> TrackState
    decreases t,
{
    if t <= 0 {
        TrackState { msgs: seq![MidiMessage::SetTempo { tempo }], note: 0, since: 0 }
    } else {
        track_step(track_after(notes, ticks, tempo, threshold_ticks, t - 1), notes, ticks, threshold_ticks, t - 1)
    }
}

/// The whole track: the state after the last frame, the closing note-off
/// when the last note began before the last frame, and the end of track.
pub open spec fn track_of(notes: Seq<u32>, ticks: Seq<u32>, tempo: u32, threshold_ticks: u32) -> Seq<MidiMessage> {
    let st = track_after(notes, ticks, tempo, threshold_ticks, notes.len() as int);
    let last_t = notes.len() - 1;
    let closed = if st.since != last_t {
        st.msgs.push(MidiMessage::NoteOff { delta_time: ticks[last_t - st.since], note: st.note as u8 })
    } else {
        st.msgs
    };
    closed.push(MidiMessage::EndOfTrack)
}

/// `s` is the frame where the melody's last note began: from `s` to the
/// end the note stays the same, and at `s` it differs from the frame
/// before (or `s` is the first frame).
pub open spec fn last_note_start(notes: Seq<u32>, s: int) -> bool {
    &&& 0 <= s < notes.len()
    &&& (s == 0 || notes[s - 1] != notes[s])
    &&& forall|u: int| s <= u < notes.len() ==> #[trigger] notes[u] == notes[s]
}

/// After `t` frames the sounding note is that of frame `t - 1` (0 before
/// the first frame), and it has sounded since the start of its run.
proof fn lemma_track_state(notes: Seq<u32>, ticks: Seq<u32>, tempo: u32, threshold_ticks: u32, t: int)
    requires
        0 <= t <= notes.len(),
        ticks.len() == notes.len(),
    ensures
        ({
            let st = track_after(notes, ticks, tempo, threshold_ticks, t);
            &&& st.note == (if t == 0 { 0 } else { notes[t - 1] })
            &&& t == 0 ==> st.since == 0
            &&& t >= 1 ==> {
                &&& 0 <= st.since < t
                &&& (st.since == 0 || notes[st.since - 1] != notes[st.since])
                &&& forall|u: int| st.since <= u < t ==> #[trigger] notes[u] == notes[st.since]
            }
        }),
    decreases t,
{
    if t > 0 {
        lemma_track_state(notes, ticks, tempo, threshold_ticks, t - 1);
    }
}

/// The start of the last note is unique.
proof fn lemma_last_note_start_unique(notes: Seq<u32>, s1: int, s2: int)
    requires
        last_note_start(notes, s1),
        last_note_start(notes, s2),
    ensures
        s1 == s2,
{
    if s1 < s2 {
        assert(notes[s2] == notes[s1]);
        assert(notes[s2 - 1] == notes[s1]);
    } else if s2 < s1 {
        assert(notes[s1] == notes[s2]);
        assert(notes[s1 - 1] == notes[s2]);
    }
}

/// How the track ends, whatever the threshold: with the end of track; just
/// before it, when the last note began before the last frame, the note-off
/// of that note after as many ticks as it lasted; when it began at the
/// last frame as a change of note, its note-on.
pub proof fn lemma_track_closes_last_note(
    notes: Seq<u32>,
    ticks: Seq<u32>,
    tempo: u32,
    threshold_ticks: u32,
    s: int,
)
    requires
        ticks.len() == notes.len(),
        last_note_start(notes, s),
    ensures
        ({
            let r = track_of(notes, ticks, tempo, threshold_ticks);
            let n = notes.len() as int;
            &&& r.len() >= 1
            &&& r.last() == MidiMessage::EndOfTrack
            &&& s < n - 1 ==> r.len() >= 2 && r[r.len() - 2] == (MidiMessage::NoteOff {
                delta_time: ticks[n - 1 - s],
                note: notes[s] as u8,
            })
            &&& (s == n - 1 && (s > 0 || notes[0] != 0)) ==> r.len() >= 2 && r[r.len() - 2] == (MidiMessage::NoteOn {
                note: notes[s] as u8,
            })
        }),
{
    let n = notes.len() as int;
    lemma_track_state(notes, ticks, tempo, threshold_ticks, n);
    let st = track_after(notes, ticks, tempo, threshold_ticks, n);
    assert(last_note_start(notes, st.since)) by {
        assert forall|u: int| st.since <= u < n implies #[trigger] notes[u] == notes[st.since] by {}
    }
    lemma_last_note_start_unique(notes, s, st.since);
    if s == n - 1 && (s > 0 || notes[0] != 0) {
        lemma_track_state(notes, ticks, tempo, threshold_ticks, n - 1);
        let prev = track_after(notes, ticks, tempo, threshold_ticks, n - 1);
        assert(prev.note != notes[n - 1]);
    }
}

/// The MIDI events of a melody given as one MIDI note number per frame
/// (0 before the first note), where `ticks[n]` is the length of `n` frames
/// in ticks and notes shorter than `threshold_ticks` are dropped; the last
/// note, when it began before the last frame, is always switched off just
/// before the end of track, however short it is.
pub fn midi_messages(notes: &[u32], ticks: &[u32], tempo: u32, threshold_ticks: u32) -> (r: Vec<MidiMessage>)
    requires
        notes@.len() >= 1,
        ticks@.len() == notes@.len(),
    ensures
        r@ == track_of(notes@, ticks@, tempo, threshold_ticks),
        r@.len() >= 1 && r@.last() == MidiMessage::EndOfTrack,
        forall|s: int|
            #[trigger] last_note_start(notes@, s) && s < notes@.len() - 1 ==> r@.len() >= 2 && r@[r@.len() - 2]
                == (MidiMessage::NoteOff { delta_time: ticks@[notes@.len() - 1 - s], note: notes@[s] as u8 }),
{
    let mut msgs: Vec<MidiMessage> = Vec::new();
    msgs.push(MidiMessage::SetTempo { tempo });
    let mut prev_midi: u32 = 0;
    let mut prev_time: usize = 0;
    let mut t: usize = 0;
    while t < notes.len()
        invariant
            0 <= t <= notes@.len(),
            ticks@.len() == notes@.len(),
            prev_time <= t,
            prev_time < notes@.len(),
            track_after(notes@, ticks@, tempo, threshold_ticks, t as int) == (TrackState {
                msgs: msgs@,
                note: prev_midi,
                since: prev_time as int,
            }),
        decreases notes@.len() - t,
    {
        let midi_note = notes[t];
        if prev_midi != midi_note {
            let curr_d = ticks[t - prev_time];
            if curr_d < threshold_ticks {
                msgs.pop();
            } else {
                msgs.push(MidiMessage::NoteOff { delta_time: curr_d, note: prev_midi as u8 });
            }
            msgs.push(MidiMessage::NoteOn { note: midi_note as u8 });
            prev_midi = midi_note;
            prev_time = t;
        }
        t = t + 1;
    }
    let last_t = notes.len() - 1;
    let last_d = ticks[last_t - prev_time];
    if prev_time != last_t {
        msgs.push(MidiMessage::NoteOff { delta_time: last_d, note: prev_midi as u8 });
    }
    msgs.push(MidiMessage::EndOfTrack);
    proof {
        assert forall|s: int| #[trigger] last_note_start(notes@, s) && s < notes@.len() - 1 implies msgs@.len() >= 2
            && msgs@[msgs@.len() - 2] == (MidiMessage::NoteOff {
            delta_time: ticks@[notes@.len() - 1 - s],
            note: notes@[s] as u8,
        }) by {
            lemma_track_closes_last_note(notes@, ticks@, tempo, threshold_ticks, s);
        }
    }
    msgs
}

} // verus!
