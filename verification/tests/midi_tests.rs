use melody_extraction::midi::{midi_messages, midi_tempo, tempo_bytes, MidiMessage};

#[test]
fn tempo_from_bpm() {
    assert_eq!(midi_tempo(120), 500_000);
    assert_eq!(midi_tempo(7), 8_571_428);
    assert_eq!(tempo_bytes(500_000), vec![0x07, 0xa1, 0x20]);
    assert_eq!(tempo_bytes(0x1234_5678), vec![0x34, 0x56, 0x78]);
}

#[test]
fn note_changes_become_events() {
    let notes = [0u32, 0, 60, 60, 60, 62, 62, 0];
    let ticks: Vec<u32> = (0..notes.len() as u32).map(|n| n * 100).collect();
    let m = midi_messages(&notes, &ticks, 500_000, 150);
    assert_eq!(
        m,
        vec![
            MidiMessage::SetTempo { tempo: 500_000 },
            MidiMessage::NoteOff { delta_time: 200, note: 0 },
            MidiMessage::NoteOn { note: 60 },
            MidiMessage::NoteOff { delta_time: 300, note: 60 },
            MidiMessage::NoteOn { note: 62 },
            MidiMessage::NoteOff { delta_time: 200, note: 62 },
            MidiMessage::NoteOn { note: 0 },
            MidiMessage::EndOfTrack,
        ]
    );
}

#[test]
fn short_notes_drop_the_last_event() {
    let notes = [60u32, 61, 61, 61];
    let ticks: Vec<u32> = (0..4u32).map(|n| n * 100).collect();
    let m = midi_messages(&notes, &ticks, 1, 150);
    // frame 0 changes from 0 after no time: the tempo event is dropped;
    // frame 1 changes after one frame: the note-on of 60 is dropped.
    assert_eq!(
        m,
        vec![
            MidiMessage::NoteOn { note: 61 },
            MidiMessage::NoteOff { delta_time: 200, note: 61 },
            MidiMessage::EndOfTrack,
        ]
    );
}

#[test]
fn note_numbers_are_truncated_to_bytes() {
    let m = midi_messages(&[300u32], &[0u32], 9, 0);
    assert_eq!(
        m,
        vec![
            MidiMessage::SetTempo { tempo: 9 },
            MidiMessage::NoteOff { delta_time: 0, note: 0 },
            MidiMessage::NoteOn { note: 44 },
            MidiMessage::EndOfTrack,
        ]
    );
}
