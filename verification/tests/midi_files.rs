use midi_comb::midi::{load_notes, sort_notes_by_start, track_notes, EventKind, MidiEvent};
use midi_comb::notes::Note;

fn ev(delta: u32, kind: EventKind) -> MidiEvent {
    MidiEvent { delta, kind }
}

#[test]
fn track_notes_pairs_on_with_off() {
    let events = vec![ev(0, EventKind::On(60, 64)), ev(480, EventKind::Off(60))];
    let notes = track_notes(&events);
    assert_eq!(notes, vec![Note { pitch: 60, start: 0, dur: 480 }]);
}

#[test]
fn track_notes_velocity_zero_note_on_closes() {
    let events = vec![ev(0, EventKind::On(60, 64)), ev(480, EventKind::On(60, 0))];
    let notes = track_notes(&events);
    assert_eq!(notes, vec![Note { pitch: 60, start: 0, dur: 480 }]);
}

#[test]
fn track_notes_restrike_forgets_earlier_onset() {
    let events = vec![
        ev(0, EventKind::On(60, 64)),
        ev(10, EventKind::On(60, 64)),
        ev(10, EventKind::Off(60)),
    ];
    let notes = track_notes(&events);
    assert_eq!(notes, vec![Note { pitch: 60, start: 10, dur: 10 }]);
}

#[test]
fn track_notes_unmatched_off_is_ignored() {
    let events = vec![ev(5, EventKind::Off(60))];
    let notes = track_notes(&events);
    assert!(notes.is_empty());
}

#[test]
fn track_notes_other_events_advance_time() {
    let events = vec![
        ev(0, EventKind::On(60, 1)),
        ev(5, EventKind::Other),
        ev(5, EventKind::Off(60)),
    ];
    let notes = track_notes(&events);
    assert_eq!(notes, vec![Note { pitch: 60, start: 0, dur: 10 }]);
}

#[test]
fn track_notes_interleaved_notes_close_in_off_order() {
    let events = vec![
        ev(0, EventKind::On(60, 64)),
        ev(10, EventKind::On(64, 64)),
        ev(5, EventKind::Off(64)),
        ev(100, EventKind::Off(60)),
    ];
    let notes = track_notes(&events);
    assert_eq!(
        notes,
        vec![
            Note { pitch: 64, start: 10, dur: 5 },
            Note { pitch: 60, start: 0, dur: 115 },
        ]
    );
}

#[test]
fn sort_notes_by_start_orders_by_onset() {
    let notes = vec![
        Note { pitch: 64, start: 10, dur: 5 },
        Note { pitch: 60, start: 0, dur: 115 },
        Note { pitch: 62, start: 3, dur: 1 },
    ];
    let sorted = sort_notes_by_start(&notes);
    assert_eq!(
        sorted,
        vec![
            Note { pitch: 60, start: 0, dur: 115 },
            Note { pitch: 62, start: 3, dur: 1 },
            Note { pitch: 64, start: 10, dur: 5 },
        ]
    );
}

/// A minimal format-0 Standard MIDI File: division 480 ticks per beat, one
/// track holding one note (key 60, velocity 64) from tick 0 to tick 480.
fn one_note_smf() -> Vec<u8> {
    let mut data = vec![
        0x4D, 0x54, 0x68, 0x64, // MThd
        0x00, 0x00, 0x00, 0x06, // header length
        0x00, 0x00, // format 0
        0x00, 0x01, // one track
        0x01, 0xE0, // 480 ticks per beat
    ];
    data.extend_from_slice(&[
        0x4D, 0x54, 0x72, 0x6B, // MTrk
        0x00, 0x00, 0x00, 0x0D, // track length: 13 bytes
        0x00, 0x90, 0x3C, 0x40, // delta 0, note on, key 60, velocity 64
        0x83, 0x60, 0x80, 0x3C, 0x40, // delta 480, note off, key 60
        0x00, 0xFF, 0x2F, 0x00, // delta 0, end of track
    ]);
    data
}

#[test]
fn load_notes_parses_one_note_file() {
    let data = one_note_smf();
    let score = load_notes(&data).expect("file parses");
    assert_eq!(score.ticks_per_beat, Some(480));
    assert_eq!(score.tracks.len(), 1);
    assert_eq!(score.tracks[0], vec![Note { pitch: 60, start: 0, dur: 480 }]);
}

#[test]
fn load_notes_rejects_garbage() {
    let data = vec![0x00, 0x01, 0x02, 0x03];
    assert!(load_notes(&data).is_none());
}

#[test]
fn load_notes_keeps_noteless_tracks_empty() {
    let mut data = vec![
        0x4D, 0x54, 0x68, 0x64, 0x00, 0x00, 0x00, 0x06, // MThd
        0x00, 0x00, 0x00, 0x01, 0x01, 0xE0, // format 0, one track, 480 tpb
    ];
    data.extend_from_slice(&[
        0x4D, 0x54, 0x72, 0x6B, 0x00, 0x00, 0x00, 0x04, // MTrk, 4 bytes
        0x00, 0xFF, 0x2F, 0x00, // end of track only
    ]);
    let score = load_notes(&data).expect("file parses");
    assert_eq!(score.tracks.len(), 1);
    assert!(score.tracks[0].is_empty());
}
