use midi_comb::calibration::Calibration;
use midi_comb::notes::{governing_pitch, Note};
use midi_comb::segments::{build_segments, Segment};
use midi_comb::spacing::spacing;
use midi_comb::teeth::emit_teeth;

fn note(pitch: u8, start: u64, dur: u64) -> Note {
    Note { pitch, start, dur }
}

#[test]
fn spacing_of_reference_pitch_is_reference_spacing() {
    assert_eq!(spacing(60, 60, 10), 10);
    assert_eq!(spacing(69, 69, 12345), 12345);
}

#[test]
fn spacing_halves_per_octave_up() {
    // One octave up doubles the frequency, halving the wavelength.
    assert_eq!(spacing(72, 60, 10), 5);
    assert_eq!(spacing(84, 60, 10), 2);
}

#[test]
fn spacing_doubles_per_octave_down() {
    assert_eq!(spacing(48, 60, 10), 20);
    assert_eq!(spacing(36, 60, 10), 40);
}

#[test]
fn spacing_one_semitone_up_exact_fixed_point() {
    // One semitone up divides by 2^(1/12): with the reference spacing equal
    // to the fixed-point scale the result is the table entry for eleven
    // twelfths, halved.
    assert_eq!(spacing(70, 69, 1048576), 989724);
}

#[test]
fn spacing_extreme_pitch_with_tiny_reference_rounds_to_zero() {
    assert_eq!(spacing(127, 0, 1), 0);
}

#[test]
fn governing_pitch_highest_wins() {
    let notes = vec![note(60, 0, 100), note(72, 50, 10)];
    assert_eq!(governing_pitch(&notes, 0), Some(60));
    assert_eq!(governing_pitch(&notes, 55), Some(72));
    assert_eq!(governing_pitch(&notes, 60), Some(60));
    assert_eq!(governing_pitch(&notes, 100), None);
}

#[test]
fn build_segments_empty_notes_empty_segments() {
    let notes: Vec<Note> = vec![];
    let segs = build_segments(&notes, 60, 10);
    assert!(segs.is_empty());
}

#[test]
fn build_segments_single_note_single_segment() {
    let notes = vec![note(60, 0, 480)];
    let segs = build_segments(&notes, 60, 10);
    assert_eq!(segs.len(), 1);
    assert_eq!(segs[0], Segment { start: 0, end: 480, spacing: 10 });
}

#[test]
fn build_segments_one_segment_per_isolated_note() {
    let notes = vec![note(60, 0, 480), note(72, 1000, 500)];
    let segs = build_segments(&notes, 60, 10);
    assert_eq!(segs.len(), 2);
    assert_eq!(segs[0], Segment { start: 0, end: 480, spacing: 10 });
    assert_eq!(segs[1], Segment { start: 1000, end: 1500, spacing: 5 });
}

#[test]
fn build_segments_back_to_back_equal_pitch_merges() {
    let notes = vec![note(60, 0, 480), note(60, 480, 480)];
    let segs = build_segments(&notes, 60, 10);
    assert_eq!(segs.len(), 1);
    assert_eq!(segs[0], Segment { start: 0, end: 960, spacing: 10 });
}

#[test]
fn build_segments_nested_overlap_three_segments() {
    let notes = vec![note(60, 0, 1000), note(72, 200, 100)];
    let segs = build_segments(&notes, 60, 10);
    assert_eq!(segs.len(), 3);
    assert_eq!(segs[0], Segment { start: 0, end: 200, spacing: 10 });
    assert_eq!(segs[1], Segment { start: 200, end: 300, spacing: 5 });
    assert_eq!(segs[2], Segment { start: 300, end: 1000, spacing: 10 });
}

#[test]
fn build_segments_simultaneous_pitches_highest_governs() {
    let notes = vec![note(60, 0, 200), note(72, 0, 200)];
    let segs = build_segments(&notes, 60, 10);
    assert_eq!(segs.len(), 1);
    assert_eq!(segs[0], Segment { start: 0, end: 200, spacing: 5 });
}

#[test]
fn build_segments_overlapping_equal_pitch_merges() {
    let notes = vec![note(60, 0, 10), note(60, 5, 10)];
    let segs = build_segments(&notes, 60, 10);
    assert_eq!(segs, vec![Segment { start: 0, end: 15, spacing: 10 }]);
}

#[test]
fn build_segments_note_order_does_not_matter() {
    let a = vec![note(60, 0, 1000), note(72, 200, 100)];
    let b = vec![note(72, 200, 100), note(60, 0, 1000)];
    assert_eq!(build_segments(&a, 60, 10), build_segments(&b, 60, 10));
}

#[test]
fn build_segments_zero_duration_note_yields_nothing() {
    let notes = vec![note(60, 100, 0)];
    let segs = build_segments(&notes, 60, 10);
    assert!(segs.is_empty());
}

#[test]
fn build_segments_gap_between_notes_stays_open() {
    let notes = vec![note(60, 0, 1), note(60, 2, 1)];
    let segs = build_segments(&notes, 60, 10);
    assert_eq!(segs.len(), 2);
    assert_eq!(segs[0], Segment { start: 0, end: 1, spacing: 10 });
    assert_eq!(segs[1], Segment { start: 2, end: 3, spacing: 10 });
}

#[test]
fn emit_teeth_concrete_octave_scenario() {
    // Reference pitch 60 spaced at 10, a note one octave up over one beat at
    // 200 units per beat: spacing 5, first tooth at 0, last strictly below
    // 200.
    let cal = Calibration::default();
    let notes = vec![note(72, 0, 1)];
    let segs = build_segments(&notes, cal.ref_pitch, cal.ref_spacing);
    assert_eq!(segs, vec![Segment { start: 0, end: 1, spacing: 5 }]);
    let teeth = emit_teeth(&segs, cal.scale, 0);
    assert_eq!(teeth.len(), 40);
    assert_eq!(teeth[0], 0);
    assert_eq!(teeth[39], 195);
    for w in teeth.windows(2) {
        assert_eq!(w[1] - w[0], 5);
    }
    for &x in &teeth {
        assert!(x < 200);
    }
}

#[test]
fn emit_teeth_origin_filters_without_reseeding_phase() {
    let segs = vec![Segment { start: 0, end: 1, spacing: 5 }];
    let teeth = emit_teeth(&segs, 200, 7);
    // positions below 7 are suppressed; the grid stays anchored at multiples
    // of 5, so the first emitted tooth is 10, not 7.
    assert_eq!(teeth[0], 10);
    assert_eq!(teeth.len(), 38);
    for w in teeth.windows(2) {
        assert_eq!(w[1] - w[0], 5);
    }
}

#[test]
fn emit_teeth_continuous_across_merged_seam() {
    // Two back-to-back notes of one pitch merge into one segment; the teeth
    // cross the former seam at the full spacing, with no double tooth.
    let notes = vec![note(60, 0, 1), note(60, 1, 1)];
    let segs = build_segments(&notes, 60, 10);
    assert_eq!(segs, vec![Segment { start: 0, end: 2, spacing: 10 }]);
    let teeth = emit_teeth(&segs, 100, 0);
    assert_eq!(teeth.len(), 20);
    for w in teeth.windows(2) {
        assert_eq!(w[1] - w[0], 10);
    }
    assert_eq!(teeth.iter().filter(|&&x| x == 100).count(), 1);
}

#[test]
fn emit_teeth_degenerate_spacing_emits_nothing() {
    // An extreme pitch with a tiny reference spacing rounds to spacing zero:
    // the segment is skipped rather than looped over.
    let notes = vec![note(127, 0, 1)];
    let segs = build_segments(&notes, 0, 1);
    assert_eq!(segs, vec![Segment { start: 0, end: 1, spacing: 0 }]);
    let teeth = emit_teeth(&segs, 200, 0);
    assert!(teeth.is_empty());
}

#[test]
fn emit_teeth_skips_gap_between_segments() {
    let notes = vec![note(60, 0, 1), note(60, 2, 1)];
    let segs = build_segments(&notes, 60, 10);
    let teeth = emit_teeth(&segs, 100, 0);
    for &x in &teeth {
        assert!(!(100..200).contains(&x));
    }
    assert!(teeth.contains(&90));
    assert!(teeth.contains(&200));
    assert!(teeth.contains(&290));
}

#[test]
fn pipeline_is_deterministic_end_to_end() {
    let notes = vec![note(60, 0, 1000), note(72, 200, 100), note(48, 900, 300)];
    let segs1 = build_segments(&notes, 60, 10);
    let segs2 = build_segments(&notes, 60, 10);
    assert_eq!(segs1, segs2);
    let teeth1 = emit_teeth(&segs1, 37, 11);
    let teeth2 = emit_teeth(&segs2, 37, 11);
    assert_eq!(teeth1, teeth2);
}

#[test]
fn calibration_default_matches_documented_values() {
    let cal = Calibration::default();
    assert_eq!(cal.ref_pitch, 60);
    assert_eq!(cal.ref_spacing, 10);
    assert_eq!(cal.scale, 200);
}
