//! Note extraction from Standard MIDI Files.
//!
//! The raw bytes are parsed by the `midly` crate behind one trusted wrapper
//! that reduces each track to a flat list of [`MidiEvent`] values.  Everything
//! after that is verified: the sweep that accumulates delta times, pairs each
//! note-on with the matching note-off (a note-on of velocity zero counts as a
//! note-off, a re-struck pitch forgets the earlier onset, an unmatched
//! note-off is ignored), and the per-track sort by onset time.  Times stay in
//! MIDI ticks; the division from the file header is reported alongside so a
//! caller can convert to beats.

use vstd::prelude::*;

verus! {

use crate::notes::Note;

/// One track event, reduced to what note extraction needs.
#[derive(Clone, Copy, PartialEq, Eq, Structural, Debug)]
pub struct MidiEvent {
    /// Ticks since the previous event of the same track.
    pub delta: u32,
    /// The payload.
    pub kind: EventKind,
}

/// The payload of a track event.
#[derive(Clone, Copy, PartialEq, Eq, Structural, Debug)]
pub enum EventKind {
    /// Note-on: key and velocity.  Velocity zero means note-off.
    On(u8, u8),
    /// Note-off: key.
    Off(u8),
    /// Anything else; it only advances time.
    Other,
}

/// What `midly::Smf::parse` yields on given bytes, reduced to the header's
/// metrical timing (ticks per beat, when given that way) and the per-track
/// event lists: a pure function of the bytes alone, named rather than spelled
/// out.  `None` stands for a parse failure.
pub uninterp spec fn parsed_midi(data: Seq<u8>) -> Option<(Option<u16>, Seq<Seq<MidiEvent>>)>;

/// The view of a parsed track list.
pub open spec fn tracks_view(ts: Vec<Vec<MidiEvent>>) -> Seq<Seq<MidiEvent>> {
    ts@.map_values(|t: Vec<MidiEvent>| t@)
}

/// Relies on `midly::Smf::parse`: it parses a Standard MIDI File from raw
/// bytes, deterministically, yielding the header timing and per-track event
/// lists; `u7`/`u15`/`u28` field accessors return the plain integers.
#[verifier::external_body]
fn parse_smf(data: &Vec<u8>) -> (r: Option<(Option<u16>, Vec<Vec<MidiEvent>>)>)
    ensures
        r is Some <==> parsed_midi(data@) is Some,
        r matches Some(v) ==> parsed_midi(data@) matches Some(w) && v.0 == w.0 && tracks_view(v.1)
            == w.1,
{
    let smf = midly::Smf::parse(data).ok()?;
    let timing = match smf.header.timing {
        midly::Timing::Metrical(t) => Some(t.as_int()),
        _ => None,
    };
    let tracks = smf.tracks.iter().map(|tr| tr.iter().map(|e| MidiEvent {
        delta: e.delta.as_int(),
        kind: match e.kind {
            midly::TrackEventKind::Midi { message: midly::MidiMessage::NoteOn { key, vel }, .. } => EventKind::On(key.as_int(), vel.as_int()),
            midly::TrackEventKind::Midi { message: midly::MidiMessage::NoteOff { key, .. }, .. } => EventKind::Off(key.as_int()),
            _ => EventKind::Other,
        },
    }).collect()).collect();
    Some((timing, tracks))
}

/// Closes the sounding note of pitch `p`, if any, at time `t`.
pub open spec fn finish_note(p: u8, t: int, open: Map<u8, int>, done: Seq<Note>) -> (int, Map<
    u8,
    int,
>, Seq<Note>) {
    if open.contains_key(p) {
        (
            t,
            open.remove(p),
            done.push(Note { pitch: p, start: open[p] as u64, dur: (t - open[p]) as u64 }),
        )
    } else {
        (t, open, done)
    }
}

/// One step of the track sweep: advance time by the event's delta, then open,
/// close or ignore a note.  Keys outside the seven-bit MIDI range are
/// ignored.
pub open spec fn step_event(e: MidiEvent, time: int, open: Map<u8, int>, done: Seq<Note>) -> (
    int,
    Map<u8, int>,
    Seq<Note>,
) {
    let t = time + e.delta;
    match e.kind {
        EventKind::On(p, v) => if p >= 128 {
            (t, open, done)
        } else if v > 0 {
            (t, open.insert(p, t), done)
        } else {
            finish_note(p, t, open, done)
        },
        EventKind::Off(p) => if p >= 128 {
            (t, open, done)
        } else {
            finish_note(p, t, open, done)
        },
        EventKind::Other => (t, open, done),
    }
}

/// The sweep state after the first `i` events of a track: the absolute time,
/// the onset of each still-sounding pitch, and the notes finished so far.
pub open spec fn track_state(evs: Seq<MidiEvent>, i: int) -> (int, Map<u8, int>, Seq<Note>)
    decreases i,
{
    if i <= 0 {
        (0, Map::empty(), Seq::empty())
    } else {
        let s = track_state(evs, i - 1);
        step_event(evs[i - 1], s.0, s.1, s.2)
    }
}

/// The notes of one track, in the order their note-offs arrive.
pub open spec fn notes_of_track(evs: Seq<MidiEvent>) -> Seq<Note> {
    track_state(evs, evs.len() as int).2
}

/// Runs the sweep over one track's events and returns exactly
/// [`notes_of_track`].  The event count must fit the delta arithmetic in a
/// machine word.
pub fn track_notes(events: &Vec<MidiEvent>) -> (r: Vec<Note>)
    requires
        events@.len() <= 0xFFFF_FFFF,
    ensures
        r@ == notes_of_track(events@),
        forall|k: int| 0 <= k < r@.len() ==> (#[trigger] r@[k]).wf() && r@[k].pitch < 128,
{
    let mut open: Vec<Option<u64>> = Vec::new();
    let mut p: usize = 0;
    while p < 128
        invariant
            open@.len() == p <= 128,
            forall|q: int| 0 <= q < p ==> open@[q] is None,
        decreases 128 - p,
    {
        open.push(None);
        p = p + 1;
    }
    let mut time: u64 = 0;
    let mut r: Vec<Note> = Vec::new();
    let mut i: usize = 0;
    while i < events.len()
        invariant
            events@.len() <= 0xFFFF_FFFF,
            i <= events@.len(),
            open@.len() == 128,
            time as int == track_state(events@, i as int).0,
            time <= (i as int) * 0xFFFF_FFFF,
            r@ == track_state(events@, i as int).2,
            forall|q: u8|
                q < 128 ==> open@[q as int] == (if track_state(
                    events@,
                    i as int,
                ).1.contains_key(q) {
                    Some(track_state(events@, i as int).1[q] as u64)
                } else {
                    None::<u64>
                }),
            forall|q: u8|
                #[trigger] track_state(events@, i as int).1.contains_key(q) ==> q < 128 && 0
                    <= track_state(events@, i as int).1[q] <= time,
            forall|k: int| 0 <= k < r@.len() ==> (#[trigger] r@[k]).wf() && r@[k].pitch < 128,
        decreases events@.len() - i,
    {
        let ghost st = track_state(events@, i as int);
        let e = events[i];
        proof {
            assert(track_state(events@, i + 1) == step_event(events@[i as int], st.0, st.1, st.2));
            assert((i + 1) as int * 0xFFFF_FFFF <= 0xFFFF_FFFF * 0xFFFF_FFFF) by {
                vstd::arithmetic::mul::lemma_mul_inequality(
                    (i + 1) as int,
                    0xFFFF_FFFF,
                    0xFFFF_FFFF,
                );
            }
            assert((i as int) * 0xFFFF_FFFF + 0xFFFF_FFFF == (i + 1) as int * 0xFFFF_FFFF) by {
                vstd::arithmetic::mul::lemma_mul_is_distributive_add_other_way(
                    0xFFFF_FFFF,
                    i as int,
                    1,
                );
            }
        }
        time = time + e.delta as u64;
        match e.kind {
            EventKind::On(pk, v) => {
                if pk < 128 {
                    if v > 0 {
                        open[pk as usize] = Some(time);
                    } else {
                        if let Some(s) = open[pk as usize] {
                            r.push(Note { pitch: pk, start: s, dur: time - s });
                            open[pk as usize] = None;
                        }
                    }
                }
            },
            EventKind::Off(pk) => {
                if pk < 128 {
                    if let Some(s) = open[pk as usize] {
                        r.push(Note { pitch: pk, start: s, dur: time - s });
                        open[pk as usize] = None;
                    }
                }
            },
            EventKind::Other => {},
        }
        i = i + 1;
    }
    proof {
        assert(r@ == notes_of_track(events@));
    }
    r
}

/// Notes in onset order.
pub open spec fn sorted_by_start(ns: Seq<Note>) -> bool {
    forall|i: int, j: int|
        0 <= i < j < ns.len() ==> (#[trigger] ns[i]).start <= (#[trigger] ns[j]).start
}

/// Inserting an element anywhere adds exactly it to the multiset.
proof fn lemma_insert_to_multiset(s: Seq<Note>, j: int, x: Note)
    requires
        0 <= j <= s.len(),
    ensures
        s.insert(j, x).to_multiset() == s.to_multiset().insert(x),
{
    let a = s.subrange(0, j);
    let b = s.subrange(j, s.len() as int);
    assert(s =~= a + b);
    assert(s.insert(j, x) == a.push(x) + b);
    vstd::seq_lib::lemma_multiset_commutative(a.push(x), b);
    vstd::seq_lib::lemma_multiset_commutative(a, b);
    a.to_multiset_ensures();
    assert(a.push(x).to_multiset() =~= a.to_multiset().insert(x));
    assert(a.to_multiset().insert(x).add(b.to_multiset()) =~= a.to_multiset().add(
        b.to_multiset(),
    ).insert(x));
    assert(s.insert(j, x).to_multiset() =~= s.to_multiset().insert(x));
}

/// Sorts notes by onset time: the result holds the same notes (as a
/// multiset), in onset order.
pub fn sort_notes_by_start(notes: &Vec<Note>) -> (r: Vec<Note>)
    ensures
        sorted_by_start(r@),
        r@.to_multiset() == notes@.to_multiset(),
        r@.len() == notes@.len(),
        forall|k: int| 0 <= k < r@.len() ==> notes@.contains(#[trigger] r@[k]),
{
    let mut r: Vec<Note> = Vec::new();
    let mut i: usize = 0;
    proof {
        notes@.take(0).to_multiset_ensures();
        assert(notes@.take(0) =~= Seq::<Note>::empty());
        r@.to_multiset_ensures();
    }
    while i < notes.len()
        invariant
            i <= notes@.len(),
            sorted_by_start(r@),
            r@.to_multiset() == notes@.take(i as int).to_multiset(),
            r@.len() == i,
            forall|k: int| 0 <= k < r@.len() ==> notes@.contains(#[trigger] r@[k]),
        decreases notes@.len() - i,
    {
        let n = notes[i];
        let mut j: usize = 0;
        while j < r.len() && r[j].start <= n.start
            invariant
                j <= r@.len(),
                sorted_by_start(r@),
                forall|k: int| 0 <= k < j ==> (#[trigger] r@[k]).start <= n.start,
            decreases r@.len() - j,
        {
            j = j + 1;
        }
        let ghost pre = r@;
        r.insert(j, n);
        proof {
            pre.insert_ensures(j as int, n);
            assert forall|a: int, b: int|
                0 <= a < b < r@.len() implies (#[trigger] r@[a]).start <= (#[trigger] r@[b]).start by {
                if b < j {
                } else if a < j && b == j {
                    assert(r@[a] == pre[a] && r@[b] == n);
                } else if a < j {
                    assert(r@[a] == pre[a] && r@[b] == pre[b - 1]);
                    if (j as int) < pre.len() {
                        assert(pre[j as int].start > n.start);
                        assert(pre[a].start <= n.start);
                        if j < b - 1 {
                            assert(pre[j as int].start <= pre[b - 1].start);
                        }
                    }
                } else if a == j {
                    assert(r@[a] == n && r@[b] == pre[b - 1]);
                    assert(pre[j as int].start > n.start);
                    if j < b - 1 {
                        assert(pre[j as int].start <= pre[b - 1].start);
                    }
                } else {
                    assert(r@[a] == pre[a - 1] && r@[b] == pre[b - 1]);
                }
            }
            lemma_insert_to_multiset(pre, j as int, n);
            assert(notes@.take(i + 1).drop_last() =~= notes@.take(i as int));
            assert(notes@.take(i + 1) == notes@.take(i as int).push(n)) by {
                assert(notes@.take(i + 1) =~= notes@.take(i as int).push(n));
            }
            notes@.take(i as int).to_multiset_ensures();
            assert forall|k: int| 0 <= k < r@.len() implies notes@.contains(#[trigger] r@[k]) by {
                if k < j {
                    assert(r@[k] == pre[k]);
                } else if k > j {
                    assert(r@[k] == pre[k - 1]);
                } else {
                    assert(r@[k] == n);
                    assert(notes@[i as int] == n);
                }
            }
        }
        i = i + 1;
    }
    proof {
        assert(notes@.take(notes@.len() as int) =~= notes@);
    }
    r
}

/// A parsed score: the header's ticks-per-beat division, when the file gives
/// one, and the notes of every track in onset order, in ticks.
#[derive(Debug)]
pub struct MidiScore {
    /// Ticks per beat from the header, absent for timecode-based files.
    pub ticks_per_beat: Option<u16>,
    /// One note list per track of the file, each sorted by onset.
    pub tracks: Vec<Vec<Note>>,
}

/// Parses a Standard MIDI File and extracts every track's notes, sorted by
/// onset: the verified sweep of [`track_notes`] applied to what the parser
/// yields ([`parsed_midi`]).  Returns `None` when the bytes do not parse, or
/// when a track is so large that its delta arithmetic could not be done in a
/// machine word.
pub fn load_notes(data: &Vec<u8>) -> (r: Option<MidiScore>)
    ensures
        r is Some <==> (parsed_midi(data@) matches Some(w) && forall|j: int|
            0 <= j < w.1.len() ==> (#[trigger] w.1[j]).len() <= 0xFFFF_FFFF),
        r matches Some(score) ==> parsed_midi(data@) matches Some(w) && {
            &&& score.ticks_per_beat == w.0
            &&& score.tracks@.len() == w.1.len()
            &&& forall|k: int|
                0 <= k < w.1.len() ==> sorted_by_start((#[trigger] score.tracks@[k])@)
                    && score.tracks@[k]@.to_multiset() == notes_of_track(w.1[k]).to_multiset()
            &&& forall|k: int, m: int|
                0 <= k < w.1.len() && 0 <= m < score.tracks@[k]@.len() ==> (#[trigger] score.tracks@[k]@[m]).wf()
                    && score.tracks@[k]@[m].pitch < 128
        },
{
    match parse_smf(data) {
        None => None,
        Some((timing, tracks)) => {
            let ghost w1 = tracks_view(tracks);
            let mut out: Vec<Vec<Note>> = Vec::new();
            let mut k: usize = 0;
            while k < tracks.len()
                invariant
                    k <= tracks@.len(),
                    w1 == tracks_view(tracks),
                    parsed_midi(data@) is Some,
                    parsed_midi(data@).unwrap().0 == timing,
                    parsed_midi(data@).unwrap().1 == w1,
                    out@.len() == k,
                    forall|j: int| 0 <= j < k ==> (#[trigger] w1[j]).len() <= 0xFFFF_FFFF,
                    forall|j: int|
                        0 <= j < k ==> sorted_by_start((#[trigger] out@[j])@) && out@[j]@.to_multiset()
                            == notes_of_track(w1[j]).to_multiset(),
                    forall|j: int, m: int|
                        0 <= j < k && 0 <= m < out@[j]@.len() ==> (#[trigger] out@[j]@[m]).wf()
                            && out@[j]@[m].pitch < 128,
                decreases tracks@.len() - k,
            {
                let tr = &tracks[k];
                if tr.len() as u64 > 0xFFFF_FFFFu64 {
                    proof {
                        assert(w1[k as int] == tracks@[k as int]@);
                        assert(w1[k as int].len() > 0xFFFF_FFFF);
                        assert(parsed_midi(data@) matches Some(w) && w.1[k as int].len()
                            > 0xFFFF_FFFF);
                    }
                    return None;
                }
                let ns = track_notes(tr);
                let sorted = sort_notes_by_start(&ns);
                proof {
                    assert(w1[k as int] == tracks@[k as int]@);
                    assert forall|m: int| 0 <= m < sorted@.len() implies (#[trigger] sorted@[m]).wf()
                        && sorted@[m].pitch < 128 by {
                        assert(ns@.contains(sorted@[m]));
                        let z = choose|z: int| 0 <= z < ns@.len() && ns@[z] == sorted@[m];
                        assert(ns@[z].wf() && ns@[z].pitch < 128);
                    }
                }
                out.push(sorted);
                k = k + 1;
            }
            Some(MidiScore { ticks_per_beat: timing, tracks: out })
        },
    }
}

} // verus!
