//! Notes and the active pitch set.
//!
//! A note occupies the half-open time interval `[start, start + dur)`.  The
//! active pitch set at an instant `t` is the set of pitches of the notes whose
//! interval contains `t`; its numerically highest member is the governing
//! pitch at `t` ("highest pitch wins").  The half-open convention makes a note
//! that ends at `t` inactive at `t` while a note that starts at `t` is active,
//! so a note-off never shadows a simultaneous note-on.

use vstd::prelude::*;

verus! {

/// A timed note: pitch, onset and duration in abstract time units.
#[derive(Clone, Copy, PartialEq, Eq, Structural, Debug)]
pub struct Note {
    /// MIDI-style pitch number.
    pub pitch: u8,
    /// Onset time.
    pub start: u64,
    /// Length of the note; a zero-length note is never active.
    pub dur: u64,
}

impl Note {
    /// The end of the note's half-open interval, `start + dur`.
    pub open spec fn end(self) -> int {
        self.start + self.dur
    }

    /// The note's interval must not run off the end of the time axis.
    pub open spec fn wf(self) -> bool {
        self.end() <= u64::MAX
    }

    /// Whether the note sounds at instant `t` (half-open interval).
    pub open spec fn active_at(self, t: int) -> bool {
        self.start <= t < self.end()
    }
}

/// Whether any note of `notes` sounds at instant `t`.
pub open spec fn some_active(notes: Seq<Note>, t: int) -> bool {
    exists|i: int| 0 <= i < notes.len() && #[trigger] notes[i].active_at(t)
}

/// The governing pitch at instant `t`: the highest pitch among the notes
/// active at `t`, or `None` when no note sounds.
pub open spec fn gov_pitch(notes: Seq<Note>, t: int) -> Option<u8>
    decreases notes.len(),
{
    if notes.len() == 0 {
        None
    } else {
        let rest = gov_pitch(notes.drop_last(), t);
        let n = notes.last();
        if n.active_at(t) {
            match rest {
                None => Some(n.pitch),
                Some(p) => if n.pitch > p {
                    Some(n.pitch)
                } else {
                    Some(p)
                },
            }
        } else {
            rest
        }
    }
}

/// The governing pitch exists exactly when some note is active, it is the
/// pitch of an active note, and no active note has a higher pitch.
pub proof fn lemma_gov_pitch(notes: Seq<Note>, t: int)
    ensures
        gov_pitch(notes, t) is Some <==> some_active(notes, t),
        gov_pitch(notes, t) matches Some(p) ==> (exists|i: int|
            0 <= i < notes.len() && #[trigger] notes[i].active_at(t) && notes[i].pitch == p),
        gov_pitch(notes, t) matches Some(p) ==> (forall|i: int|
            0 <= i < notes.len() && #[trigger] notes[i].active_at(t) ==> notes[i].pitch <= p),
    decreases notes.len(),
{
    if notes.len() == 0 {
    } else {
        let prefix = notes.drop_last();
        lemma_gov_pitch(prefix, t);
        assert(forall|i: int| 0 <= i < prefix.len() ==> prefix[i] == notes[i]);
        if some_active(notes, t) && !notes.last().active_at(t) {
            let w = choose|i: int| 0 <= i < notes.len() && #[trigger] notes[i].active_at(t);
            assert(prefix[w].active_at(t));
        }
    }
}

/// Two instants at which every note is equally active have the same
/// governing pitch.
pub proof fn lemma_gov_pitch_congruent(notes: Seq<Note>, t1: int, t2: int)
    requires
        forall|i: int| 0 <= i < notes.len() ==> #[trigger] notes[i].active_at(t1)
            == notes[i].active_at(t2),
    ensures
        gov_pitch(notes, t1) == gov_pitch(notes, t2),
    decreases notes.len(),
{
    if notes.len() > 0 {
        let prefix = notes.drop_last();
        assert(forall|i: int| 0 <= i < prefix.len() ==> prefix[i] == notes[i]);
        lemma_gov_pitch_congruent(prefix, t1, t2);
        assert(notes.last() == notes[notes.len() - 1]);
    }
}

/// Computes [`gov_pitch`] by scanning the note list.
pub fn governing_pitch(notes: &Vec<Note>, t: u64) -> (g: Option<u8>)
    ensures
        g == gov_pitch(notes@, t as int),
{
    let mut g: Option<u8> = None;
    let mut i: usize = 0;
    while i < notes.len()
        invariant
            i <= notes@.len(),
            g == gov_pitch(notes@.take(i as int), t as int),
        decreases notes@.len() - i,
    {
        let n = notes[i];
        let active = n.start <= t && n.dur > 0 && t - n.start < n.dur;
        proof {
            assert(notes@.take(i + 1).drop_last() =~= notes@.take(i as int));
            assert(notes@.take(i + 1).last() == notes@[i as int]);
            assert(active == notes@[i as int].active_at(t as int));
        }
        if active {
            g = match g {
                None => Some(n.pitch),
                Some(p) => if n.pitch > p {
                    Some(n.pitch)
                } else {
                    Some(p)
                },
            };
        }
        i = i + 1;
    }
    proof {
        assert(notes@.take(notes@.len() as int) =~= notes@);
    }
    g
}

} // verus!
