//! Laws of the pipeline, proved once and for all: the segment
//! characterization has a unique solution (so segment building and tooth
//! emission are deterministic functions of their inputs), teeth inside one
//! segment step by exactly the spacing, and sub-threshold spacings yield
//! nothing.

use vstd::prelude::*;

verus! {

use crate::notes::{Note, gov_pitch, lemma_gov_pitch, some_active};
use crate::spacing::{lemma_spacing_fp_nonneg, spacing_fp};
use crate::segments::{
    Segment, covers, seg_matches, seg_wf, segments_correct, segs_ordered, sorted_strict,
    spacing_at,
};
use crate::teeth::{MIN_TOOTH_SPACING, is_tooth, lemma_multiple_gap, seg_tooth};

/// [`segments_correct`] relativized to instants at or after `lo`: the tail of
/// a correct segment sequence satisfies it for `lo` at the cut.
spec fn correct_from(notes: Seq<Note>, ref_pitch: u8, ref_spacing: u64, ss: Seq<Segment>, lo: int) -> bool {
    &&& forall|i: int| 0 <= i < ss.len() ==> seg_wf(#[trigger] ss[i])
    &&& segs_ordered(ss)
    &&& forall|i: int| 0 <= i < ss.len() ==> seg_matches(notes, ref_pitch, ref_spacing, #[trigger] ss[i])
    &&& forall|i: int|
        0 <= i && i + 1 < ss.len() && (#[trigger] ss[i]).end == ss[i + 1].start ==> ss[i].spacing
            != ss[i + 1].spacing
    &&& forall|t: int| lo <= t && #[trigger] some_active(notes, t) ==> covers(ss, t)
    &&& forall|i: int| 0 <= i < ss.len() ==> lo <= (#[trigger] ss[i]).start
}

/// Under [`correct_from`], the first segment of one solution ends no earlier
/// than the first segment of another that starts at the same instant.
proof fn lemma_first_end_geq(
    notes: Seq<Note>,
    ref_pitch: u8,
    ref_spacing: u64,
    s1: Seq<Segment>,
    s2: Seq<Segment>,
    lo: int,
)
    requires
        correct_from(notes, ref_pitch, ref_spacing, s1, lo),
        correct_from(notes, ref_pitch, ref_spacing, s2, lo),
        s1.len() > 0,
        s2.len() > 0,
        s1[0].start == s2[0].start,
    ensures
        s1[0].end >= s2[0].end,
{
    let a = s1[0];
    let b = s2[0];
    if a.end < b.end {
        let t = a.end as int;
        assert(b.start <= t < b.end);
        assert(some_active(notes, t) && spacing_at(notes, ref_pitch, ref_spacing, t) == b.spacing);
        assert(some_active(notes, b.start as int) && spacing_at(
            notes,
            ref_pitch,
            ref_spacing,
            b.start as int,
        ) == b.spacing);
        assert(some_active(notes, a.start as int) && spacing_at(
            notes,
            ref_pitch,
            ref_spacing,
            a.start as int,
        ) == a.spacing);
        assert(a.spacing == b.spacing);
        assert(covers(s1, t));
        let j = choose|j: int| 0 <= j < s1.len() && (#[trigger] s1[j]).start <= t < s1[j].end;
        assert(j != 0);
        assert(s1[0].end <= s1[j].start);
        assert(s1[j].start == a.end);
        if j > 1 {
            assert(s1[1].end <= s1[j].start);
            assert(s1[0].end <= s1[1].start);
            assert(seg_wf(s1[1]));
            assert(false);
        }
        assert(s1[1].spacing != a.spacing);
        assert(some_active(notes, t) && spacing_at(notes, ref_pitch, ref_spacing, t)
            == s1[1].spacing);
        assert(false);
    }
}

/// Two solutions of [`correct_from`] are one and the same sequence.
proof fn lemma_correct_from_unique(
    notes: Seq<Note>,
    ref_pitch: u8,
    ref_spacing: u64,
    s1: Seq<Segment>,
    s2: Seq<Segment>,
    lo: int,
)
    requires
        correct_from(notes, ref_pitch, ref_spacing, s1, lo),
        correct_from(notes, ref_pitch, ref_spacing, s2, lo),
    ensures
        s1 =~= s2,
    decreases s1.len(),
{
    if s1.len() == 0 && s2.len() == 0 {
    } else if s1.len() == 0 {
        let b = s2[0];
        assert(some_active(notes, b.start as int));
        assert(covers(s1, b.start as int));
        assert(false);
    } else if s2.len() == 0 {
        let a = s1[0];
        assert(some_active(notes, a.start as int));
        assert(covers(s2, a.start as int));
        assert(false);
    } else {
        let a = s1[0];
        let b = s2[0];
        // equal starts
        assert(some_active(notes, a.start as int));
        assert(covers(s2, a.start as int));
        let j2 = choose|j: int|
            0 <= j < s2.len() && (#[trigger] s2[j]).start <= a.start < s2[j].end;
        if j2 > 0 {
            assert(s2[0].end <= s2[j2].start);
            assert(seg_wf(s2[0]));
        }
        assert(b.start <= a.start);
        assert(some_active(notes, b.start as int));
        assert(covers(s1, b.start as int));
        let j1 = choose|j: int|
            0 <= j < s1.len() && (#[trigger] s1[j]).start <= b.start < s1[j].end;
        if j1 > 0 {
            assert(s1[0].end <= s1[j1].start);
            assert(seg_wf(s1[0]));
        }
        assert(a.start == b.start);
        // equal ends
        lemma_first_end_geq(notes, ref_pitch, ref_spacing, s1, s2, lo);
        lemma_first_end_geq(notes, ref_pitch, ref_spacing, s2, s1, lo);
        assert(a.end == b.end);
        // equal spacings
        assert(some_active(notes, a.start as int) && spacing_at(
            notes,
            ref_pitch,
            ref_spacing,
            a.start as int,
        ) == a.spacing);
        assert(some_active(notes, b.start as int) && spacing_at(
            notes,
            ref_pitch,
            ref_spacing,
            b.start as int,
        ) == b.spacing);
        assert(a == b);
        // the tails are solutions from the cut `a.end`
        let t1 = s1.drop_first();
        let t2 = s2.drop_first();
        assert(forall|k: int| 0 <= k < t1.len() ==> #[trigger] t1[k] == s1[k + 1]);
        assert(forall|k: int| 0 <= k < t2.len() ==> #[trigger] t2[k] == s2[k + 1]);
        assert(correct_from(notes, ref_pitch, ref_spacing, t1, a.end as int)) by {
            assert forall|t: int|
                a.end <= t && #[trigger] some_active(notes, t) implies covers(t1, t) by {
                assert(covers(s1, t));
                let j = choose|j: int|
                    0 <= j < s1.len() && (#[trigger] s1[j]).start <= t < s1[j].end;
                assert(j != 0);
                assert(t1[j - 1].start <= t < t1[j - 1].end);
            }
        }
        assert(correct_from(notes, ref_pitch, ref_spacing, t2, a.end as int)) by {
            assert forall|t: int|
                a.end <= t && #[trigger] some_active(notes, t) implies covers(t2, t) by {
                assert(covers(s2, t));
                let j = choose|j: int|
                    0 <= j < s2.len() && (#[trigger] s2[j]).start <= t < s2[j].end;
                assert(j != 0);
                assert(t2[j - 1].start <= t < t2[j - 1].end);
            }
        }
        lemma_correct_from_unique(notes, ref_pitch, ref_spacing, t1, t2, a.end as int);
        assert forall|k: int| 0 <= k < s1.len() implies s1[k] == s2[k] by {
            if k > 0 {
                assert(t1[k - 1] == t2[k - 1]);
            }
        }
    }
}

/// The segment characterization pins the output down: any two segment
/// sequences that both satisfy [`segments_correct`] for the same notes and
/// calibration are equal.  Segment building is therefore a deterministic
/// function of its inputs.
pub proof fn lemma_segments_unique(
    notes: Seq<Note>,
    ref_pitch: u8,
    ref_spacing: u64,
    s1: Seq<Segment>,
    s2: Seq<Segment>,
)
    requires
        segments_correct(notes, ref_pitch, ref_spacing, s1),
        segments_correct(notes, ref_pitch, ref_spacing, s2),
    ensures
        s1 == s2,
{
    assert(correct_from(notes, ref_pitch, ref_spacing, s1, 0));
    assert(correct_from(notes, ref_pitch, ref_spacing, s2, 0));
    lemma_correct_from_unique(notes, ref_pitch, ref_spacing, s1, s2, 0);
}

/// A strictly increasing sequence is determined by its membership: any two
/// with the same members are equal.  Tooth emission is therefore a
/// deterministic function of the segments, scale and origin.
pub proof fn lemma_sorted_same_members_equal(r1: Seq<u64>, r2: Seq<u64>)
    requires
        sorted_strict(r1),
        sorted_strict(r2),
        forall|x: u64| r1.contains(x) <==> r2.contains(x),
    ensures
        r1 == r2,
    decreases r1.len(),
{
    if r1.len() == 0 && r2.len() == 0 {
        assert(r1 =~= r2);
    } else if r1.len() == 0 {
        assert(r2.contains(r2[0]));
        assert(r1.contains(r2[0]));
        assert(false);
    } else if r2.len() == 0 {
        assert(r1.contains(r1[0]));
        assert(r2.contains(r1[0]));
        assert(false);
    } else {
        assert(r1.contains(r1[0]));
        assert(r2.contains(r1[0]));
        let k2 = choose|k: int| 0 <= k < r2.len() && r2[k] == r1[0];
        if k2 > 0 {
            assert(r2[0] < r2[k2]);
        }
        assert(r2.contains(r2[0]));
        assert(r1.contains(r2[0]));
        let k1 = choose|k: int| 0 <= k < r1.len() && r1[k] == r2[0];
        if k1 > 0 {
            assert(r1[0] < r1[k1]);
        }
        assert(r1[0] == r2[0]);
        let t1 = r1.drop_first();
        let t2 = r2.drop_first();
        assert(forall|k: int| 0 <= k < t1.len() ==> #[trigger] t1[k] == r1[k + 1]);
        assert(forall|k: int| 0 <= k < t2.len() ==> #[trigger] t2[k] == r2[k + 1]);
        assert forall|x: u64| t1.contains(x) implies t2.contains(x) by {
            let k = choose|k: int| 0 <= k < t1.len() && t1[k] == x;
            assert(r1.contains(x));
            assert(r1[0] < x);
            assert(r2.contains(x));
            let m = choose|m: int| 0 <= m < r2.len() && r2[m] == x;
            assert(m != 0);
            assert(t2[m - 1] == x);
        }
        assert forall|x: u64| t2.contains(x) implies t1.contains(x) by {
            let k = choose|k: int| 0 <= k < t2.len() && t2[k] == x;
            assert(r2.contains(x));
            assert(r2[0] < x);
            assert(r1.contains(x));
            let m = choose|m: int| 0 <= m < r1.len() && r1[m] == x;
            assert(m != 0);
            assert(t1[m - 1] == x);
        }
        lemma_sorted_same_members_equal(t1, t2);
        assert forall|k: int| 0 <= k < r1.len() implies r1[k] == r2[k] by {
            if k > 0 {
                assert(t1[k - 1] == t2[k - 1]);
            }
        }
        assert(r1 =~= r2);
    }
}

/// The pipeline is pure and deterministic end to end: two runs over identical
/// notes, calibration, scale and origin yield identical segment sequences and
/// identical tooth sequences.
pub proof fn lemma_pipeline_deterministic(
    notes: Seq<Note>,
    ref_pitch: u8,
    ref_spacing: u64,
    scale: u64,
    origin: u64,
    s1: Seq<Segment>,
    s2: Seq<Segment>,
    r1: Seq<u64>,
    r2: Seq<u64>,
)
    requires
        segments_correct(notes, ref_pitch, ref_spacing, s1),
        segments_correct(notes, ref_pitch, ref_spacing, s2),
        sorted_strict(r1),
        forall|x: u64| r1.contains(x) <==> is_tooth(s1, scale, origin, x),
        sorted_strict(r2),
        forall|x: u64| r2.contains(x) <==> is_tooth(s2, scale, origin, x),
    ensures
        s1 == s2,
        r1 == r2,
{
    lemma_segments_unique(notes, ref_pitch, ref_spacing, s1, s2);
    lemma_sorted_same_members_equal(r1, r2);
}

/// Stepping one spacing ahead stays on the grid.
proof fn lemma_grid_step(x: int, sp: int)
    requires
        sp >= 1,
        x >= 0,
        x % sp == 0,
    ensures
        (x + sp) % sp == 0,
{
    vstd::arithmetic::div_mod::lemma_fundamental_div_mod(x, sp);
    let q = x / sp;
    vstd::arithmetic::div_mod::lemma_mod_multiples_basic(q + 1, sp);
    assert(x + sp == (q + 1) * sp) by (nonlinear_arith)
        requires
            x == sp * q,
    ;
}

/// Tooth continuity: inside one segment, consecutive teeth lie exactly one
/// spacing apart — across what were merge seams there is no doubled tooth and
/// no gap other than the spacing itself.
pub proof fn lemma_tooth_continuity(
    ss: Seq<Segment>,
    scale: u64,
    origin: u64,
    i: int,
    x: u64,
    y: u64,
)
    requires
        0 <= i < ss.len(),
        seg_tooth(ss[i], scale, origin, x),
        seg_tooth(ss[i], scale, origin, y),
        x < y,
        forall|z: u64| x < z < y ==> !(#[trigger] seg_tooth(ss[i], scale, origin, z)),
    ensures
        y == x + ss[i].spacing,
{
    let sp = ss[i].spacing;
    assert(x + sp <= y) by {
        lemma_multiple_gap(x as int, y as int, sp as int);
    }
    if x + sp < y {
        let z = (x + sp) as u64;
        lemma_grid_step(x as int, sp as int);
        assert(seg_tooth(ss[i], scale, origin, z));
        assert(false);
    }
}

/// Degenerate calibration: if every spacing lies below the threshold, the
/// emitted tooth sequence is empty.
pub proof fn lemma_degenerate_no_teeth(ss: Seq<Segment>, scale: u64, origin: u64, r: Seq<u64>)
    requires
        forall|i: int| 0 <= i < ss.len() ==> (#[trigger] ss[i]).spacing < MIN_TOOTH_SPACING,
        sorted_strict(r),
        forall|x: u64| r.contains(x) <==> is_tooth(ss, scale, origin, x),
    ensures
        r == Seq::<u64>::empty(),
{
    if r.len() > 0 {
        assert(r.contains(r[0]));
        let w = choose|w: int| 0 <= w < ss.len() && seg_tooth(#[trigger] ss[w], scale, origin, r[0]);
        assert(false);
    }
    assert(r =~= Seq::<u64>::empty());
}

/// When every note active at `t` has pitch `p`, the governing pitch is `p`.
proof fn lemma_gov_pitch_of_uniform(notes: Seq<Note>, t: int, p: u8)
    requires
        some_active(notes, t),
        forall|j: int| 0 <= j < notes.len() && #[trigger] notes[j].active_at(t) ==> notes[j].pitch
            == p,
    ensures
        gov_pitch(notes, t) == Some(p),
{
    lemma_gov_pitch(notes, t);
    let w = choose|w: int|
        0 <= w < notes.len() && #[trigger] notes[w].active_at(t) && notes[w].pitch == gov_pitch(
            notes,
            t,
        ).unwrap();
    assert(gov_pitch(notes, t) == Some(notes[w].pitch));
}

/// One segment per note: for a time-ordered list of separated notes, each
/// ending strictly before the next begins, the correct segment sequence has
/// exactly one segment per note, spanning the note's interval and carrying
/// the spacing of the note's pitch.
pub proof fn lemma_isolated_notes(
    notes: Seq<Note>,
    ref_pitch: u8,
    ref_spacing: u64,
    ss: Seq<Segment>,
)
    requires
        segments_correct(notes, ref_pitch, ref_spacing, ss),
        forall|i: int| 0 <= i < notes.len() ==> (#[trigger] notes[i]).wf() && notes[i].dur > 0,
        forall|i: int, j: int|
            0 <= i < j < notes.len() ==> (#[trigger] notes[i]).end() < (#[trigger] notes[j]).start,
        forall|p: u8| spacing_fp(p, ref_pitch, ref_spacing) <= u64::MAX,
    ensures
        ss.len() == notes.len(),
        forall|i: int|
            0 <= i < notes.len() ==> ss[i] == (Segment {
                start: notes[i].start,
                end: (notes[i].end()) as u64,
                spacing: spacing_fp(notes[i].pitch, ref_pitch, ref_spacing) as u64,
            }),
{
    let expected = Seq::new(
        notes.len(),
        |i: int|
            Segment {
                start: notes[i].start,
                end: (notes[i].end()) as u64,
                spacing: spacing_fp(notes[i].pitch, ref_pitch, ref_spacing) as u64,
            },
    );
    assert forall|i: int|
        0 <= i < expected.len() implies seg_wf(#[trigger] expected[i]) && seg_matches(
        notes,
        ref_pitch,
        ref_spacing,
        expected[i],
    ) by {
        lemma_spacing_fp_nonneg(notes[i].pitch, ref_pitch, ref_spacing);
        assert forall|t: int|
            expected[i].start <= t < expected[i].end implies #[trigger] some_active(notes, t)
            && spacing_at(notes, ref_pitch, ref_spacing, t) == expected[i].spacing by {
            assert(notes[i].active_at(t));
            assert(some_active(notes, t));
            assert forall|j: int|
                0 <= j < notes.len() && #[trigger] notes[j].active_at(t) implies notes[j].pitch
                == notes[i].pitch by {
                if j < i {
                    assert(notes[j].end() < notes[i].start);
                } else if j > i {
                    assert(notes[i].end() < notes[j].start);
                }
            }
            lemma_gov_pitch_of_uniform(notes, t, notes[i].pitch);
        }
    }
    assert(segs_ordered(expected)) by {
        assert forall|i: int, j: int|
            0 <= i < j < expected.len() implies (#[trigger] expected[i]).end
            <= (#[trigger] expected[j]).start by {
            assert(notes[i].end() < notes[j].start);
        }
    }
    assert forall|t: int| #[trigger] some_active(notes, t) implies covers(expected, t) by {
        let j = choose|j: int| 0 <= j < notes.len() && #[trigger] notes[j].active_at(t);
        assert(expected[j].start <= t < expected[j].end);
    }
    assert(segments_correct(notes, ref_pitch, ref_spacing, expected));
    lemma_segments_unique(notes, ref_pitch, ref_spacing, ss, expected);
}

/// Back-to-back notes of equal pitch merge: when `b` starts exactly where
/// `a` ends and both carry one pitch, the correct segment sequence is a
/// single segment spanning both notes.
pub proof fn lemma_back_to_back_merged(
    a: Note,
    b: Note,
    ref_pitch: u8,
    ref_spacing: u64,
    ss: Seq<Segment>,
)
    requires
        segments_correct(seq![a, b], ref_pitch, ref_spacing, ss),
        a.wf(),
        b.wf(),
        a.dur > 0,
        b.dur > 0,
        b.pitch == a.pitch,
        b.start == a.end(),
        spacing_fp(a.pitch, ref_pitch, ref_spacing) <= u64::MAX,
    ensures
        ss == seq![
            Segment {
                start: a.start,
                end: (b.end()) as u64,
                spacing: spacing_fp(a.pitch, ref_pitch, ref_spacing) as u64,
            },
        ],
{
    let notes = seq![a, b];
    let expected = seq![
        Segment {
            start: a.start,
            end: (b.end()) as u64,
            spacing: spacing_fp(a.pitch, ref_pitch, ref_spacing) as u64,
        },
    ];
    lemma_spacing_fp_nonneg(a.pitch, ref_pitch, ref_spacing);
    assert(notes[0] == a && notes[1] == b);
    assert forall|t: int|
        expected[0].start <= t < expected[0].end implies #[trigger] some_active(notes, t)
        && spacing_at(notes, ref_pitch, ref_spacing, t) == expected[0].spacing by {
        if t < a.end() {
            assert(notes[0].active_at(t));
        } else {
            assert(notes[1].active_at(t));
        }
        assert(some_active(notes, t));
        assert forall|j: int|
            0 <= j < notes.len() && #[trigger] notes[j].active_at(t) implies notes[j].pitch
            == a.pitch by {}
        lemma_gov_pitch_of_uniform(notes, t, a.pitch);
    }
    assert forall|t: int| #[trigger] some_active(notes, t) implies covers(expected, t) by {
        let j = choose|j: int| 0 <= j < notes.len() && #[trigger] notes[j].active_at(t);
        assert(expected[0].start <= t < expected[0].end);
    }
    assert(segments_correct(notes, ref_pitch, ref_spacing, expected));
    lemma_segments_unique(notes, ref_pitch, ref_spacing, ss, expected);
}

/// A higher-pitched note nested strictly inside a lower-pitched one yields
/// three segments: the outer pitch governs before and after the overlap, the
/// inner (higher) pitch governs during it, with exact boundaries.  The two
/// pitches' spacings must differ (a calibration so degenerate that both round
/// to one value would merge all three).
pub proof fn lemma_nested_overlap(
    lo: Note,
    hi: Note,
    ref_pitch: u8,
    ref_spacing: u64,
    ss: Seq<Segment>,
)
    requires
        segments_correct(seq![lo, hi], ref_pitch, ref_spacing, ss),
        lo.wf(),
        hi.wf(),
        hi.dur > 0,
        lo.start < hi.start,
        hi.end() < lo.end(),
        hi.pitch > lo.pitch,
        spacing_fp(lo.pitch, ref_pitch, ref_spacing) <= u64::MAX,
        spacing_fp(hi.pitch, ref_pitch, ref_spacing) <= u64::MAX,
        spacing_fp(lo.pitch, ref_pitch, ref_spacing) != spacing_fp(hi.pitch, ref_pitch, ref_spacing),
    ensures
        ss == seq![
            Segment {
                start: lo.start,
                end: hi.start,
                spacing: spacing_fp(lo.pitch, ref_pitch, ref_spacing) as u64,
            },
            Segment {
                start: hi.start,
                end: (hi.end()) as u64,
                spacing: spacing_fp(hi.pitch, ref_pitch, ref_spacing) as u64,
            },
            Segment {
                start: (hi.end()) as u64,
                end: (lo.end()) as u64,
                spacing: spacing_fp(lo.pitch, ref_pitch, ref_spacing) as u64,
            },
        ],
{
    let notes = seq![lo, hi];
    let sp_lo = spacing_fp(lo.pitch, ref_pitch, ref_spacing) as u64;
    let sp_hi = spacing_fp(hi.pitch, ref_pitch, ref_spacing) as u64;
    let expected = seq![
        Segment { start: lo.start, end: hi.start, spacing: sp_lo },
        Segment { start: hi.start, end: (hi.end()) as u64, spacing: sp_hi },
        Segment { start: (hi.end()) as u64, end: (lo.end()) as u64, spacing: sp_lo },
    ];
    lemma_spacing_fp_nonneg(lo.pitch, ref_pitch, ref_spacing);
    lemma_spacing_fp_nonneg(hi.pitch, ref_pitch, ref_spacing);
    assert(notes[0] == lo && notes[1] == hi);
    assert forall|i: int|
        0 <= i < expected.len() implies seg_matches(notes, ref_pitch, ref_spacing, #[trigger] expected[i]) by {
        assert forall|t: int|
            expected[i].start <= t < expected[i].end implies #[trigger] some_active(notes, t)
            && spacing_at(notes, ref_pitch, ref_spacing, t) == expected[i].spacing by {
            if i == 1 {
                assert(notes[1].active_at(t));
                assert(some_active(notes, t));
                lemma_gov_pitch(notes, t);
                let p = gov_pitch(notes, t).unwrap();
                assert(notes[1].pitch <= p);
                let w = choose|w: int|
                    0 <= w < notes.len() && #[trigger] notes[w].active_at(t) && notes[w].pitch == p;
                assert(p == hi.pitch);
            } else {
                assert(notes[0].active_at(t));
                assert(some_active(notes, t));
                assert(!notes[1].active_at(t));
                assert forall|j: int|
                    0 <= j < notes.len() && #[trigger] notes[j].active_at(t) implies notes[j].pitch
                    == lo.pitch by {}
                lemma_gov_pitch_of_uniform(notes, t, lo.pitch);
            }
        }
    }
    assert forall|t: int| #[trigger] some_active(notes, t) implies covers(expected, t) by {
        let j = choose|j: int| 0 <= j < notes.len() && #[trigger] notes[j].active_at(t);
        if t < hi.start {
            assert(expected[0].start <= t < expected[0].end);
        } else if t < hi.end() {
            assert(expected[1].start <= t < expected[1].end);
        } else {
            assert(expected[2].start <= t < expected[2].end);
        }
    }
    assert(segments_correct(notes, ref_pitch, ref_spacing, expected));
    lemma_segments_unique(notes, ref_pitch, ref_spacing, ss, expected);
}

} // verus!
