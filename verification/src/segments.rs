//! Segment derivation: partitions the timeline into contiguous runs where the
//! tooth spacing is constant.
//!
//! [`build_segments`] sweeps the note boundaries in time order, emits one
//! provisional segment per boundary interval in which some note sounds (its
//! spacing derived from the governing pitch, highest pitch wins), and then
//! merges adjacent contiguous segments of equal spacing.  With integer
//! spacings, equality is exact, so the merge pass needs no epsilon: it absorbs
//! precisely the seams where the same spacing continues across a note
//! boundary.
//!
//! The full behaviour is captured by [`segments_correct`]: the result covers
//! exactly the instants where some note sounds, carries at every covered
//! instant the spacing of the governing pitch, and is maximally merged.  That
//! characterization has a unique solution (see [`crate::laws`]), so it pins
//! the output down completely.

use vstd::prelude::*;

verus! {

use crate::notes::{Note, gov_pitch, some_active, lemma_gov_pitch, lemma_gov_pitch_congruent};
use crate::notes::governing_pitch;
use crate::spacing::{spacing, spacing_fp};

/// A maximal run of time with one tooth spacing.
#[derive(Clone, Copy, PartialEq, Eq, Structural, Debug)]
pub struct Segment {
    /// Start of the half-open time range, in time units.
    pub start: u64,
    /// End of the half-open time range, in time units.
    pub end: u64,
    /// Tooth spacing over the range, in distance units.
    pub spacing: u64,
}

/// A segment spans a non-empty time range.
pub open spec fn seg_wf(s: Segment) -> bool {
    s.start < s.end
}

/// Segments appear in time order without overlap.
pub open spec fn segs_ordered(ss: Seq<Segment>) -> bool {
    forall|i: int, j: int| 0 <= i < j < ss.len() ==> (#[trigger] ss[i]).end <= (#[trigger] ss[j]).start
}

/// Some segment of `ss` contains the instant `t`.
pub open spec fn covers(ss: Seq<Segment>, t: int) -> bool {
    exists|i: int| 0 <= i < ss.len() && (#[trigger] ss[i]).start <= t < ss[i].end
}

/// Some segment of `ss` contains the instant `t` and carries spacing `sp`.
pub open spec fn covered_sp(ss: Seq<Segment>, t: int, sp: u64) -> bool {
    exists|i: int|
        0 <= i < ss.len() && (#[trigger] ss[i]).start <= t < ss[i].end && ss[i].spacing == sp
}

/// The spacing of the governing pitch at instant `t`.
pub open spec fn spacing_at(notes: Seq<Note>, ref_pitch: u8, ref_spacing: u64, t: int) -> int {
    spacing_fp(gov_pitch(notes, t).unwrap(), ref_pitch, ref_spacing)
}

/// Throughout `s`'s range some note sounds and the governing spacing is `s.spacing`.
pub open spec fn seg_matches(notes: Seq<Note>, ref_pitch: u8, ref_spacing: u64, s: Segment) -> bool {
    forall|t: int|
        s.start <= t < s.end ==> #[trigger] some_active(notes, t) && spacing_at(
            notes,
            ref_pitch,
            ref_spacing,
            t,
        ) == s.spacing
}

/// The contract of [`build_segments`]: `ss` is an ordered, non-overlapping,
/// maximally merged sequence of well-formed segments that covers exactly the
/// instants at which some note sounds, each segment carrying the spacing of
/// the governing (highest active) pitch over its whole range.
pub open spec fn segments_correct(
    notes: Seq<Note>,
    ref_pitch: u8,
    ref_spacing: u64,
    ss: Seq<Segment>,
) -> bool {
    &&& forall|i: int| 0 <= i < ss.len() ==> seg_wf(#[trigger] ss[i])
    &&& segs_ordered(ss)
    &&& forall|i: int| 0 <= i < ss.len() ==> seg_matches(notes, ref_pitch, ref_spacing, #[trigger] ss[i])
    &&& forall|i: int|
        0 <= i && i + 1 < ss.len() && (#[trigger] ss[i]).end == ss[i + 1].start ==> ss[i].spacing
            != ss[i + 1].spacing
    &&& forall|t: int| #[trigger] some_active(notes, t) ==> covers(ss, t)
}

/// Strictly increasing sequence of time values.
pub open spec fn sorted_strict(b: Seq<u64>) -> bool {
    forall|i: int, j: int| 0 <= i < j < b.len() ==> b[i] < b[j]
}

/// `x` is the start or the end of some note.
pub open spec fn is_boundary(notes: Seq<Note>, x: int) -> bool {
    exists|i: int| 0 <= i < notes.len() && #[trigger] note_boundary(notes[i], x)
}

/// `x` is the start or the end of note `n`.
pub open spec fn note_boundary(n: Note, x: int) -> bool {
    x == n.start || x == n.end()
}

/// Inserts `x` into the strictly sorted vector `v`, keeping it strictly
/// sorted; a value already present is not duplicated.
fn insert_sorted(v: &mut Vec<u64>, x: u64)
    requires
        sorted_strict(old(v)@),
    ensures
        sorted_strict(final(v)@),
        forall|y: u64| final(v)@.contains(y) <==> (old(v)@.contains(y) || y == x),
{
    let mut idx: usize = 0;
    while idx < v.len() && v[idx] < x
        invariant
            idx <= v@.len(),
            v@ == old(v)@,
            sorted_strict(v@),
            forall|k: int| 0 <= k < idx ==> v@[k] < x,
        decreases v@.len() - idx,
    {
        idx = idx + 1;
    }
    if idx < v.len() && v[idx] == x {
        proof {
            assert(old(v)@.contains(x)) by {
                assert(old(v)@[idx as int] == x);
            }
            assert(forall|y: u64| v@.contains(y) <==> (old(v)@.contains(y) || y == x));
        }
        return ;
    }
    let ghost pre = v@;
    v.insert(idx, x);
    proof {
        pre.insert_ensures(idx as int, x);
        assert forall|i: int, j: int| 0 <= i < j < v@.len() implies v@[i] < v@[j] by {
            if j < idx {
            } else if i < idx && j == idx {
                assert(v@[i] == pre[i] && v@[j] == x);
            } else if i < idx {
                assert(v@[i] == pre[i] && v@[j] == pre[j - 1] && pre[j - 1] >= x);
                if idx < pre.len() {
                    assert(pre[idx as int] >= x);
                }
            } else if i == idx {
                assert(v@[i] == x && v@[j] == pre[j - 1]);
                assert(pre[idx as int] >= x && pre[idx as int] != x);
            } else {
                assert(v@[i] == pre[i - 1] && v@[j] == pre[j - 1]);
            }
        }
        assert forall|y: u64| v@.contains(y) implies (pre.contains(y) || y == x) by {
            let k = choose|k: int| 0 <= k < v@.len() && v@[k] == y;
            if k < idx {
                assert(pre[k] == y);
            } else if k == idx {
            } else {
                assert(pre[k - 1] == y);
            }
        }
        assert forall|y: u64| (pre.contains(y) || y == x) implies v@.contains(y) by {
            if y == x {
                assert(v@[idx as int] == x);
            } else {
                let k = choose|k: int| 0 <= k < pre.len() && pre[k] == y;
                if k < idx {
                    assert(v@[k] == y);
                } else {
                    assert(v@[k + 1] == y);
                }
            }
        }
    }
}

/// Collects every note start and note end into one strictly sorted vector:
/// the event times of the sweep, note-offs and note-ons coinciding at equal
/// timestamps collapsing into a single boundary.
fn collect_boundaries(notes: &Vec<Note>) -> (b: Vec<u64>)
    requires
        forall|i: int| 0 <= i < notes@.len() ==> (#[trigger] notes@[i]).wf(),
    ensures
        sorted_strict(b@),
        forall|y: u64| b@.contains(y) <==> is_boundary(notes@, y as int),
{
    let mut b: Vec<u64> = Vec::new();
    let mut i: usize = 0;
    while i < notes.len()
        invariant
            i <= notes@.len(),
            forall|k: int| 0 <= k < notes@.len() ==> (#[trigger] notes@[k]).wf(),
            sorted_strict(b@),
            forall|y: u64| b@.contains(y) <==> is_boundary(notes@.take(i as int), y as int),
        decreases notes@.len() - i,
    {
        let n = notes[i];
        let ghost before = b@;
        insert_sorted(&mut b, n.start);
        insert_sorted(&mut b, n.start + n.dur);
        proof {
            let ghost pfx = notes@.take(i as int);
            let ghost pfx1 = notes@.take(i + 1);
            assert(forall|k: int| 0 <= k < pfx.len() ==> pfx[k] == pfx1[k]);
            assert(pfx1[i as int] == notes@[i as int]);
            assert forall|y: u64| b@.contains(y) implies is_boundary(pfx1, y as int) by {
                if before.contains(y) {
                    let k = choose|k: int|
                        0 <= k < pfx.len() && #[trigger] note_boundary(pfx[k], y as int);
                    assert(note_boundary(pfx1[k], y as int));
                } else {
                    assert(note_boundary(pfx1[i as int], y as int));
                }
            }
            assert forall|y: u64| is_boundary(pfx1, y as int) implies b@.contains(y) by {
                let k = choose|k: int|
                    0 <= k < pfx1.len() && #[trigger] note_boundary(pfx1[k], y as int);
                if k < i {
                    assert(note_boundary(pfx[k], y as int));
                    assert(before.contains(y));
                } else {
                    assert(y == n.start || y == n.start + n.dur);
                }
            }
        }
        i = i + 1;
    }
    proof {
        assert(notes@.take(notes@.len() as int) =~= notes@);
    }
    b
}

/// In a strictly sorted boundary vector, any boundary value above `b[i]` is
/// at least `b[i + 1]`: no boundary lies strictly inside one interval.
proof fn lemma_boundary_gap(notes: Seq<Note>, b: Seq<u64>, i: int, x: int)
    requires
        forall|k: int| 0 <= k < notes.len() ==> (#[trigger] notes[k]).wf(),
        sorted_strict(b),
        forall|y: u64| b.contains(y) <==> is_boundary(notes, y as int),
        0 <= i && i + 1 < b.len(),
        is_boundary(notes, x),
        x > b[i],
    ensures
        x >= b[i + 1],
{
    let j = choose|j: int| 0 <= j < notes.len() && #[trigger] note_boundary(notes[j], x);
    assert(notes[j].wf());
    assert(0 <= x <= u64::MAX);
    let xu = x as u64;
    assert(is_boundary(notes, xu as int));
    assert(b.contains(xu));
    let k = choose|k: int| 0 <= k < b.len() && b[k] == xu;
    if k < i {
        assert(b[k] < b[i]);
    }
    if k > i + 1 {
        assert(b[i + 1] < b[k]);
    }
}

/// Every note is equally active throughout one boundary interval: between two
/// adjacent boundaries no note starts or ends.
proof fn lemma_interval_active_const(notes: Seq<Note>, b: Seq<u64>, i: int, t: int)
    requires
        forall|k: int| 0 <= k < notes.len() ==> (#[trigger] notes[k]).wf(),
        sorted_strict(b),
        forall|y: u64| b.contains(y) <==> is_boundary(notes, y as int),
        0 <= i && i + 1 < b.len(),
        b[i] <= t < b[i + 1],
    ensures
        forall|j: int|
            0 <= j < notes.len() ==> (#[trigger] notes[j]).active_at(t) == notes[j].active_at(
                b[i] as int,
            ),
{
    assert forall|j: int|
        0 <= j < notes.len() implies (#[trigger] notes[j]).active_at(t) == notes[j].active_at(
        b[i] as int,
    ) by {
        let n = notes[j];
        assert(note_boundary(n, n.start as int));
        assert(note_boundary(n, n.end()));
        if n.active_at(t) {
            if n.start > b[i] {
                lemma_boundary_gap(notes, b, i, n.start as int);
            }
            lemma_boundary_gap(notes, b, i, n.end());
        }
        if n.active_at(b[i] as int) {
            lemma_boundary_gap(notes, b, i, n.end());
        }
    }
}

/// Any instant at which some note sounds lies in some boundary interval.
proof fn lemma_active_in_interval(notes: Seq<Note>, b: Seq<u64>, t: int)
    requires
        forall|k: int| 0 <= k < notes.len() ==> (#[trigger] notes[k]).wf(),
        sorted_strict(b),
        forall|y: u64| b.contains(y) <==> is_boundary(notes, y as int),
        some_active(notes, t),
    ensures
        exists|i: int| 0 <= i && i + 1 < b.len() && (#[trigger] b[i]) <= t < b[i + 1],
{
    let j = choose|j: int| 0 <= j < notes.len() && #[trigger] notes[j].active_at(t);
    let n = notes[j];
    assert(note_boundary(n, n.start as int));
    assert(note_boundary(n, n.end()));
    assert(is_boundary(notes, n.start as int));
    assert(is_boundary(notes, n.end()));
    assert(b.contains(n.start));
    let e = (n.end()) as u64;
    assert(b.contains(e));
    let ks = choose|k: int| 0 <= k < b.len() && b[k] == n.start;
    let ke = choose|k: int| 0 <= k < b.len() && b[k] == e;
    assert(b[ks] <= t < b[ke]);
    if ke < ks {
        assert(b[ke] < b[ks]);
    } else if ke == ks {
        assert(false);
    }
    lemma_crossing(b, t, ks, ke);
}

/// Between an index at or below `t` and one above `t` lies an adjacent pair
/// that brackets `t`.
proof fn lemma_crossing(b: Seq<u64>, t: int, lo: int, hi: int)
    requires
        0 <= lo < hi < b.len(),
        b[lo] <= t < b[hi],
    ensures
        exists|i: int| 0 <= i && i + 1 < b.len() && (#[trigger] b[i]) <= t < b[i + 1],
    decreases hi - lo,
{
    if b[lo + 1] > t {
        assert(b[lo] <= t < b[lo + 1]);
    } else {
        lemma_crossing(b, t, lo + 1, hi);
    }
}

/// One provisional segment per boundary interval in which a note sounds,
/// its spacing taken from the governing pitch of the interval.
fn provisional_segments(notes: &Vec<Note>, ref_pitch: u8, ref_spacing: u64, b: &Vec<u64>) -> (segs:
    Vec<Segment>)
    requires
        forall|i: int| 0 <= i < notes@.len() ==> (#[trigger] notes@[i]).wf(),
        forall|p: u8| spacing_fp(p, ref_pitch, ref_spacing) <= u64::MAX,
        sorted_strict(b@),
        forall|y: u64| b@.contains(y) <==> is_boundary(notes@, y as int),
    ensures
        forall|i: int| 0 <= i < segs@.len() ==> seg_wf(#[trigger] segs@[i]),
        segs_ordered(segs@),
        forall|i: int|
            0 <= i < segs@.len() ==> seg_matches(notes@, ref_pitch, ref_spacing, #[trigger] segs@[i]),
        forall|t: int| #[trigger] some_active(notes@, t) ==> covers(segs@, t),
{
    let mut segs: Vec<Segment> = Vec::new();
    if b.len() == 0 {
        proof {
            assert forall|t: int| #[trigger] some_active(notes@, t) implies covers(segs@, t) by {
                lemma_active_in_interval(notes@, b@, t);
            }
        }
        return segs;
    }
    let mut k: usize = 0;
    proof {
        assert forall|t: int|
            t < b@[0] && #[trigger] some_active(notes@, t) implies covers(segs@, t) by {
            let j = choose|j: int| 0 <= j < notes@.len() && #[trigger] notes@[j].active_at(t);
            let n = notes@[j];
            assert(note_boundary(n, n.start as int));
            assert(is_boundary(notes@, n.start as int));
            assert(b@.contains(n.start));
            let w = choose|w: int| 0 <= w < b@.len() && b@[w] == n.start;
            if w > 0 {
                assert(b@[0] < b@[w]);
            }
        }
    }
    while k + 1 < b.len()
        invariant
            forall|i: int| 0 <= i < notes@.len() ==> (#[trigger] notes@[i]).wf(),
            forall|p: u8| spacing_fp(p, ref_pitch, ref_spacing) <= u64::MAX,
            sorted_strict(b@),
            forall|y: u64| b@.contains(y) <==> is_boundary(notes@, y as int),
            k < b@.len() <= usize::MAX,
            forall|i: int| 0 <= i < segs@.len() ==> seg_wf(#[trigger] segs@[i]),
            segs_ordered(segs@),
            forall|i: int| 0 <= i < segs@.len() ==> (#[trigger] segs@[i]).end <= b@[k as int],
            forall|i: int|
                0 <= i < segs@.len() ==> seg_matches(
                    notes@,
                    ref_pitch,
                    ref_spacing,
                    #[trigger] segs@[i],
                ),
            forall|t: int|
                t < b@[k as int] && #[trigger] some_active(notes@, t) ==> covers(segs@, t),
        decreases b@.len() - k,
    {
        let t0 = b[k];
        let t1 = b[k + 1];
        let ghost prev = segs@;
        match governing_pitch(notes, t0) {
            Some(p) => {
                let sp = spacing(p, ref_pitch, ref_spacing);
                segs.push(
                    Segment { start: t0, end: t1, spacing: sp },
                );
            },
            None => {},
        }
        proof {
            let ki = k as int;
            assert(b@[ki] < b@[ki + 1]);
            assert forall|i: int| 0 <= i < prev.len() implies segs@[i] == prev[i] by {}
            assert forall|t: int|
                b@[ki] <= t < b@[ki + 1] implies (#[trigger] gov_pitch(notes@, t)) == gov_pitch(
                notes@,
                b@[ki] as int,
            ) by {
                lemma_interval_active_const(notes@, b@, ki, t);
                lemma_gov_pitch_congruent(notes@, t, b@[ki] as int);
            }
            if gov_pitch(notes@, b@[ki] as int) is Some {
                let s = segs@[segs@.len() - 1];
                assert(seg_wf(s));
                assert forall|t: int|
                    s.start <= t < s.end implies #[trigger] some_active(notes@, t) && spacing_at(
                    notes@,
                    ref_pitch,
                    ref_spacing,
                    t,
                ) == s.spacing by {
                    lemma_gov_pitch(notes@, t);
                }
                assert(seg_matches(notes@, ref_pitch, ref_spacing, s));
            }
            assert forall|t: int|
                t < b@[ki + 1] && #[trigger] some_active(notes@, t) implies covers(segs@, t) by {
                if t < b@[ki] {
                    assert(covers(prev, t));
                    let w = choose|i: int|
                        0 <= i < prev.len() && (#[trigger] prev[i]).start <= t < prev[i].end;
                    assert(segs@[w].start <= t < segs@[w].end);
                } else {
                    lemma_gov_pitch(notes@, t);
                    assert(gov_pitch(notes@, b@[ki] as int) is Some);
                    let s = segs@[segs@.len() - 1];
                    assert(s.start <= t < s.end);
                }
            }
        }
        k = k + 1;
    }
    proof {
        assert forall|t: int| #[trigger] some_active(notes@, t) implies covers(segs@, t) by {
            lemma_active_in_interval(notes@, b@, t);
            let i = choose|i: int| 0 <= i && i + 1 < b@.len() && (#[trigger] b@[i]) <= t < b@[i + 1];
            assert(b@[i + 1] <= b@[k as int] || i + 1 == k as int);
            assert(t < b@[k as int]);
        }
    }
    segs
}

/// Merges adjacent contiguous segments of equal spacing into one.  The result
/// covers the same instants with the same spacings, and no two adjacent
/// contiguous segments share a spacing any more.
fn merge_segments(input: &Vec<Segment>) -> (out: Vec<Segment>)
    requires
        forall|i: int| 0 <= i < input@.len() ==> seg_wf(#[trigger] input@[i]),
        segs_ordered(input@),
    ensures
        forall|i: int| 0 <= i < out@.len() ==> seg_wf(#[trigger] out@[i]),
        segs_ordered(out@),
        forall|i: int|
            0 <= i && i + 1 < out@.len() && (#[trigger] out@[i]).end == out@[i + 1].start
                ==> out@[i].spacing != out@[i + 1].spacing,
        forall|t: int, sp: u64| #[trigger] covered_sp(out@, t, sp) ==> covered_sp(input@, t, sp),
        forall|t: int, sp: u64| #[trigger] covered_sp(input@, t, sp) ==> covered_sp(out@, t, sp),
{
    let mut out: Vec<Segment> = Vec::new();
    let mut i: usize = 0;
    while i < input.len()
        invariant
            forall|k: int| 0 <= k < input@.len() ==> seg_wf(#[trigger] input@[k]),
            segs_ordered(input@),
            i <= input@.len(),
            forall|k: int| 0 <= k < out@.len() ==> seg_wf(#[trigger] out@[k]),
            segs_ordered(out@),
            forall|k: int|
                0 <= k && k + 1 < out@.len() && (#[trigger] out@[k]).end == out@[k + 1].start
                    ==> out@[k].spacing != out@[k + 1].spacing,
            out@.len() == 0 <==> i == 0,
            i > 0 ==> out@.len() > 0 && out@.last().end == input@[i - 1].end,
            forall|t: int, sp: u64|
                #[trigger] covered_sp(out@, t, sp) ==> covered_sp(input@.take(i as int), t, sp),
            forall|t: int, sp: u64|
                #[trigger] covered_sp(input@.take(i as int), t, sp) ==> covered_sp(out@, t, sp),
        decreases input@.len() - i,
    {
        let seg = input[i];
        let ghost pre = out@;
        let ghost ii = i as int;
        let mut extended = false;
        if out.len() > 0 {
            let lidx = out.len() - 1;
            let last = out[lidx];
            if last.end == seg.start && last.spacing == seg.spacing {
                out[lidx] = Segment { start: last.start, end: seg.end, spacing: last.spacing };
                extended = true;
            }
        }
        if !extended {
            out.push(seg);
        }
        proof {
            let tk1 = input@.take(ii + 1);
            let tk = input@.take(ii);
            assert(forall|k: int| 0 <= k < tk.len() ==> tk[k] == tk1[k]);
            assert(tk1[ii] == seg);
            let li = pre.len() - 1;
            if extended {
                assert(forall|k: int| 0 <= k < li ==> out@[k] == pre[k]);
                assert(out@.last() == Segment { start: pre[li].start, end: seg.end, spacing: pre[li].spacing });
                assert(pre[li].end == seg.start && pre[li].spacing == seg.spacing);
                // time order against the rest of the input
                assert forall|k: int, j: int| 0 <= k < j < out@.len() implies (#[trigger] out@[k]).end
                    <= (#[trigger] out@[j]).start by {
                    if j < li {
                    } else {
                        assert(out@[j].start == pre[j].start);
                    }
                }
                assert forall|t: int, sp: u64| #[trigger] covered_sp(out@, t, sp) implies covered_sp(
                    tk1,
                    t,
                    sp,
                ) by {
                    let w = choose|w: int|
                        0 <= w < out@.len() && (#[trigger] out@[w]).start <= t < out@[w].end
                            && out@[w].spacing == sp;
                    if w < li {
                        assert(covered_sp(pre, t, sp)) by {
                            assert(pre[w].start <= t < pre[w].end && pre[w].spacing == sp);
                        }
                        let v = choose|v: int|
                            0 <= v < tk.len() && (#[trigger] tk[v]).start <= t < tk[v].end
                                && tk[v].spacing == sp;
                        assert(tk1[v].start <= t < tk1[v].end && tk1[v].spacing == sp);
                    } else {
                        if t < pre[li].end {
                            assert(covered_sp(pre, t, sp)) by {
                                assert(pre[li].start <= t < pre[li].end && pre[li].spacing == sp);
                            }
                            let v = choose|v: int|
                                0 <= v < tk.len() && (#[trigger] tk[v]).start <= t < tk[v].end
                                    && tk[v].spacing == sp;
                            assert(tk1[v].start <= t < tk1[v].end && tk1[v].spacing == sp);
                        } else {
                            assert(tk1[ii].start <= t < tk1[ii].end && tk1[ii].spacing == sp);
                        }
                    }
                }
                assert forall|t: int, sp: u64| #[trigger] covered_sp(tk1, t, sp) implies covered_sp(
                    out@,
                    t,
                    sp,
                ) by {
                    let w = choose|w: int|
                        0 <= w < tk1.len() && (#[trigger] tk1[w]).start <= t < tk1[w].end
                            && tk1[w].spacing == sp;
                    if w < ii {
                        assert(tk[w].start <= t < tk[w].end && tk[w].spacing == sp);
                        assert(covered_sp(tk, t, sp));
                        let v = choose|v: int|
                            0 <= v < pre.len() && (#[trigger] pre[v]).start <= t < pre[v].end
                                && pre[v].spacing == sp;
                        if v < li {
                            assert(out@[v].start <= t < out@[v].end && out@[v].spacing == sp);
                        } else {
                            assert(out@[li].start <= t < out@[li].end && out@[li].spacing == sp);
                        }
                    } else {
                        assert(out@[li].start <= t < out@[li].end && out@[li].spacing == sp);
                    }
                }
            } else {
                assert(forall|k: int| 0 <= k < pre.len() ==> out@[k] == pre[k]);
                assert(out@.last() == seg);
                if pre.len() > 0 {
                    assert(pre[li].end == input@[ii - 1].end);
                    assert(input@[ii - 1].end <= input@[ii].start);
                }
                assert forall|k: int, j: int| 0 <= k < j < out@.len() implies (#[trigger] out@[k]).end
                    <= (#[trigger] out@[j]).start by {
                    if j < pre.len() {
                    } else {
                        assert(out@[k].end <= pre[li].end);
                    }
                }
                assert forall|t: int, sp: u64| #[trigger] covered_sp(out@, t, sp) implies covered_sp(
                    tk1,
                    t,
                    sp,
                ) by {
                    let w = choose|w: int|
                        0 <= w < out@.len() && (#[trigger] out@[w]).start <= t < out@[w].end
                            && out@[w].spacing == sp;
                    if w < pre.len() {
                        assert(covered_sp(pre, t, sp)) by {
                            assert(pre[w].start <= t < pre[w].end && pre[w].spacing == sp);
                        }
                        let v = choose|v: int|
                            0 <= v < tk.len() && (#[trigger] tk[v]).start <= t < tk[v].end
                                && tk[v].spacing == sp;
                        assert(tk1[v].start <= t < tk1[v].end && tk1[v].spacing == sp);
                    } else {
                        assert(tk1[ii].start <= t < tk1[ii].end && tk1[ii].spacing == sp);
                    }
                }
                assert forall|t: int, sp: u64| #[trigger] covered_sp(tk1, t, sp) implies covered_sp(
                    out@,
                    t,
                    sp,
                ) by {
                    let w = choose|w: int|
                        0 <= w < tk1.len() && (#[trigger] tk1[w]).start <= t < tk1[w].end
                            && tk1[w].spacing == sp;
                    if w < ii {
                        assert(tk[w].start <= t < tk[w].end && tk[w].spacing == sp);
                        assert(covered_sp(tk, t, sp));
                        let v = choose|v: int|
                            0 <= v < pre.len() && (#[trigger] pre[v]).start <= t < pre[v].end
                                && pre[v].spacing == sp;
                        assert(out@[v].start <= t < out@[v].end && out@[v].spacing == sp);
                    } else {
                        let v = out@.len() - 1;
                        assert(out@[v].start <= t < out@[v].end && out@[v].spacing == sp);
                    }
                }
            }
        }
        i = i + 1;
    }
    proof {
        assert(input@.take(input@.len() as int) =~= input@);
    }
    out
}

/// Derives the comb segments for a note list: one ordered, maximally merged,
/// well-formed segment per maximal run of constant governing spacing, covering
/// exactly the instants at which some note sounds ([`segments_correct`]).
///
/// Every note must fit on the time axis and every pitch's spacing must fit in
/// a machine word under the given calibration; both are machine limits, not
/// musical ones.
pub fn build_segments(notes: &Vec<Note>, ref_pitch: u8, ref_spacing: u64) -> (segs: Vec<Segment>)
    requires
        forall|i: int| 0 <= i < notes@.len() ==> (#[trigger] notes@[i]).wf(),
        forall|p: u8| spacing_fp(p, ref_pitch, ref_spacing) <= u64::MAX,
    ensures
        segments_correct(notes@, ref_pitch, ref_spacing, segs@),
{
    let b = collect_boundaries(notes);
    let prov = provisional_segments(notes, ref_pitch, ref_spacing, &b);
    let out = merge_segments(&prov);
    proof {
        assert forall|i: int|
            0 <= i < out@.len() implies seg_matches(notes@, ref_pitch, ref_spacing, #[trigger] out@[i]) by {
            let s = out@[i];
            assert forall|t: int|
                s.start <= t < s.end implies #[trigger] some_active(notes@, t) && spacing_at(
                notes@,
                ref_pitch,
                ref_spacing,
                t,
            ) == s.spacing by {
                assert(covered_sp(out@, t, s.spacing)) by {
                    assert(out@[i].start <= t < out@[i].end && out@[i].spacing == s.spacing);
                }
                assert(covered_sp(prov@, t, s.spacing));
                let w = choose|w: int|
                    0 <= w < prov@.len() && (#[trigger] prov@[w]).start <= t < prov@[w].end
                        && prov@[w].spacing == s.spacing;
                assert(seg_matches(notes@, ref_pitch, ref_spacing, prov@[w]));
                assert(some_active(notes@, t));
            }
        }
        assert forall|t: int| #[trigger] some_active(notes@, t) implies covers(out@, t) by {
            assert(covers(prov@, t));
            let w = choose|w: int|
                0 <= w < prov@.len() && (#[trigger] prov@[w]).start <= t < prov@[w].end;
            assert(covered_sp(prov@, t, prov@[w].spacing));
            assert(covered_sp(out@, t, prov@[w].spacing));
            let v = choose|v: int|
                0 <= v < out@.len() && (#[trigger] out@[v]).start <= t < out@[v].end
                    && out@[v].spacing == prov@[w].spacing;
            assert(out@[v].start <= t < out@[v].end);
        }
    }
    out
}

} // verus!
