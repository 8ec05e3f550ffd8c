//! Tooth emission: places evenly spaced marks across each segment's pixel
//! range, phase-locked to the absolute coordinate origin.
//!
//! A tooth of a segment is a multiple of the segment's spacing that falls
//! inside the segment's pixel range `[start * scale, end * scale)`.  Anchoring
//! teeth to multiples of the spacing (instead of restarting at each segment's
//! left edge) keeps the pattern continuous across a merge boundary: where the
//! spacing is unchanged the grid is unchanged.  Positions below `origin` (a
//! scrolled or cropped view) are filtered out of the result without re-seeding
//! the grid, so the phase is preserved.  A segment whose spacing lies below
//! [`MIN_TOOTH_SPACING`] yields no teeth at all: degenerate calibrations are
//! skipped, never looped over.

use vstd::prelude::*;

verus! {

use crate::segments::{Segment, seg_wf, segs_ordered, sorted_strict};
use vstd::arithmetic::div_mod::lemma_fundamental_div_mod;
use vstd::arithmetic::mul::lemma_mul_inequality;

/// Spacings below this threshold produce no teeth.
pub const MIN_TOOTH_SPACING: u64 = 1;

/// `x` is a tooth of segment `s`: the spacing is above the threshold, `x`
/// lies in the segment's pixel range, on the absolute spacing grid, and at or
/// beyond the view origin.
pub open spec fn seg_tooth(s: Segment, scale: u64, origin: u64, x: u64) -> bool {
    &&& s.spacing >= MIN_TOOTH_SPACING
    &&& s.start * scale <= x < s.end * scale
    &&& x % s.spacing == 0
    &&& origin <= x
}

/// `x` is a tooth of some segment of `ss`.
pub open spec fn is_tooth(ss: Seq<Segment>, scale: u64, origin: u64, x: u64) -> bool {
    exists|i: int| 0 <= i < ss.len() && seg_tooth(#[trigger] ss[i], scale, origin, x)
}

/// Two distinct multiples of `sp` lie at least `sp` apart.
pub proof fn lemma_multiple_gap(a: int, b: int, sp: int)
    requires
        sp >= 1,
        a >= 0,
        b >= 0,
        a % sp == 0,
        b % sp == 0,
        a < b,
    ensures
        a + sp <= b,
{
    lemma_fundamental_div_mod(a, sp);
    lemma_fundamental_div_mod(b, sp);
    let qa = a / sp;
    let qb = b / sp;
    assert(a == sp * qa && b == sp * qb);
    assert(qa < qb) by (nonlinear_arith)
        requires
            sp >= 1,
            a == sp * qa,
            b == sp * qb,
            a < b,
    ;
    assert(sp * qa + sp <= sp * qb) by (nonlinear_arith)
        requires
            sp >= 1,
            qa < qb,
    ;
}

/// Emits the teeth of `segments`, in strictly increasing order: exactly the
/// positions on each segment's spacing grid that lie inside the segment's
/// pixel range and at or beyond `origin` ([`is_tooth`]).
///
/// The segment ranges scaled to pixels must fit in a machine word.
pub fn emit_teeth(segments: &Vec<Segment>, scale: u64, origin: u64) -> (r: Vec<u64>)
    requires
        scale >= 1,
        forall|i: int| 0 <= i < segments@.len() ==> seg_wf(#[trigger] segments@[i]),
        segs_ordered(segments@),
        forall|i: int| 0 <= i < segments@.len() ==> (#[trigger] segments@[i]).end * scale <= u64::MAX,
    ensures
        sorted_strict(r@),
        forall|x: u64| r@.contains(x) <==> is_tooth(segments@, scale, origin, x),
{
    let mut r: Vec<u64> = Vec::new();
    let mut i: usize = 0;
    while i < segments.len()
        invariant
            scale >= 1,
            forall|k: int| 0 <= k < segments@.len() ==> seg_wf(#[trigger] segments@[k]),
            segs_ordered(segments@),
            forall|k: int|
                0 <= k < segments@.len() ==> (#[trigger] segments@[k]).end * scale <= u64::MAX,
            i <= segments@.len(),
            sorted_strict(r@),
            forall|x: u64|
                r@.contains(x) <==> is_tooth(segments@.take(i as int), scale, origin, x),
        decreases segments@.len() - i,
    {
        let seg = segments[i];
        let ghost tk = segments@.take(i as int);
        let ghost tk1 = segments@.take(i + 1);
        proof {
            assert(forall|k: int| 0 <= k < tk.len() ==> tk[k] == tk1[k]);
            assert(tk1[i as int] == seg);
        }
        if seg.spacing >= MIN_TOOTH_SPACING {
            proof {
                lemma_mul_inequality(seg.start as int, seg.end as int, scale as int);
            }
            let start_x = seg.start * scale;
            let end_x = seg.end * scale;
            let sp = seg.spacing;
            let q = start_x / sp;
            proof {
                lemma_fundamental_div_mod(start_x as int, sp as int);
                vstd::arithmetic::div_mod::lemma_mod_pos_bound(start_x as int, sp as int);
                assert(start_x as int == (sp as int) * ((start_x as int) / (sp as int)) + (
                start_x as int) % (sp as int));
                assert(q as int == (start_x as int) / (sp as int));
                assert((q as int) * (sp as int) <= start_x as int) by (nonlinear_arith)
                    requires
                        start_x as int == (sp as int) * (q as int) + (start_x as int) % (
                        sp as int),
                        0 <= (start_x as int) % (sp as int),
                ;
            }
            let mut x: u128 = (q as u128) * (sp as u128);
            proof {
                assert(x as int <= start_x as int);
                assert((start_x as int) < (x as int) + (sp as int)) by (nonlinear_arith)
                    requires
                        x as int == (q as int) * (sp as int),
                        start_x as int == (sp as int) * (q as int) + (start_x as int) % (
                        sp as int),
                        (start_x as int) % (sp as int) < (sp as int),
                ;
                assert((x as int) % (sp as int) == 0) by {
                    vstd::arithmetic::div_mod::lemma_mod_multiples_basic(q as int, sp as int);
                    assert(x as int == (q as int) * (sp as int));
                }
            }
            if x < start_x as u128 {
                x = x + sp as u128;
                proof {
                    assert((x as int) % (sp as int) == 0) by {
                        vstd::arithmetic::div_mod::lemma_mod_multiples_basic(
                            q as int + 1,
                            sp as int,
                        );
                        assert(x as int == (q as int + 1) * (sp as int)) by (nonlinear_arith)
                            requires
                                x as int == (q as int) * (sp as int) + sp as int,
                        ;
                    }
                }
            }
            proof {
                // no tooth of this segment lies below the first grid point
                assert forall|y: u64| seg_tooth(seg, scale, origin, y) && (y as int) < x implies
                    false by {
                    lemma_multiple_gap(y as int, x as int, sp as int);
                }
                // earlier teeth stay below this segment's pixel range
                assert forall|y: u64| r@.contains(y) implies (y as int) < start_x as int by {
                    let w = choose|w: int| 0 <= w < tk.len() && seg_tooth(#[trigger] tk[w], scale, origin, y);
                    assert(segments@[w] == tk[w]);
                    assert(segments@[w].end <= segments@[i as int].start);
                    lemma_mul_inequality(segments@[w].end as int, seg.start as int, scale as int);
                }
            }
            while x < end_x as u128
                invariant
                    scale >= 1,
                    sp == seg.spacing,
                    sp >= 1,
                    start_x == seg.start * scale,
                    end_x == seg.end * scale,
                    end_x <= u64::MAX,
                    start_x <= x,
                    (x as int) % (sp as int) == 0,
                    x <= end_x + sp,
                    sorted_strict(r@),
                    forall|y: u64| r@.contains(y) ==> (y as int) < x,
                    forall|y: u64|
                        r@.contains(y) <==> (is_tooth(tk, scale, origin, y) || (seg_tooth(
                            seg,
                            scale,
                            origin,
                            y,
                        ) && (y as int) < x)),
                decreases end_x as int + sp as int - x,
            {
                let ghost prev = r@;
                let ghost xold = x as int;
                let xu = x as u64;
                let pushed = xu >= origin;
                if pushed {
                    r.push(xu);
                    proof {
                        assert(seg_tooth(seg, scale, origin, xu));
                        assert(forall|k: int| 0 <= k < prev.len() ==> r@[k] == prev[k]);
                        assert(r@.last() == xu);
                        assert forall|a: int, b: int| 0 <= a < b < r@.len() implies r@[a]
                            < r@[b] by {
                            if b < prev.len() {
                            } else {
                                assert(prev.contains(prev[a]));
                            }
                        }
                    }
                }
                proof {
                    assert forall|y: u64| r@.contains(y) implies (prev.contains(y) || (pushed && y
                        == xu)) by {
                        let k = choose|k: int| 0 <= k < r@.len() && r@[k] == y;
                        if k < prev.len() {
                            assert(prev[k] == y);
                        }
                    }
                    assert forall|y: u64| prev.contains(y) implies r@.contains(y) by {
                        let k = choose|k: int| 0 <= k < prev.len() && prev[k] == y;
                        assert(r@[k] == y);
                    }
                }
                x = x + sp as u128;
                proof {
                    assert((x as int) % (sp as int) == 0) by {
                        lemma_fundamental_div_mod(xold, sp as int);
                        let qo = xold / (sp as int);
                        vstd::arithmetic::div_mod::lemma_mod_multiples_basic(qo + 1, sp as int);
                        assert(x as int == (qo + 1) * (sp as int)) by (nonlinear_arith)
                            requires
                                xold == (sp as int) * qo,
                                x as int == xold + sp as int,
                        ;
                    }
                    assert forall|y: u64|
                        r@.contains(y) implies (is_tooth(tk, scale, origin, y) || (seg_tooth(
                        seg,
                        scale,
                        origin,
                        y,
                    ) && (y as int) < x)) by {
                        if prev.contains(y) {
                            assert((y as int) < xold);
                        } else {
                            assert(pushed && y == xu);
                            assert(seg_tooth(seg, scale, origin, y));
                        }
                    }
                    assert forall|y: u64|
                        (is_tooth(tk, scale, origin, y) || (seg_tooth(seg, scale, origin, y) && (
                        y as int) < x)) implies r@.contains(y) by {
                        if is_tooth(tk, scale, origin, y) {
                            assert(prev.contains(y));
                        } else if (y as int) < xold {
                            assert(prev.contains(y));
                        } else {
                            if (y as int) > xold {
                                lemma_multiple_gap(xold, y as int, sp as int);
                                assert(false);
                            }
                            assert(y == xu);
                            assert(origin <= y);
                            assert(r@.contains(xu));
                        }
                    }
                }
            }
            proof {
                assert forall|y: u64|
                    r@.contains(y) <==> is_tooth(tk1, scale, origin, y) by {
                    if r@.contains(y) {
                        if is_tooth(tk, scale, origin, y) {
                            let w = choose|w: int|
                                0 <= w < tk.len() && seg_tooth(#[trigger] tk[w], scale, origin, y);
                            assert(seg_tooth(tk1[w], scale, origin, y));
                        } else {
                            assert(seg_tooth(tk1[i as int], scale, origin, y));
                        }
                    }
                    if is_tooth(tk1, scale, origin, y) {
                        let w = choose|w: int|
                            0 <= w < tk1.len() && seg_tooth(#[trigger] tk1[w], scale, origin, y);
                        if w < i {
                            assert(seg_tooth(tk[w], scale, origin, y));
                        } else {
                            assert(seg_tooth(seg, scale, origin, y));
                            assert((y as int) < x);
                        }
                    }
                }
            }
        } else {
            proof {
                assert forall|y: u64|
                    r@.contains(y) <==> is_tooth(tk1, scale, origin, y) by {
                    if r@.contains(y) {
                        let w = choose|w: int|
                            0 <= w < tk.len() && seg_tooth(#[trigger] tk[w], scale, origin, y);
                        assert(seg_tooth(tk1[w], scale, origin, y));
                    }
                    if is_tooth(tk1, scale, origin, y) {
                        let w = choose|w: int|
                            0 <= w < tk1.len() && seg_tooth(#[trigger] tk1[w], scale, origin, y);
                        assert(w < i || !seg_tooth(tk1[w], scale, origin, y));
                        if w < i {
                            assert(seg_tooth(tk[w], scale, origin, y));
                        }
                    }
                }
            }
        }
        i = i + 1;
    }
    proof {
        assert(segments@.take(segments@.len() as int) =~= segments@);
    }
    r
}

} // verus!
