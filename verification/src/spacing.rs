//! The spacing model: maps a pitch and a calibration (reference pitch,
//! reference spacing) to a tooth spacing proportional to the pitch's acoustic
//! wavelength.
//!
//! In twelve-tone equal temperament the frequency of pitch `p` is
//! `440 * 2^((p - 69) / 12)`, so the wavelength ratio between the reference
//! pitch and a target pitch is exactly `2^((ref_pitch - pitch) / 12)`.
//! The model evaluates that ratio in fixed-point arithmetic: the fractional
//! part of the exponent comes from a table of the twelve semitone ratios
//! scaled by [`SPACING_SCALE`], the integral part is an exact power of two.

use vstd::prelude::*;

verus! {

use vstd::arithmetic::mul::lemma_mul_upper_bound;
use vstd::arithmetic::power2::{pow2, lemma_pow2_strictly_increases, lemma2_to64};

/// Fixed-point scale of the semitone ratio table: `2^20`.
pub const SPACING_SCALE: u64 = 1048576;

/// `round(2^(r/12) * SPACING_SCALE)` for `r` in `0..12`.
pub open spec fn semitone_ratio_fp(r: int) -> int {
    if r == 0 {
        1048576
    } else if r == 1 {
        1110928
    } else if r == 2 {
        1176987
    } else if r == 3 {
        1246974
    } else if r == 4 {
        1321123
    } else if r == 5 {
        1399681
    } else if r == 6 {
        1482910
    } else if r == 7 {
        1571089
    } else if r == 8 {
        1664511
    } else if r == 9 {
        1763488
    } else if r == 10 {
        1868350
    } else if r == 11 {
        1979448
    } else {
        0
    }
}

/// The spacing for `pitch` under calibration `(ref_pitch, ref_spacing)`:
/// `ref_spacing * 2^((ref_pitch - pitch) / 12)` evaluated in fixed point.
/// Writing the exponent as `q + r/12` with `0 <= r < 12` (Euclidean
/// quotient and remainder), the value is
/// `ref_spacing * 2^q * semitone_ratio_fp(r) / SPACING_SCALE`,
/// rounded down.  Higher pitch gives smaller spacing.
pub open spec fn spacing_fp(pitch: u8, ref_pitch: u8, ref_spacing: u64) -> int {
    let d = ref_pitch - pitch;
    let q = d / 12;
    let r = d % 12;
    if q >= 0 {
        (ref_spacing * pow2(q as nat) * semitone_ratio_fp(r)) / (SPACING_SCALE as int)
    } else {
        (ref_spacing * semitone_ratio_fp(r)) / (SPACING_SCALE * pow2((-q) as nat))
    }
}

/// Table lookup for [`semitone_ratio_fp`].
fn semitone_ratio(r: u64) -> (t: u64)
    requires
        r < 12,
    ensures
        t == semitone_ratio_fp(r as int),
        1048576 <= t < 2097152,
{
    if r == 0 {
        1048576
    } else if r == 1 {
        1110928
    } else if r == 2 {
        1176987
    } else if r == 3 {
        1246974
    } else if r == 4 {
        1321123
    } else if r == 5 {
        1399681
    } else if r == 6 {
        1482910
    } else if r == 7 {
        1571089
    } else if r == 8 {
        1664511
    } else if r == 9 {
        1763488
    } else if r == 10 {
        1868350
    } else {
        1979448
    }
}

/// `2^e` as a machine integer.
fn pow2_exec(e: u64) -> (p: u64)
    requires
        pow2(e as nat) <= u64::MAX,
    ensures
        p == pow2(e as nat),
{
    let mut acc: u64 = 1;
    let mut i: u64 = 0;
    proof {
        lemma2_to64();
    }
    while i < e
        invariant
            i <= e,
            acc == pow2(i as nat),
            pow2(e as nat) <= u64::MAX,
        decreases e - i,
    {
        proof {
            vstd::arithmetic::power2::lemma_pow2_unfold((i + 1) as nat);
            if i + 1 < e {
                lemma_pow2_strictly_increases((i + 1) as nat, e as nat);
            }
        }
        acc = acc * 2;
        i = i + 1;
    }
    acc
}

/// Computes [`spacing_fp`] exactly.  The result must fit in a machine word;
/// out-of-range calibrations are the caller's responsibility.
pub fn spacing(pitch: u8, ref_pitch: u8, ref_spacing: u64) -> (s: u64)
    requires
        spacing_fp(pitch, ref_pitch, ref_spacing) <= u64::MAX,
    ensures
        s == spacing_fp(pitch, ref_pitch, ref_spacing),
{
    if ref_pitch >= pitch {
        let d: u64 = ref_pitch as u64 - pitch as u64;
        let q: u64 = d / 12;
        let r: u64 = d % 12;
        proof {
            assert(q <= 22);
            lemma_pow2_le_max(q);
        }
        let p2: u64 = pow2_exec(q);
        let t: u64 = semitone_ratio(r);
        proof {
            lemma_mul_upper_bound(ref_spacing as int, u64::MAX as int, p2 as int, 0x400000);
            lemma_mul_upper_bound(
                (ref_spacing as int) * (p2 as int),
                (u64::MAX as int) * 0x400000,
                t as int,
                0x200000,
            );
        }
        let num: u128 = (ref_spacing as u128) * (p2 as u128) * (t as u128);
        let res: u128 = num / (SPACING_SCALE as u128);
        res as u64
    } else {
        let d: u64 = pitch as u64 - ref_pitch as u64;
        let qm: u64 = (d + 11) / 12;
        let r: u64 = (12 - d % 12) % 12;
        proof {
            lemma_neg_div_mod(d as int, qm as int, r as int);
            assert(qm <= 22);
            lemma_pow2_le_max(qm);
        }
        let p2: u64 = pow2_exec(qm);
        let t: u64 = semitone_ratio(r);
        proof {
            lemma_mul_upper_bound(ref_spacing as int, u64::MAX as int, t as int, 0x200000);
            lemma_mul_upper_bound(SPACING_SCALE as int, SPACING_SCALE as int, p2 as int, 0x400000);
            vstd::arithmetic::power2::lemma_pow2_pos(qm as nat);
            vstd::arithmetic::mul::lemma_mul_strictly_positive(SPACING_SCALE as int, p2 as int);
        }
        let num: u128 = (ref_spacing as u128) * (t as u128);
        let den: u128 = (SPACING_SCALE as u128) * (p2 as u128);
        let res: u128 = num / den;
        res as u64
    }
}

/// A spacing is never negative.
pub proof fn lemma_spacing_fp_nonneg(pitch: u8, ref_pitch: u8, ref_spacing: u64)
    ensures
        0 <= spacing_fp(pitch, ref_pitch, ref_spacing),
{
    let d = ref_pitch - pitch;
    let q = d / 12;
    let r = d % 12;
    assert(semitone_ratio_fp(r) >= 0);
    if q >= 0 {
        vstd::arithmetic::power2::lemma_pow2_pos(q as nat);
        vstd::arithmetic::mul::lemma_mul_nonnegative(ref_spacing as int, pow2(q as nat) as int);
        vstd::arithmetic::mul::lemma_mul_nonnegative(
            (ref_spacing as int) * (pow2(q as nat) as int),
            semitone_ratio_fp(r),
        );
        vstd::arithmetic::div_mod::lemma_div_pos_is_pos(
            (ref_spacing as int) * (pow2(q as nat) as int) * semitone_ratio_fp(r),
            SPACING_SCALE as int,
        );
    } else {
        vstd::arithmetic::power2::lemma_pow2_pos((-q) as nat);
        vstd::arithmetic::mul::lemma_mul_nonnegative(ref_spacing as int, semitone_ratio_fp(r));
        vstd::arithmetic::mul::lemma_mul_strictly_positive(
            SPACING_SCALE as int,
            pow2((-q) as nat) as int,
        );
        vstd::arithmetic::div_mod::lemma_div_pos_is_pos(
            (ref_spacing as int) * semitone_ratio_fp(r),
            (SPACING_SCALE as int) * (pow2((-q) as nat) as int),
        );
    }
}

/// For a seven-bit reference pitch no spacing exceeds 2048 times the
/// reference spacing (the widest wavelength ratio over the MIDI range is
/// below 2^11), so any `ref_spacing` up to `u64::MAX / 2048` keeps every
/// spacing within a machine word.
pub proof fn lemma_spacing_fp_bound(pitch: u8, ref_pitch: u8, ref_spacing: u64)
    requires
        ref_pitch < 128,
    ensures
        spacing_fp(pitch, ref_pitch, ref_spacing) <= 2048 * (ref_spacing as int),
{
    let d = ref_pitch - pitch;
    let q = d / 12;
    let r = d % 12;
    let rs = ref_spacing as int;
    let sc = SPACING_SCALE as int;
    assert(0 <= semitone_ratio_fp(r) < 2 * sc);
    vstd::arithmetic::div_mod::lemma_fundamental_div_mod(d, 12);
    if q >= 0 {
        assert(q <= 10) by (nonlinear_arith)
            requires
                d == 12 * q + d % 12,
                0 <= d % 12,
                d <= 127,
        ;
        assert(pow2(q as nat) <= 1024) by {
            lemma2_to64();
            if (q as nat) < 10 {
                lemma_pow2_strictly_increases(q as nat, 10);
            }
        }
        let num = rs * (pow2(q as nat) as int) * semitone_ratio_fp(r);
        assert(num <= rs * 1024 * (2 * sc - 1)) by (nonlinear_arith)
            requires
                0 <= rs,
                0 <= pow2(q as nat) <= 1024,
                0 <= semitone_ratio_fp(r) <= 2 * sc - 1,
                num == rs * (pow2(q as nat) as int) * semitone_ratio_fp(r),
        ;
        assert(rs * 1024 * (2 * sc - 1) <= (2048 * rs) * sc) by (nonlinear_arith)
            requires
                0 <= rs,
                sc >= 1,
        ;
        vstd::arithmetic::mul::lemma_mul_nonnegative(rs, pow2(q as nat) as int);
        vstd::arithmetic::mul::lemma_mul_nonnegative(rs * (pow2(q as nat) as int), semitone_ratio_fp(r));
        vstd::arithmetic::div_mod::lemma_div_is_ordered(num, (2048 * rs) * sc, sc);
        vstd::arithmetic::div_mod::lemma_div_multiples_vanish(2048 * rs, sc);
    } else {
        vstd::arithmetic::power2::lemma_pow2_pos((-q) as nat);
        let p2 = pow2((-q) as nat) as int;
        let num = rs * semitone_ratio_fp(r);
        let den = sc * p2;
        assert(num <= (2048 * rs) * sc) by (nonlinear_arith)
            requires
                0 <= rs,
                sc >= 1,
                0 <= semitone_ratio_fp(r) <= 2 * sc - 1,
                num == rs * semitone_ratio_fp(r),
        ;
        assert(den >= sc) by (nonlinear_arith)
            requires
                sc >= 1,
                p2 >= 1,
                den == sc * p2,
        ;
        vstd::arithmetic::mul::lemma_mul_nonnegative(rs, semitone_ratio_fp(r));
        vstd::arithmetic::div_mod::lemma_div_is_ordered_by_denominator(num, sc, den);
        vstd::arithmetic::div_mod::lemma_div_is_ordered(num, (2048 * rs) * sc, sc);
        vstd::arithmetic::div_mod::lemma_div_multiples_vanish(2048 * rs, sc);
    }
}

/// `2^e` fits in a machine word for the exponents the spacing model uses.
proof fn lemma_pow2_le_max(e: u64)
    requires
        e <= 22,
    ensures
        pow2(e as nat) <= 0x400000,
{
    lemma2_to64();
    if (e as nat) < 22 {
        lemma_pow2_strictly_increases(e as nat, 22);
    }
}

/// For `d >= 1`, the Euclidean quotient and remainder of `-d` by 12 are
/// `-((d + 11) / 12)` and `(12 - d % 12) % 12`.
proof fn lemma_neg_div_mod(d: int, qm: int, r: int)
    requires
        d >= 1,
        qm == (d + 11) / 12,
        r == (12 - d % 12) % 12,
    ensures
        (-d) / 12 == -qm,
        (-d) % 12 == r,
{
    let m = d % 12;
    let k = d / 12;
    assert(d == 12 * k + m && 0 <= m < 12) by {
        vstd::arithmetic::div_mod::lemma_fundamental_div_mod(d, 12);
    }
    if m == 0 {
        assert(qm == k && r == 0);
        assert(-d == 12 * (-k) + 0);
        assert((-d) / 12 == -k && (-d) % 12 == 0) by {
            vstd::arithmetic::div_mod::lemma_fundamental_div_mod_converse(-d, 12, -k, 0);
        }
    } else {
        assert(qm == k + 1 && r == 12 - m);
        assert(-d == 12 * (-(k + 1)) + (12 - m));
        assert((-d) / 12 == -(k + 1) && (-d) % 12 == 12 - m) by {
            vstd::arithmetic::div_mod::lemma_fundamental_div_mod_converse(-d, 12, -(k + 1), 12 - m);
        }
    }
}

} // verus!
