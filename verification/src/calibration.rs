//! The calibration parameters of the comb: reference pitch, reference
//! spacing and the time-to-distance scale.  Owned by the surrounding
//! application and handed to the core functions as an immutable snapshot per
//! invocation; the core keeps no state between calls.

use vstd::prelude::*;

verus! {

/// One snapshot of the calibration.
#[derive(Clone, Copy, PartialEq, Eq, Structural, Debug)]
pub struct Calibration {
    /// The pitch whose spacing is `ref_spacing` (MIDI note number).
    pub ref_pitch: u8,
    /// Tooth spacing of the reference pitch, in distance units.
    pub ref_spacing: u64,
    /// Distance units per time unit.
    pub scale: u64,
}

impl Calibration {
    /// A calibration the core can meaningfully work with: a seven-bit
    /// reference pitch and positive spacing and scale.
    pub open spec fn wf(self) -> bool {
        self.ref_pitch < 128 && self.ref_spacing >= 1 && self.scale >= 1
    }
}

impl Default for Calibration {
    /// Middle C spaced at ten distance units, two hundred distance units per
    /// time unit.
    fn default() -> (c: Calibration)
        ensures
            c == (Calibration { ref_pitch: 60, ref_spacing: 10, scale: 200 }),
            c.wf(),
    {
        Calibration { ref_pitch: 60, ref_spacing: 10, scale: 200 }
    }
}

} // verus!
