//! The horizontal and vertical metrics tables (`hmtx`, `vmtx`).
use vstd::prelude::*;

verus! {

/// Advance and leading side bearing of a glyph, in font design units.
#[derive(Clone, Copy, Debug, Default, PartialEq, Eq, Structural)]
pub struct LongMetric {
    pub advance: u16,
    pub side_bearing: i16,
}

impl LongMetric {
    /// A metric of `advance` and `side_bearing`.
    pub fn new(advance: u16, side_bearing: i16) -> (r: LongMetric)
        ensures
            r == (LongMetric { advance, side_bearing }),
    {
        LongMetric { advance, side_bearing }
    }
}

/// An `hmtx` or `vmtx` table: paired metrics for the first glyphs, then
/// side bearings alone for the remaining glyphs.
#[derive(Clone, Debug, Default)]
pub struct HVmtx {
    pub long_metrics: Vec<LongMetric>,
    pub bearings: Vec<i16>,
}

impl HVmtx {
    /// A table of `long_metrics` and `bearings`.
    pub fn new(long_metrics: Vec<LongMetric>, bearings: Vec<i16>) -> (r: HVmtx)
        ensures
            r.long_metrics@ == long_metrics@,
            r.bearings@ == bearings@,
    {
        HVmtx { long_metrics, bearings }
    }

    /// Checks that the number of paired metrics fits its 16-bit count.
    pub fn validate(&self) -> (r: Result<(), &'static str>)
        ensures
            r is Ok <==> self.long_metrics@.len() <= 0xFFFF,
            r matches Err(m) ==> m@ == "array excedes max length"@,
    {
        if self.long_metrics.len() > 0xFFFF {
            Err("array excedes max length")
        } else {
            Ok(())
        }
    }
}

} // verus!
