//! The band a pedestrian way is drawn as.
//!
//! A way that runs alongside a street is a side of that street's
//! cross-section: one continuous strip per street side. The rest of every
//! pedestrian line is a path across open ground, drawn along its own polyline.
//! Crosswalks are registered against the carriageways they cross, and every
//! band is fitted to the ground it stands on.
//!
//! Arcs, lengths and heights are micrometres.
use vstd::prelude::*;

use crate::project::Place;
use crate::synth::walkgraph::NO_HOST;
use crate::synth::walkway::claims::{Sides, Way};
use crate::synth::walkway::crossing::Stub;
use crate::synth::walkway::free::{all_segs, free_bands, way_fits, FreePriors, FreeSeg};
use crate::synth::walkway::strips::{
    all_strips, street_bands, street_fits, Built, StreetReading, Strip, StripPriors,
};

pub mod census;
pub mod claims;
pub mod crossing;
pub mod fit;
pub mod free;
pub mod seat;
pub mod strips;

verus! {

/// What a band is made of.
#[derive(Clone, Copy, Debug, PartialEq, Eq, Structural)]
pub enum Surface {
    Walkway,
    Path,
    Other,
}

/// One segment of a pedestrian band.
#[derive(Clone, Copy, Debug, PartialEq, Eq, Structural)]
pub struct WalkSeg {
    pub a: Place,
    pub b: Place,
    /// Plan length.
    pub length: u64,
    /// Nominal half width, constant along a run.
    pub half: u64,
    /// Drawn half width at each end.
    pub reach_a: u64,
    pub reach_b: u64,
    pub level: i64,
    pub layer: i64,
    pub height_a: i64,
    pub height_b: i64,
    /// The street hosting the band, or none.
    pub corridor: u32,
    pub surface: Surface,
    /// How far the band stands above its street.
    pub rise: i64,
    /// Where the segment starts along its way or street.
    pub arc: i64,
}

/// The half width a segment is drawn at: that of its wider end.
pub open spec fn drawn_half(s: WalkSeg) -> u64 {
    if s.reach_a < s.reach_b {
        s.reach_b
    } else {
        s.reach_a
    }
}

impl WalkSeg {
    pub fn drawn_half(&self) -> (half: u64)
        ensures
            half == drawn_half(*self),
    {
        if self.reach_a < self.reach_b {
            self.reach_b
        } else {
            self.reach_a
        }
    }
}

/// The band of a strip, its ends drawn at `a` and `b`. Its nominal half width
/// is that of a full strip however much room it took; only what is drawn at
/// each end varies.
pub fn strip_band(s: &Strip, p: &StripPriors, a: Place, b: Place, length: u64) -> (out: WalkSeg)
    requires
        0 <= s.width_a,
        0 <= s.width_b,
        0 <= p.width,
    ensures
        out.a == a,
        out.b == b,
        out.length == length,
        out.half == p.width / 2,
        out.reach_a == s.width_a / 2,
        out.reach_b == s.width_b / 2,
        out.level == s.level,
        out.layer == 0,
        out.height_a == s.height_a,
        out.height_b == s.height_b,
        out.corridor == s.corridor,
        out.surface == Surface::Walkway,
        out.rise == p.kerb,
        out.arc == s.from,
{
    WalkSeg {
        a,
        b,
        length,
        half: p.width as u64 / 2,
        reach_a: s.width_a as u64 / 2,
        reach_b: s.width_b as u64 / 2,
        level: s.level,
        layer: 0,
        height_a: s.height_a,
        height_b: s.height_b,
        corridor: s.corridor,
        surface: Surface::Walkway,
        rise: p.kerb,
        arc: s.from,
    }
}

/// The band of a kerb stub, `half` being half a sidewalk's width. A stub is the
/// pavement a crossing lands on, so it is as wide as the band it joins and not
/// as deep as the paint. No street hosts it, and its seats come later.
pub fn stub_band(s: &Stub, a: Place, b: Place, length: u64, half: u64) -> (out: WalkSeg)
    ensures
        out.a == a,
        out.b == b,
        out.length == length,
        out.half == half,
        out.reach_a == half,
        out.reach_b == half,
        out.level == 0,
        out.layer == 0,
        out.height_a == 0,
        out.height_b == 0,
        out.corridor == NO_HOST,
        out.surface == Surface::Walkway,
        out.rise == 0,
        out.arc == s.from,
{
    WalkSeg {
        a,
        b,
        length,
        half,
        reach_a: half,
        reach_b: half,
        level: 0,
        layer: 0,
        height_a: 0,
        height_b: 0,
        corridor: NO_HOST,
        surface: Surface::Walkway,
        rise: 0,
        arc: s.from,
    }
}

/// The band of a segment of a way along its own line. It stands on the ground,
/// without a kerb.
pub fn free_band(s: &FreeSeg, a: Place, b: Place, length: u64) -> (out: WalkSeg)
    ensures
        out.a == a,
        out.b == b,
        out.length == length,
        out.half == s.width / 2,
        out.reach_a == s.width / 2,
        out.reach_b == s.width / 2,
        out.level == 0,
        out.layer == 0,
        out.height_a == 0,
        out.height_b == 0,
        out.corridor == NO_HOST,
        out.surface == s.surface,
        out.rise == 0,
        out.arc == s.from,
{
    let half: u64 = s.width / 2;
    WalkSeg {
        a,
        b,
        length,
        half,
        reach_a: half,
        reach_b: half,
        level: 0,
        layer: 0,
        height_a: 0,
        height_b: 0,
        corridor: NO_HOST,
        surface: s.surface,
        rise: 0,
        arc: s.from,
    }
}

/// Every pedestrian surface drawn: the strips of the streets, and the bands of
/// the ways along their own lines.
#[derive(Debug)]
pub struct Bands {
    pub strips: Vec<Strip>,
    pub free: Vec<FreeSeg>,
    /// The stretches of street sides that became pavement.
    pub built: Built,
}

/// Draws every pedestrian surface. The free bands are the complement of what
/// was built, not of what was claimed: where a strip ran out of room, the way
/// is drawn along its own line instead.
pub fn bands(
    sides: &Sides,
    ways: &[Way],
    streets: &[StreetReading],
    strip: &StripPriors,
    free: &FreePriors,
) -> (out: Bands)
    requires
        forall|i: int|
            0 <= i < streets@.len() ==> street_fits(*sides, #[trigger] streets@[i], *strip),
        forall|i: int| 0 <= i < ways@.len() ==> way_fits(#[trigger] ways@[i]),
    ensures
        out.strips@ == all_strips(*sides, streets@, *strip, streets@.len() as int),
        out.built.describes(out.strips@, strip.eps as int),
        out.free@ == all_segs(ways@, out.built, *free, ways@.len() as int),
{
    let strips: Vec<Strip> = street_bands(sides, streets, strip);
    let built: Built = Built::of(strips.as_slice(), strip.eps);
    let free: Vec<FreeSeg> = free_bands(ways, &built, free);
    Bands { strips, free, built }
}

} // verus!
