//! The checks, each a small accumulator fed one tile at a time, and the pass
//! that runs them.
use vstd::prelude::*;
use crate::arith::{max, min};
use crate::verify::{fresh, fresh_low, Metric, Place};
use crate::verify::scene::{bump, bumped};

pub mod abutment;
pub mod building;
pub mod clearance;
pub mod contact;
pub mod deck;
pub mod fabric;
pub mod handoff;
pub mod kerb;
pub mod lod;
pub mod named;
pub mod paint;
pub mod seams;
pub mod slope;

verus! {

/// How a pass is scoped.
#[derive(Clone, Debug)]
pub struct Options {
    /// Zooms to measure; empty means the archive's detail rung.
    pub zooms: Vec<u8>,
    /// Plan spacing of surface samples, in micrometres.
    pub spacing: i64,
    /// How many worst offenders each metric keeps.
    pub worst_k: usize,
    /// Restricts the pass to the tile holding this position.
    pub at: Option<Place>,
    /// Cap on tiles visited per zoom.
    pub max_tiles: usize,
}

impl Default for Options {
    fn default() -> (out: Options)
        ensures
            out.zooms@ == Seq::<u8>::empty(),
            out.spacing == 1_000_000,
            out.worst_k == 8,
            out.at is None,
            out.max_tiles == 4096,
    {
        Options { zooms: Vec::new(), spacing: 1_000_000, worst_k: 8, at: None, max_tiles: 4096 }
    }
}

impl Options {
    /// The zooms to measure of an archive whose detail rung is `max_zoom`.
    pub fn zooms_of(&self, max_zoom: u8) -> (out: Vec<u8>)
        ensures
            out@ == (if self.zooms@.len() == 0 {
                seq![max_zoom]
            } else {
                self.zooms@
            }),
    {
        let mut out: Vec<u8> = Vec::new();
        if self.zooms.len() == 0 {
            out.push(max_zoom);
            return out;
        }
        let mut i: usize = 0;
        while i < self.zooms.len()
            invariant
                i <= self.zooms@.len(),
                out@ == self.zooms@.take(i as int),
            decreases self.zooms@.len() - i,
        {
            out.push(self.zooms[i]);
            i = i + 1;
            assert(out@ =~= self.zooms@.take(i as int));
        }
        assert(self.zooms@.take(self.zooms@.len() as int) =~= self.zooms@);
        out
    }
}

/// A geodetic extent in billionths of a degree.
#[derive(Clone, Copy, Debug, PartialEq, Eq, Structural)]
pub struct Extent {
    pub west: i64,
    pub south: i64,
    pub east: i64,
    pub north: i64,
}

/// The smallest extent that holds two.
pub open spec fn joined(a: Extent, b: Extent) -> Extent {
    Extent {
        west: min(a.west as int, b.west as int) as i64,
        south: min(a.south as int, b.south as int) as i64,
        east: max(a.east as int, b.east as int) as i64,
        north: max(a.north as int, b.north as int) as i64,
    }
}

pub open spec fn holds(outer: Extent, inner: Extent) -> bool {
    &&& outer.west <= inner.west
    &&& outer.south <= inner.south
    &&& inner.east <= outer.east
    &&& inner.north <= outer.north
}

/// The joined extent holds both, and any other that does holds it.
pub proof fn a_joined_extent_is_the_smallest(a: Extent, b: Extent, c: Extent)
    ensures
        holds(joined(a, b), a),
        holds(joined(a, b), b),
        holds(c, a) && holds(c, b) ==> holds(c, joined(a, b)),
{
}

/// What a pass has covered.
#[derive(Clone, Copy, Debug, PartialEq, Eq, Structural)]
pub struct Scope {
    /// Tiles visited.
    pub tiles: u64,
    /// The extent actually measured.
    pub bbox: Option<Extent>,
    /// Plan spacing of surface samples, in micrometres.
    pub spacing: i64,
    /// Cap on tiles visited per zoom.
    pub max_tiles: usize,
    /// The position the pass was restricted to.
    pub at: Option<Place>,
    /// Whether a zoom held more tiles than the cap.
    pub truncated: bool,
}

impl Scope {
    /// A pass that has covered nothing yet.
    pub fn new(opt: &Options) -> (out: Scope)
        ensures
            out == (Scope {
                tiles: 0,
                bbox: None,
                spacing: opt.spacing,
                max_tiles: opt.max_tiles,
                at: opt.at,
                truncated: false,
            }),
    {
        Scope {
            tiles: 0,
            bbox: None,
            spacing: opt.spacing,
            max_tiles: opt.max_tiles,
            at: opt.at,
            truncated: false,
        }
    }

    /// How many of a zoom's `found` tiles are visited under the cap.
    pub fn under_cap(&mut self, found: usize) -> (visited: usize)
        ensures
            visited == min(found as int, old(self).max_tiles as int),
            *final(self) == (Scope {
                truncated: old(self).truncated || found > old(self).max_tiles,
                ..*old(self)
            }),
    {
        if found > self.max_tiles {
            self.truncated = true;
            self.max_tiles
        } else {
            found
        }
    }

    /// Takes a visited tile in.
    pub fn take_in(&mut self, e: Extent)
        ensures
            *final(self) == (Scope {
                tiles: bumped(old(self).tiles),
                bbox: Some(
                    match old(self).bbox {
                        Some(b) => joined(b, e),
                        None => e,
                    },
                ),
                ..*old(self)
            }),
    {
        self.tiles = bump(self.tiles);
        self.bbox = match self.bbox {
            Some(b) => Some(
                Extent {
                    west: if b.west < e.west { b.west } else { e.west },
                    south: if b.south < e.south { b.south } else { e.south },
                    east: if b.east < e.east { e.east } else { b.east },
                    north: if b.north < e.north { e.north } else { b.north },
                },
            ),
            None => Some(e),
        };
    }
}

/// Every check of a pass.
#[derive(Debug)]
pub struct Suite {
    pub abutment: abutment::Abutment,
    pub building: building::Building,
    pub handoff: handoff::Handoff,
    pub kerb: kerb::Kerb,
    pub contact: contact::Contact,
    pub clearance: clearance::Clearance,
    pub fabric: fabric::Fabric,
    pub paint: paint::Paint,
    pub seams: seams::Seams,
    pub slope: slope::Slope,
    pub lod: lod::Lod,
}

/// A finished pass.
#[derive(Debug)]
pub struct Report {
    pub metrics: Vec<Metric>,
    /// Shared border points left out because a tile had split open there.
    pub terrain_unusable: u64,
    pub pavement_unusable: u64,
}

fn extend(out: &mut Vec<Metric>, more: Vec<Metric>)
    ensures
        final(out)@ == old(out)@ + more@,
{
    let mut more = more;
    out.append(&mut more);
}

impl Suite {
    pub open spec fn well_formed(&self) -> bool {
        &&& self.abutment.well_formed()
        &&& self.building.well_formed()
        &&& self.handoff.well_formed()
        &&& self.kerb.well_formed()
        &&& self.contact.well_formed()
        &&& self.clearance.well_formed()
        &&& self.fabric.well_formed()
        &&& self.paint.well_formed()
        &&& self.seams.well_formed()
        &&& self.slope.well_formed()
        &&& self.lod.well_formed()
    }

    /// Every check, with nothing measured. `thickness` is a deck's thickness.
    pub fn new(opt: &Options, thickness: i64) -> (out: Suite)
        requires
            opt.worst_k < usize::MAX,
        ensures
            out.well_formed(),
            out.clearance.thickness == thickness,
            out.abutment.plan@ == fresh(opt.worst_k),
            out.abutment.step@ == fresh(opt.worst_k),
            out.abutment.bare@ == fresh(opt.worst_k),
            out.building.seat@ == fresh(opt.worst_k),
            out.handoff.bare@ == fresh(opt.worst_k),
            out.handoff.step@ == fresh(opt.worst_k),
            out.handoff.kerb@ == fresh(opt.worst_k),
            out.kerb.gap@ == fresh(opt.worst_k),
            out.kerb.jog@ == fresh(opt.worst_k),
            out.contact.lip@ == fresh(opt.worst_k),
            out.contact.unwalled@ == fresh(opt.worst_k),
            out.contact.seat@ == fresh(opt.worst_k),
            out.contact.carried@ == fresh(opt.worst_k),
            out.contact.rail@ == fresh(opt.worst_k),
            out.clearance.order@ == fresh_low(opt.worst_k),
            out.clearance.over_ground@ == fresh_low(opt.worst_k),
            out.clearance.bore_cover@ == fresh_low(opt.worst_k),
            out.clearance.stack@ == fresh(opt.worst_k),
            out.fabric.closure@ == fresh(opt.worst_k),
            out.paint.offside@ == fresh(opt.worst_k),
            out.paint.inset@ == fresh(opt.worst_k),
            out.paint.buried@ == fresh(opt.worst_k),
            out.paint.doubled@ == fresh(opt.worst_k),
            out.slope.road@ == fresh(opt.worst_k),
            out.slope.ground@ == fresh(opt.worst_k),
            out.slope.tearing@ == fresh(opt.worst_k),
            out.lod.drifts@ == fresh(opt.worst_k),
            out.seams.worst_k == opt.worst_k,
            out.seams.terrain@.len() == 0,
            out.seams.pavement@.len() == 0,
    {
        Suite {
            abutment: abutment::Abutment::new(opt),
            building: building::Building::new(opt),
            handoff: handoff::Handoff::new(opt),
            kerb: kerb::Kerb::new(opt),
            contact: contact::Contact::new(opt),
            clearance: clearance::Clearance::new(opt, thickness),
            fabric: fabric::Fabric::new(opt),
            paint: paint::Paint::new(opt),
            seams: seams::Seams::new(opt),
            slope: slope::Slope::new(opt),
            lod: lod::Lod::new(opt),
        }
    }

    /// The metrics of every check, in the order they are reported.
    pub open spec fn reported(&self, out: Seq<Metric>) -> bool {
        &&& out.len() == 31
        &&& self.abutment.reported(out.subrange(0, 3))
        &&& self.building.reported(out.subrange(3, 4))
        &&& self.handoff.reported(out.subrange(4, 7))
        &&& self.kerb.reported(out.subrange(7, 9))
        &&& self.contact.reported(out.subrange(9, 14))
        &&& self.clearance.reported(out.subrange(14, 18))
        &&& self.fabric.reported(out.subrange(18, 19))
        &&& self.paint.reported(out.subrange(19, 23))
        &&& self.seams.reported(out.subrange(23, 27))
        &&& self.slope.reported(out.subrange(27, 30))
        &&& self.lod.reported(out[30])
    }

    /// Closes every check.
    pub fn finish(self) -> (out: Report)
        requires
            self.seams.well_formed(),
        ensures
            self.reported(out.metrics@),
            out.terrain_unusable == self.seams.steps(self.seams.terrain@).unusable,
            out.pavement_unusable == self.seams.steps(self.seams.pavement@).unusable,
    {
        let mut out: Vec<Metric> = self.abutment.finish();
        let ghost a = out@;
        let b: Vec<Metric> = self.building.finish();
        let c: Vec<Metric> = self.handoff.finish();
        let d: Vec<Metric> = self.kerb.finish();
        let e: Vec<Metric> = self.contact.finish();
        let f: Vec<Metric> = self.clearance.finish();
        let g: Vec<Metric> = self.fabric.finish();
        let h: Vec<Metric> = self.paint.finish();
        let i: seams::SeamReport = self.seams.finish();
        let j: Vec<Metric> = self.slope.finish();
        let k: Metric = self.lod.metric();
        let ghost all = (b@, c@, d@, e@, f@, g@, h@, i.metrics@, j@);
        extend(&mut out, b);
        extend(&mut out, c);
        extend(&mut out, d);
        extend(&mut out, e);
        extend(&mut out, f);
        extend(&mut out, g);
        extend(&mut out, h);
        extend(&mut out, i.metrics);
        extend(&mut out, j);
        out.push(k);
        proof {
            assert(out@.subrange(0, 3) =~= a);
            assert(out@.subrange(3, 4) =~= all.0);
            assert(out@.subrange(4, 7) =~= all.1);
            assert(out@.subrange(7, 9) =~= all.2);
            assert(out@.subrange(9, 14) =~= all.3);
            assert(out@.subrange(14, 18) =~= all.4);
            assert(out@.subrange(18, 19) =~= all.5);
            assert(out@.subrange(19, 23) =~= all.6);
            assert(out@.subrange(23, 27) =~= all.7);
            assert(out@.subrange(27, 30) =~= all.8);
        }
        Report { metrics: out, terrain_unusable: i.terrain_unusable, pavement_unusable: i.pavement_unusable }
    }
}

} // verus!
