//! The metrics of a finished pass, by name.
use vstd::prelude::*;
use crate::verify::{Invariant, Metric, Scores};
use crate::verify::checks::Suite;

verus! {

/// Whether a metric is a tally's: its name and invariant, the limit it is held to,
/// whether it had nothing to measure, and the tally's samples, worst offenders and
/// sense.
pub open spec fn is_metric(m: Metric, id: Seq<char>, law: Invariant, limit: int, idle: bool, s: Scores) -> bool {
    &&& m.id@ == id && m.law == law
    &&& m.threshold == limit && m.skipped == idle
    &&& m.dist@ == s.samples && m.worst@ == s.worst && m.sense == s.sense
}

/// The metrics of the joints of bridges.
pub proof fn the_abutment_metrics_are_named(p: Suite, out: Seq<Metric>)
    requires
        p.reported(out),
    ensures
        out.len() == 31,
        is_metric(
            out[0],
            "seam.abutment_plan"@,
            Invariant::I2,
            50_000,
            p.abutment.plan@.samples.len() == 0,
            p.abutment.plan@,
        ),
        is_metric(
            out[1],
            "seam.abutment_step"@,
            Invariant::I2,
            50_000,
            p.abutment.step@.samples.len() == 0,
            p.abutment.step@,
        ),
        is_metric(
            out[2],
            "seam.abutment_bare"@,
            Invariant::I2,
            50_000,
            p.abutment.bare@.samples.len() == 0,
            p.abutment.bare@,
        ),
{
    let part = out.subrange(0, 3);
    assert(part[0] == out[0]);
    assert(part[1] == out[1]);
    assert(part[2] == out[2]);
}

/// The metrics of the seats of buildings.
pub proof fn the_building_metrics_are_named(p: Suite, out: Seq<Metric>)
    requires
        p.reported(out),
    ensures
        out.len() == 31,
        is_metric(
            out[3],
            "contact.building_seat"@,
            Invariant::I4,
            1_000_000,
            p.building.seat@.samples.len() == 0,
            p.building.seat@,
        ),
{
    let part = out.subrange(3, 4);
    assert(part[0] == out[3]);
}

/// The metrics of the joints of bands and decks.
pub proof fn the_handoff_metrics_are_named(p: Suite, out: Seq<Metric>)
    requires
        p.reported(out),
    ensures
        out.len() == 31,
        is_metric(
            out[4],
            "seam.band_deck_bare"@,
            Invariant::I2,
            150_000,
            p.handoff.asphalt == 0 && p.handoff.ballast == 0,
            p.handoff.bare@,
        ),
        is_metric(
            out[5],
            "seam.band_deck_step"@,
            Invariant::I2,
            50_000,
            p.handoff.asphalt == 0 && p.handoff.ballast == 0,
            p.handoff.step@,
        ),
        is_metric(
            out[6],
            "seam.handover_kerb"@,
            Invariant::I2,
            500_000,
            p.handoff.asphalt == 0 && p.handoff.ballast == 0,
            p.handoff.kerb@,
        ),
{
    let part = out.subrange(4, 7);
    assert(part[0] == out[4]);
    assert(part[1] == out[5]);
    assert(part[2] == out[6]);
}

/// The metrics of the kerb.
pub proof fn the_kerb_metrics_are_named(p: Suite, out: Seq<Metric>)
    requires
        p.reported(out),
    ensures
        out.len() == 31,
        is_metric(
            out[7],
            "street.walk_width_step"@,
            Invariant::I1,
            250_000,
            !p.kerb.measured,
            p.kerb.jog@,
        ),
        is_metric(
            out[8],
            "street.kerb_gap"@,
            Invariant::I1,
            2_000_000,
            !p.kerb.measured,
            p.kerb.gap@,
        ),
{
    let part = out.subrange(7, 9);
    assert(part[0] == out[7]);
    assert(part[1] == out[8]);
}

/// The metrics of the contacts.
pub proof fn the_contact_metrics_are_named(p: Suite, out: Seq<Metric>)
    requires
        p.reported(out),
    ensures
        out.len() == 31,
        is_metric(
            out[9],
            "contact.kerb_unwalled"@,
            Invariant::I4,
            500_000,
            p.contact.unwalled@.samples.len() == 0,
            p.contact.unwalled@,
        ),
        is_metric(
            out[10],
            "contact.kerb_lip"@,
            Invariant::I4,
            500_000,
            p.contact.lip@.samples.len() == 0,
            p.contact.lip@,
        ),
        is_metric(
            out[11],
            "contact.deck_seat"@,
            Invariant::I4,
            2_000_000,
            p.contact.seat@.samples.len() == 0,
            p.contact.seat@,
        ),
        is_metric(
            out[12],
            "contact.deck_carried"@,
            Invariant::I4,
            1_000_000,
            p.contact.carried@.samples.len() == 0,
            p.contact.carried@,
        ),
        is_metric(
            out[13],
            "contact.rail_standoff"@,
            Invariant::I4,
            2_000_000,
            p.contact.rail@.samples.len() == 0,
            p.contact.rail@,
        ),
{
    let part = out.subrange(9, 14);
    assert(part[0] == out[9]);
    assert(part[1] == out[10]);
    assert(part[2] == out[11]);
    assert(part[3] == out[12]);
    assert(part[4] == out[13]);
}

/// The metrics of the clearances.
pub proof fn the_clearance_metrics_are_named(p: Suite, out: Seq<Metric>)
    requires
        p.reported(out),
    ensures
        out.len() == 31,
        is_metric(
            out[14],
            "order.deck_above_carriageway"@,
            Invariant::I3,
            -500_000,
            p.clearance.order@.samples.len() == 0,
            p.clearance.order@,
        ),
        is_metric(
            out[15],
            "clearance.deck_over_ground"@,
            Invariant::I4,
            -p.clearance.thickness - 500_000,
            p.clearance.over_ground@.samples.len() == 0,
            p.clearance.over_ground@,
        ),
        is_metric(
            out[16],
            "clearance.bore_cover"@,
            Invariant::I4,
            -1_000_000,
            p.clearance.bore_cover@.samples.len() == 0,
            p.clearance.bore_cover@,
        ),
        is_metric(
            out[17],
            "order.grade_stack"@,
            Invariant::I3,
            3_000_000,
            p.clearance.stack@.samples.len() == 0,
            p.clearance.stack@,
        ),
{
    let part = out.subrange(14, 18);
    assert(part[0] == out[14]);
    assert(part[1] == out[15]);
    assert(part[2] == out[16]);
    assert(part[3] == out[17]);
}

/// The metrics of the steps of the fabric.
pub proof fn the_fabric_metrics_are_named(p: Suite, out: Seq<Metric>)
    requires
        p.reported(out),
    ensures
        out.len() == 31,
        is_metric(
            out[18],
            "fabric.closure"@,
            Invariant::I9,
            3_000_000,
            p.fabric.closure@.samples.len() == 0,
            p.fabric.closure@,
        ),
{
    let part = out.subrange(18, 19);
    assert(part[0] == out[18]);
}

/// The metrics of the markings.
pub proof fn the_paint_metrics_are_named(p: Suite, out: Seq<Metric>)
    requires
        p.reported(out),
    ensures
        out.len() == 31,
        is_metric(
            out[19],
            "paint.marking_offside"@,
            Invariant::I4,
            250_000,
            p.paint.offside@.samples.len() == 0,
            p.paint.offside@,
        ),
        is_metric(
            out[20],
            "paint.edge_line_inset"@,
            Invariant::I4,
            2_000_000,
            p.paint.inset@.samples.len() == 0,
            p.paint.inset@,
        ),
        is_metric(
            out[21],
            "paint.buried"@,
            Invariant::I4,
            1_000_000,
            p.paint.buried@.samples.len() == 0,
            p.paint.buried@,
        ),
        is_metric(
            out[22],
            "paint.stroke_over_band"@,
            Invariant::I1,
            500_000,
            !p.paint.doubled_seen,
            p.paint.doubled@,
        ),
{
    let part = out.subrange(19, 23);
    assert(part[0] == out[19]);
    assert(part[1] == out[20]);
    assert(part[2] == out[21]);
    assert(part[3] == out[22]);
}

/// The metrics of the borders.
pub proof fn the_seams_metrics_are_named(p: Suite, out: Seq<Metric>)
    requires
        p.reported(out),
    ensures
        out.len() == 31,
        is_metric(
            out[23],
            "seam.terrain_step"@,
            Invariant::I2,
            5_000,
            p.seams.steps(p.seams.terrain@).shared == 0,
            p.seams.steps(p.seams.terrain@).step,
        ),
        is_metric(
            out[24],
            "seam.terrain_split"@,
            Invariant::I2,
            5_000,
            p.seams.splits(p.seams.terrain@).samples.len() == 0,
            p.seams.splits(p.seams.terrain@),
        ),
        is_metric(
            out[25],
            "seam.pavement_step"@,
            Invariant::I2,
            5_000,
            p.seams.steps(p.seams.pavement@).shared == 0,
            p.seams.steps(p.seams.pavement@).step,
        ),
        is_metric(
            out[26],
            "order.at_grade_overlap"@,
            Invariant::I3,
            5_000,
            p.seams.splits(p.seams.pavement@).samples.len() == 0,
            p.seams.splits(p.seams.pavement@),
        ),
{
    let part = out.subrange(23, 27);
    assert(part[0] == out[23]);
    assert(part[1] == out[24]);
    assert(part[2] == out[25]);
    assert(part[3] == out[26]);
}

/// The metrics of the slopes.
pub proof fn the_slope_metrics_are_named(p: Suite, out: Seq<Metric>)
    requires
        p.reported(out),
    ensures
        out.len() == 31,
        is_metric(
            out[27],
            "slope.terrain_face"@,
            Invariant::I6,
            2_000_000,
            p.slope.ground@.samples.len() == 0,
            p.slope.ground@,
        ),
        is_metric(
            out[28],
            "slope.carriageway_face"@,
            Invariant::I6,
            300_000,
            p.slope.road@.samples.len() == 0,
            p.slope.road@,
        ),
        is_metric(
            out[29],
            "slope.terrain_tearing"@,
            Invariant::I6,
            500_000,
            p.slope.tearing@.samples.len() == 0,
            p.slope.tearing@,
        ),
{
    let part = out.subrange(27, 30);
    assert(part[0] == out[27]);
    assert(part[1] == out[28]);
    assert(part[2] == out[29]);
}

/// The metrics of the drift between zooms.
pub proof fn the_lod_metrics_are_named(p: Suite, out: Seq<Metric>)
    requires
        p.reported(out),
    ensures
        out.len() == 31,
        is_metric(
            out[30],
            "lod.structure_drift"@,
            Invariant::I5,
            2_000_000,
            p.lod.compared == 0,
            p.lod.drifts@,
        ),
{
}

} // verus!
