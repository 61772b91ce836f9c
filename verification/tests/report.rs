use arpentry::verify::checks::building::{Building, BuildingMesh, FootVertex};
use arpentry::verify::checks::lod::{drops_cache, finest_zoom, parent_of, DriftPoint, Feature, Lod};
use arpentry::verify::checks::{Extent, Options, Scope, Suite};
use arpentry::verify::scene::{apron_spans, draws_asphalt, paved_at, Probe, RoadMesh};
use arpentry::verify::{Dist, Invariant, Metric, Note, Offender, Place, Sense, Tally};

const M: i64 = 1_000_000;

fn place(n: i64) -> Place {
    Place { lon: n, lat: n }
}

fn foot(height: i64, ground: Option<i64>) -> FootVertex {
    FootVertex { height, owned: true, ground, place: place(1) }
}

fn seated(relief: i64, vertices: Vec<FootVertex>) -> Vec<Metric> {
    let mut c = Building::new(&Options::default());
    c.visit(16, true, &[BuildingMesh { relief, vertices }], M / 2);
    c.finish()
}

#[test]
fn ground_inside_the_seat_band_scores_zero() {
    // Foot at 100, band up to 100 + 2 + 0.5.
    let m = seated(2 * M, vec![foot(100 * M, Some(101 * M)), foot(100 * M, Some(102 * M + M / 2))]);
    assert_eq!(m[0].dist.samples, vec![0, 0]);
    assert_eq!(m[0].law, Invariant::I4);
}

#[test]
fn daylight_and_swallowed_walls_are_told_apart() {
    let m = seated(2 * M, vec![foot(100 * M, Some(97 * M)), foot(100 * M + 40_000, Some(105 * M))]);
    assert_eq!(m[0].dist.samples, vec![3_000_000, 2_500_000]);
    assert_eq!(m[0].violations(), 2);
    assert!(matches!(m[0].worst[0].note, Note::BuildingSeat { daylight: true, relief: 2_000_000 }));
    assert!(matches!(m[0].worst[1].note, Note::BuildingSeat { daylight: false, .. }));
}

#[test]
fn only_the_owned_bottom_ring_over_drawn_ground_is_scored() {
    let mut elsewhere = foot(100 * M, Some(0));
    elsewhere.owned = false;
    let m = seated(0, vec![foot(100 * M, None), foot(110 * M, Some(0)), elsewhere]);
    assert!(m[0].skipped);
    let mut c = Building::new(&Options::default());
    c.visit(16, false, &[BuildingMesh { relief: 0, vertices: vec![foot(100 * M, Some(0))] }], 0);
    assert!(c.finish()[0].skipped, "no terrain is drawn");
}

fn feature(class: &str, level: i64) -> Feature {
    Feature { class: class.to_string(), level }
}

#[test]
fn a_structure_is_matched_only_when_it_can_be_no_other() {
    let mut c = Lod::new(&Options::default());
    let fine = [feature("motorway", 1), feature("motorway", 0), feature("path", 1), feature("primary", -1)];
    let parent = [feature("path", 1), feature("motorway", 1), feature("path", 1)];
    assert_eq!(c.pair(&fine, &parent), vec![Some(1), None, None, None]);
    assert_eq!((c.compared, c.ambiguous), (0, 2));
    assert!(c.metric().skipped);
}

fn drifting(top: i64, ground: i64, coarse_top: i64, coarse_ground: i64) -> DriftPoint {
    DriftPoint {
        owned: true,
        place: place(2),
        top: Some(top),
        ground: Some(ground),
        coarse_top: Some(coarse_top),
        coarse_ground: Some(coarse_ground),
    }
}

#[test]
fn a_structure_drifts_by_its_change_in_clearance() {
    let mut c = Lod::new(&Options::default());
    let mut hidden = drifting(0, 0, 0, 0);
    hidden.coarse_ground = None;
    let points = [
        drifting(110 * M, 100 * M, 115 * M, 105 * M),
        drifting(110 * M, 100 * M, 110 * M, 105 * M),
        hidden,
    ];
    c.score(&feature("motorway", 1), &points, 16);
    assert_eq!((c.compared, c.ambiguous), (2, 0));
    let m = c.metric();
    assert_eq!(m.dist.samples, vec![0, 5_000_000]);
    assert_eq!(m.violations(), 1);
    assert!(matches!(&m.worst[0].note, Note::Drift { fine: 10_000_000, coarse: 5_000_000, level: 1, .. }));
}

#[test]
fn only_matched_structures_are_scored() {
    let mut c = Lod::new(&Options::default());
    let fine = [feature("motorway", 1), feature("path", 1), feature("primary", -1)];
    let twins = c.pair(&fine, &[feature("primary", -1), feature("motorway", 1)]);
    assert_eq!(twins, vec![Some(1), None, Some(0)]);
    let at = |up: i64| vec![drifting(up * M, 0, 0, 0)];
    c.score_pairs(&fine, &twins, &[at(1), at(2), at(3)], 16);
    assert_eq!(c.compared, 2);
    assert_eq!(c.metric().dist.samples, vec![1_000_000, 3_000_000]);
}

#[test]
fn the_finest_zoom_needs_a_coarser_one() {
    assert_eq!(finest_zoom(&[14, 16, 15], 10), Some(16));
    assert_eq!(finest_zoom(&[10], 10), None);
    assert_eq!(finest_zoom(&[], 0), None);
    assert_eq!(parent_of(34001, 23000), (17000, 11500));
    assert!(drops_cache(49, false));
    assert!(!drops_cache(49, true) && !drops_cache(48, false));
}

#[test]
fn a_pass_measures_the_zooms_asked_for_or_the_detail_rung() {
    let opt = Options::default();
    assert_eq!((opt.spacing, opt.worst_k, opt.max_tiles), (1_000_000, 8, 4096));
    assert_eq!(opt.zooms_of(16), vec![16]);
    let opt = Options { zooms: vec![12, 14], ..Options::default() };
    assert_eq!(opt.zooms_of(16), vec![12, 14]);
}

#[test]
fn a_scope_joins_extents_and_remembers_a_cap() {
    let at = Some(Place { lon: 1, lat: 2 });
    let opt = Options { max_tiles: 5, spacing: 250_000, at, ..Options::default() };
    let mut s = Scope::new(&opt);
    assert_eq!((s.spacing, s.max_tiles, s.at), (250_000, 5, at));
    assert_eq!(s.under_cap(3), 3);
    assert!(!s.truncated);
    assert_eq!(s.under_cap(9), 5);
    assert!(s.truncated);
    s.take_in(Extent { west: 0, south: 0, east: 10, north: 10 });
    s.take_in(Extent { west: 5, south: -5, east: 20, north: 7 });
    assert_eq!(s.tiles, 2);
    assert_eq!(s.bbox, Some(Extent { west: 0, south: -5, east: 20, north: 10 }));
}

#[test]
fn an_empty_pass_reports_every_metric_as_skipped() {
    let r = Suite::new(&Options::default(), 1_500_000).finish();
    assert_eq!(r.metrics.len(), 31);
    assert!(r.metrics.iter().all(|m| m.skipped && m.dist.is_empty() && m.worst.is_empty()));
    let ids: Vec<&str> = r.metrics.iter().map(|m| m.id.as_str()).collect();
    assert_eq!(ids[0], "seam.abutment_plan");
    assert_eq!(ids[3], "contact.building_seat");
    assert_eq!(ids[30], "lod.structure_drift");
    assert_eq!((r.terrain_unusable, r.pavement_unusable), (0, 0));
}

fn offender(value: i128) -> Offender {
    Offender { place: place(value as i64), zoom: 16, value, note: Note::KerbGap { stations: 1 } }
}

#[test]
fn a_tally_keeps_the_worst_and_the_first_on_a_tie() {
    let mut t = Tally::new(Sense::HigherIsWorse, 2);
    t.record(5, Some(offender(5)));
    t.record(9, Some(Offender { place: place(90), ..offender(9) }));
    t.record(1, None);
    t.record(9, Some(Offender { place: place(91), ..offender(9) }));
    let m = Metric::close("a", Invariant::I1, 4, false, t);
    assert_eq!(m.dist.samples, vec![5, 9, 1, 9]);
    let kept: Vec<(i128, i64)> = m.worst.iter().map(|o| (o.value, o.place.lon)).collect();
    assert_eq!(kept, vec![(9, 90), (9, 91)]);
    assert_eq!(m.violations(), 3);
    assert_eq!(m.worst_value(), Some(9));
}

#[test]
fn lower_can_be_worse() {
    let mut t = Tally::new(Sense::LowerIsWorse, 1);
    t.record(-3, Some(offender(-3)));
    t.record(-7, Some(offender(-7)));
    t.record(2, None);
    let m = Metric::close("b", Invariant::I3, -3, false, t);
    assert_eq!(m.violations(), 1);
    assert_eq!(m.worst_value(), Some(-7));
    assert_eq!(m.worst[0].value, -7);
    assert_eq!((m.dist.min(), m.dist.max()), (Some(-7), Some(2)));
}

#[test]
fn no_samples_have_no_extremes() {
    let d = Dist::new();
    assert!(d.is_empty());
    assert_eq!((d.min(), d.max(), d.count()), (None, None, 0));
}

fn road(class: &str, pavement: bool) -> RoadMesh {
    RoadMesh {
        class: class.to_string(),
        level: 0,
        band: String::new(),
        sheet: None,
        pavement,
        rim: false,
        casing: false,
        deck: false,
        bore: false,
        fitted: false,
        rail: false,
    }
}

#[test]
fn an_apron_closes_a_step_it_reaches_to_within_the_slack() {
    let roads = [road("road_surface", true), road("walk_apron", false)];
    let p = |span: Option<(i64, i64)>| Probe {
        owned: true,
        place: place(0),
        terrain: None,
        heights: vec![Some(5), None],
        ranges: vec![Some((5, 5)), None],
        spans: vec![Some((0, 10 * M)), span],
    };
    assert!(apron_spans(&roads, &p(Some((M / 2, 10 * M - M / 2))), 0, 10 * M));
    assert!(!apron_spans(&roads, &p(Some((M / 2 + 1, 10 * M))), 0, 10 * M));
    assert!(!apron_spans(&roads, &p(None), 0, 10 * M), "a band's own span is no apron");
    assert_eq!(paved_at(&roads, &p(None)), Some(5));
    assert!(draws_asphalt(&roads) && !draws_asphalt(&roads[1..]));
}
