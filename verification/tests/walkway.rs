//! Pedestrian bands: claims, strips, free bands, crossings and the fit.
use arpentry::plane::{extension, normal_at, shift, Direction, Offset};
use arpentry::project::Place;
use arpentry::synth::walkgraph::NO_HOST;
use arpentry::synth::walkway::claims::{
    built_up, built_up_steps, claims_by_side, merge_spans, pavement_sides, sort_parts, Attachment,
    Avenue, LevelRun, Part, RoomAt, SideClaims, Way,
};
use arpentry::synth::walkway::crossing::{
    clear_stations, crossed_hosts, crossing_level_anchor, crossings, host_level_ok, incidence_ok, on_asphalt,
    seg_intersection, segments_cross, traffic_at, AsphaltAt, Candidate, CrossingLine, EdgeAt, Host,
    Spot, Stub, TangentAt,
};
use arpentry::synth::walkway::fit::{
    answer_fit, begin_fit, face_offsets, fit_to_ground, taper_along_runs, unify_width_along_ways,
    FitAnswer, FitPriors, FitStep,
};
use arpentry::synth::walkway::free::{covered_by_strip, lerp_knots, resample, FreePriors, FreeSeg};
use arpentry::synth::walkway::seat::{seat_stubs, weld_joints, BandAt, EndsAt};
use arpentry::synth::walkway::strips::{
    run_stops, street_bands, wanted, Built, RunReading, StreetReading, Strip, StripPriors,
};
use arpentry::synth::walkway::{bands, free_band, strip_band, stub_band, Surface, WalkSeg};

const M: i64 = 1_000_000;
const WALK_WIDTH_M: f64 = 2.4;
const KERB_RISE_M: f64 = 0.12;
const STUB_SEAT_REACH_M: f64 = WALK_WIDTH_M * 1.5;
const CORNER_M: i64 = 25;

fn um(m: f64) -> i64 {
    (m * 1e6).round() as i64
}

/// A segment running east, `north_m` off the axis, with its plan ends in metres.
fn seg(from_m: f64, to_m: f64, north_m: f64, h: f64, corridor: u32) -> WalkSeg {
    let half = um(WALK_WIDTH_M * 0.5) as u64;
    WalkSeg {
        a: Place { lon: um(from_m), lat: um(north_m) },
        b: Place { lon: um(to_m), lat: um(north_m) },
        length: um(to_m - from_m) as u64,
        half,
        reach_a: half,
        reach_b: half,
        level: 0,
        layer: 0,
        height_a: um(h),
        height_b: um(h),
        corridor,
        surface: Surface::Walkway,
        rise: if corridor == NO_HOST { 0 } else { um(KERB_RISE_M) },
        arc: 0,
    }
}

/// Every band as seen from a point in the plane of [`seg`].
fn seen_from(all: &[WalkSeg], p: Place) -> Vec<BandAt> {
    all.iter()
        .enumerate()
        .map(|(band, s)| {
            let (x, y) = (p.lon as f64 / 1e6, p.lat as f64 / 1e6);
            let (ax, ay) = (s.a.lon as f64 / 1e6, s.a.lat as f64 / 1e6);
            let (dx, dy) = (s.b.lon as f64 / 1e6 - ax, s.b.lat as f64 / 1e6 - ay);
            let t = (((x - ax) * dx + (y - ay) * dy) / (dx * dx + dy * dy)).clamp(0.0, 1.0);
            let d = (x - ax - dx * t).hypot(y - ay - dy * t);
            BandAt { band, distance: um(d) as u64, along: (t * 1e6).round() as u32 }
        })
        .collect()
}

fn ends(all: &[WalkSeg], s: &WalkSeg) -> EndsAt {
    EndsAt { a: seen_from(all, s.a), b: seen_from(all, s.b) }
}

fn seat(all: &mut Vec<WalkSeg>, stub_from: usize) {
    let seen: Vec<EndsAt> = all[stub_from..].iter().map(|s| ends(all, s)).collect();
    seat_stubs(all, stub_from, um(STUB_SEAT_REACH_M) as u64, &seen);
}

const FIT: FitPriors = FitPriors { cap: 3_000_000, verge: 300_000, min_width: 1_700_000 };

/// Fits a segment against the ground beside it, by metres to the left.
fn fitted_half(s: &WalkSeg, ends: Option<(i64, i64)>, ground: &dyn Fn(f64) -> f64) -> Option<u64> {
    let mut step = begin_fit(s, ends, &FIT);
    loop {
        match step {
            FitStep::Done { half } => return half,
            FitStep::Probe { face } => {
                let heights: Vec<(i64, i64)> = face_offsets(face.width)
                    .iter()
                    .map(|o| {
                        let d = *o as f64 / 1e6;
                        (um(ground(d)), um(ground(-d)))
                    })
                    .collect();
                step = answer_fit(s, &FIT, &face, &heights);
            }
        }
    }
}

#[test]
fn level_gate_is_permissive_only_when_there_is_nothing_to_measure() {
    assert!(host_level_ok(None, None));
    assert!(host_level_ok(None, Some(390 * M)), "no profile: permissive");
    assert!(host_level_ok(Some(393 * M), Some(390 * M)));
    assert!(!host_level_ok(Some(393 * M + 1), Some(390 * M)));
}

#[test]
fn seg_intersection_finds_the_crossing_point() {
    let s = |x: i64, y: i64| Spot { x, y };
    let x = seg_intersection(s(0, -1000), s(0, 1000), s(-1000, 500), s(1000, 500));
    assert_eq!((x.x, x.y), (0, 500));
}

#[test]
fn a_wall_inside_the_width_fails_the_face() {
    let s = seg(0.0, 8.0, 0.0, 400.0, 5);
    let ground = |north_m: f64| if north_m > 1.2 && north_m <= 2.2 { 394.0 } else { 400.0 };
    match fitted_half(&s, None, &ground) {
        None => {}
        Some(half) => assert!(
            half <= um(1.2) as u64,
            "a 6 m wall 1.2 m out must not be inside the approved half ({half})"
        ),
    }
}

#[test]
fn a_seat_falling_a_storey_over_eight_metres_is_a_wall() {
    let ground = |_: f64| 400.0;
    let drop = Some((um(400.0), um(394.4)));
    let steep = seg(0.0, 8.0, 0.0, 0.0, NO_HOST);
    assert!(fitted_half(&steep, drop, &ground).is_none(), "a 70 % walkway must be refused");
    let long = seg(0.0, 100.0, 0.0, 0.0, NO_HOST);
    assert!(fitted_half(&long, drop, &ground).is_some(), "a 5.6 % hillside sidewalk must stand");
}

#[test]
fn a_kerb_stub_takes_the_height_of_the_band_it_continues() {
    let mut all = vec![seg(0.0, 20.0, 0.0, 384.3, 5), seg(20.0, 21.5, 0.0, 0.0, NO_HOST)];
    seat(&mut all, 1);
    assert_eq!(all[1].corridor, 5, "the stub joins its pavement's street");
    assert_eq!(all[1].height_a, um(384.3));
    assert_eq!(all[1].height_b, um(384.3));
    assert_eq!(all[1].rise, um(KERB_RISE_M), "and rides its kerb");
}

#[test]
fn a_stub_with_no_band_in_reach_stays_hostless() {
    let mut all = vec![
        seg(0.0, 20.0, 0.0, 384.3, 5),
        seg(0.0, 1.5, STUB_SEAT_REACH_M + 5.0, 0.0, NO_HOST),
    ];
    seat(&mut all, 1);
    assert_eq!(all[1].corridor, NO_HOST);
    assert_eq!(all[1].height_a, 0);
}

#[test]
fn a_stub_seats_on_the_nearer_of_two_pavements() {
    let mut all = vec![
        seg(0.0, 20.0, 0.0, 384.3, 5),
        seg(0.0, 20.0, 2.0, 390.0, 9),
        seg(10.0, 10.0 + 1.5, 0.4, 0.0, NO_HOST),
    ];
    seat(&mut all, 2);
    assert_eq!(all[2].corridor, 5, "0.4 m away beats 1.6 m away");
    assert_eq!(all[2].height_a, um(384.3));
}

fn part(from: i64, to: i64, source: u64) -> Part {
    Part { from: from * M, to: to * M, source }
}

#[test]
fn two_claims_a_corner_apart_are_one_pavement() {
    let parts = vec![part(0, 49, 1), part(51, 100, 2)];
    assert_eq!(merge_spans(&parts, CORNER_M * M), vec![(0, 100 * M)]);
    let far = vec![part(0, 49, 1), part(49 + CORNER_M + 1, 100, 2)];
    assert_eq!(merge_spans(&far, CORNER_M * M).len(), 2);
}

#[test]
fn a_segment_is_attributed_to_the_way_that_witnessed_it() {
    let cl = SideClaims {
        spans: vec![(0, 100 * M)],
        parts: vec![part(0, 40, 7), part(60, 100, 9)],
    };
    assert_eq!(cl.owner(10 * M), 7, "inside the first claim");
    assert_eq!(cl.owner(80 * M), 9, "inside the second");
    assert_eq!(cl.owner(45 * M), 7);
    assert_eq!(cl.owner(55 * M), 9);
    assert!(cl.covers(50 * M), "the merged span is drawn end to end");
    assert!(!cl.covers(101 * M));
}

#[test]
fn claims_are_ordered_by_where_they_start() {
    let out = sort_parts(&vec![part(5, 6, 1), part(2, 9, 2), part(5, 5, 3), part(0, 1, 4)]);
    assert_eq!(out.iter().map(|p| p.source).collect::<Vec<u64>>(), vec![4, 2, 1, 3]);
}

fn spot(x: f64, y: f64) -> Spot {
    Spot { x: (x * 1000.0).round() as i64, y: (y * 1000.0).round() as i64 }
}

/// The pieces of a straight line, in steps of a quarter of a metre, against a
/// street along the x axis from 0 to 50 m.
fn candidates(p: (f64, f64), q: (f64, f64)) -> Vec<Candidate> {
    let n = ((q.0 - p.0).hypot(q.1 - p.1) / 0.25).round() as i32;
    let stations: Vec<Spot> = (0..=n)
        .map(|i| f64::from(i) / f64::from(n))
        .map(|t| spot(p.0 + (q.0 - p.0) * t, p.1 + (q.1 - p.1) * t))
        .collect();
    let (a, b) = (spot(0.0, 0.0), spot(50.0, 0.0));
    clear_stations(&stations, a, b)
        .windows(2)
        .map(|k| {
            let (w0, w1) = (stations[k[0]], stations[k[1]]);
            Candidate { w0, w1, a, b, corridor: 0, arc: (w0.x + w1.x) * 500, height: None }
        })
        .collect()
}

#[test]
fn a_crossing_crosses_a_street_it_does_not_run_beside_one() {
    let hosts = crossed_hosts(&candidates((25.0, -6.0), (25.0, 6.0)), None);
    assert_eq!(hosts.len(), 1, "a line across the street crosses it: {hosts:?}");
    assert_eq!(hosts[0].corridor, 0);
    assert!((hosts[0].arcs[0] - 25 * M).abs() < M, "arc {:?}", hosts[0].arcs);

    let asphalt = vec![AsphaltAt {
        corridor: 0,
        half: Some(um(2.75) as u64),
        edges: vec![EdgeAt { arc0: 0, arc1: 50 * M, distance: M as u64 }],
        height: None,
    }];
    let street = vec![Host { corridor: 0, arcs: vec![25 * M] }];
    assert!(
        on_asphalt(&street, &asphalt, None),
        "the fixture must lie on the asphalt, or it proves nothing"
    );
    let hosts = crossed_hosts(&candidates((10.0, 1.0), (40.0, 1.0)), None);
    assert!(hosts.is_empty(), "a line beside the street crosses nothing: {hosts:?}");
}

#[test]
fn a_shallow_meeting_is_not_believable() {
    let (w0, w1) = (spot(0.0, 0.0), spot(10.0, 0.0));
    assert!(!incidence_ok(w0, w1, spot(0.0, -1.0), spot(10.0, 1.0)));
    assert!(incidence_ok(w0, w1, spot(4.0, -2.0), spot(6.0, 2.0)));
    assert!(segments_cross(w0, w1, spot(4.0, -2.0), spot(6.0, 2.0)));
    assert!(!segments_cross(w0, w1, spot(4.0, 1.0), spot(6.0, 2.0)));
}

#[test]
fn the_level_of_a_crossing_is_the_middle_of_three() {
    assert_eq!(crossing_level_anchor(5, 900, 6), 6);
    assert_eq!(crossing_level_anchor(-4, -4, 10), -4);
}

#[test]
fn traffic_runs_with_the_nearest_street_that_runs_anywhere() {
    let at = |distance: u64, runs: bool| TangentAt { distance, runs };
    assert_eq!(traffic_at(&[at(5, true), at(1, false), at(3, true), at(3, true)]), Some(2));
    assert_eq!(traffic_at(&[at(1, false)]), None);
}

/// A crosswalk 12 m long across a street whose asphalt reaches from 4 m to 8 m.
fn crosswalk(crosswalk: bool) -> CrossingLine {
    let total = 12 * M;
    let samples = (0..((total + 16 * M) / 250_000 + 1))
        .map(|k| {
            let s = k * 250_000 - 8 * M;
            vec![AsphaltAt {
                corridor: 3,
                half: Some(2 * M as u64),
                edges: vec![EdgeAt { arc0: 0, arc1: 50 * M, distance: (s - 6 * M).unsigned_abs() }],
                height: Some(0),
            }]
        })
        .collect();
    let piece = Candidate {
        w0: spot(0.0, -1.0),
        w1: spot(0.0, 1.0),
        a: spot(-5.0, 0.0),
        b: spot(5.0, 0.0),
        corridor: 3,
        arc: 20 * M,
        height: Some(0),
    };
    CrossingLine {
        source: 77,
        crosswalk,
        points: 2,
        elevated: false,
        total,
        anchor: Some(M),
        candidates: vec![piece],
        samples,
    }
}

#[test]
fn a_crosswalk_is_painted_from_kerb_to_kerb() {
    let (paint, stubs) = crossings(&[crosswalk(false), crosswalk(true)]);
    assert_eq!(paint.len(), 1);
    assert_eq!((paint[0].line, paint[0].source), (1, 77));
    assert_eq!(paint[0].chords.len(), 1);
    assert_eq!((paint[0].chords[0].a, paint[0].chords[0].b), (4 * M, 8 * M));
    assert_eq!(paint[0].hosts[0].arcs, vec![20 * M]);
    let stretches: Vec<(i64, i64)> = stubs.iter().map(|s| (s.from, s.to)).collect();
    assert_eq!(stretches, vec![(0, 4 * M), (8 * M, 12 * M)]);
}

fn way(source: u64, total: i64, attached: Vec<Attachment>) -> Way {
    Way {
        source,
        crosswalk: false,
        steps: false,
        track: false,
        earns_band: true,
        arcs: vec![0, total],
        elevated: vec![],
        attached,
    }
}

fn beside(host: u32, side: u8, from: i64, to: i64) -> Attachment {
    Attachment {
        host,
        side,
        arc0: from * M,
        arc1: to * M,
        walk0: from * M,
        walk1: to * M,
    }
}

const STRIP: StripPriors =
    StripPriors { corner: CORNER_M * M, width: 2_400_000, kerb: 120_000, eps: 10_000 };

const FREE: FreePriors = FreePriors {
    corner: CORNER_M * M,
    walk_width: 2_000_000,
    track_width: 3_000_000,
    eps: 10_000,
};

/// A level street with room for `room` on its left.
fn street(id: u32, ways: &[Way], total: i64, room: i64) -> StreetReading {
    let run = LevelRun { from: 0, to: total * M, level: 0, grade: true };
    let sides = claims_by_side(ways);
    let spans = |side: u8| sides.claims(id, side, STRIP.corner).map_or(vec![], |c| c.spans);
    let n = run_stops(&run, &vec![], &spans(0), &spans(1), STRIP.eps).len();
    StreetReading {
        id,
        half: Some(3 * M),
        synth: false,
        runs: vec![RunReading {
            run,
            arcs: vec![],
            walk: vec![(room, 0); n],
            road: vec![400 * M; n],
        }],
    }
}

#[test]
fn a_claim_becomes_a_strip_and_the_rest_of_the_way_a_path() {
    let ways = [way(7, 60 * M, vec![beside(1, 0, 10, 40)])];
    let sides = claims_by_side(&ways);
    let streets = [street(1, &ways, 50, 2_000_000)];
    let out = bands(&sides, &ways, &streets, &STRIP, &FREE);
    assert_eq!(out.strips.len(), 1);
    let s = out.strips[0];
    assert_eq!((s.from, s.to, s.source, s.side), (10 * M, 40 * M, 7, 0));
    assert_eq!((s.width_a, s.height_a), (2_000_000, 400 * M + 120_000));
    // The way goes on alone before and behind its street, as the same pavement.
    let first = out.free[0];
    let last = out.free[out.free.len() - 1];
    assert_eq!((first.from, last.to), (0, 60 * M));
    assert!(out.free.iter().all(|f| f.to <= 10 * M || f.from >= 40 * M));
    assert!(out.free.iter().all(|f| f.to - f.from <= 8 * M));
    assert!(out.free.iter().all(|f| f.surface == Surface::Walkway && f.width == 2_000_000));
    assert_eq!(out.built.spans_on(256), vec![(10 * M, 40 * M)]);
}

#[test]
fn a_strip_without_room_leaves_its_way_a_path() {
    let ways = [way(7, 60 * M, vec![beside(1, 0, 10, 40)])];
    let sides = claims_by_side(&ways);
    let streets = [street(1, &ways, 50, 0)];
    let out = bands(&sides, &ways, &streets, &STRIP, &FREE);
    assert!(out.strips.is_empty());
    assert_eq!((out.free[0].from, out.free[out.free.len() - 1].to), (0, 60 * M));
    assert!(out.free.iter().all(|f| f.surface == Surface::Path));
}

#[test]
fn crosswalks_and_stairs_claim_nothing() {
    let mut stairs = way(7, 60 * M, vec![beside(1, 0, 10, 40)]);
    stairs.steps = true;
    let mut zebra = way(8, 60 * M, vec![beside(1, 0, 10, 40)]);
    zebra.crosswalk = true;
    let sides = claims_by_side(&[stairs, zebra]);
    assert!(sides.claims(1, 0, 0).is_none());
    let real = [way(9, 60 * M, vec![beside(1, 0, 10, 40), beside(1, 1, 5, 9)])];
    let sides = claims_by_side(&real);
    assert_eq!(sides.claims(1, 1, 0).unwrap().spans, vec![(5 * M, 9 * M)]);
    let all = [street(1, &real, 50, M)];
    assert_eq!(street_bands(&sides, &all, &STRIP).len(), 1);
    let stops = vec![0, 20 * M];
    assert_eq!(wanted(&sides, &all[0], &stops, &STRIP), vec![(0, 0), (STRIP.width, 0)]);
    let carried = pavement_sides(&real, &[]);
    assert!(carried.contains(1, 0) && carried.contains(1, 1) && !carried.contains(2, 0));
}

#[test]
fn a_built_up_street_has_walls_on_both_sides() {
    let runs = [
        LevelRun { from: 0, to: 25 * M, level: 0, grade: true },
        LevelRun { from: 25 * M, to: 30 * M, level: 1, grade: false },
    ];
    assert_eq!(built_up_steps(&runs), vec![(0, 10 * M), (10 * M, 20 * M), (20 * M, 25 * M)]);
    let room = |left: i64, right: i64| RoomAt { surveyed: true, runs: true, left, right };
    let near = 10 * M;
    let far = 500 * M;
    assert!(built_up(Some(3 * M), &runs, &[room(near, near), room(near, near), room(far, far)]));
    assert!(!built_up(Some(3 * M), &runs, &[room(near, far), room(near, far), room(near, far)]));
    assert!(!built_up(None, &runs, &[room(near, near); 3]));
    let both = pavement_sides(&[], &[Avenue { id: 4, synthesizes: true, built_up: true }]);
    assert!(both.contains(4, 0) && both.contains(4, 1));
    let none = pavement_sides(&[], &[Avenue { id: 4, synthesizes: true, built_up: false }]);
    assert!(!none.contains(4, 0));
}

#[test]
fn a_strip_stands_in_the_ways_own_arc() {
    let built = Built::of(&[], 0);
    let attached = vec![beside(1, 0, 10, 40)];
    assert!(covered_by_strip(&attached, &built, 0).is_empty());
    assert_eq!(lerp_knots(&vec![(0, 100), (10, 200), (10, 300), (20, 400)], 5), 150);
    assert_eq!(lerp_knots(&vec![(0, 100), (10, 200)], 99), 200);
    assert_eq!(lerp_knots(&vec![(0, 100), (10, 200)], -9), 100);
}

#[test]
fn stations_fill_the_straights_and_keep_the_bends() {
    let stops = resample(&vec![0, 3 * M, 20 * M], 0, 20 * M, 8 * M, 10_000);
    assert_eq!(stops, vec![0, 3 * M, 11 * M, 19 * M, 20 * M]);
}

#[test]
fn a_free_end_is_welded_to_the_band_it_stands_on() {
    let mut all = vec![seg(0.0, 20.0, 0.0, 100.0, 5), seg(10.0, 30.0, 0.5, 98.5, NO_HOST)];
    let seen: Vec<EndsAt> = all.iter().map(|s| ends(&all, s)).collect();
    weld_joints(&mut all, &seen);
    assert_eq!(all[1].height_a, um(100.0), "the hosted band is the authority");
    assert_eq!(all[1].height_b, um(98.5), "the far end stands on nothing");
    assert_eq!(all[0].height_b, um(100.0));
    let mut apart = vec![seg(0.0, 20.0, 0.0, 100.0, 5), seg(10.0, 30.0, 0.5, 96.0, NO_HOST)];
    let seen: Vec<EndsAt> = apart.iter().map(|s| ends(&apart, s)).collect();
    weld_joints(&mut apart, &seen);
    assert_eq!(apart[1].height_a, um(96.0), "four metres is no joint");
}

#[test]
fn a_way_is_drawn_at_the_width_that_carries_most_of_it() {
    let mut all = vec![
        seg(0.0, 30.0, 0.0, 0.0, NO_HOST),
        seg(30.0, 40.0, 0.0, 0.0, NO_HOST),
        seg(0.0, 40.0, 9.0, 0.0, NO_HOST),
    ];
    for s in &mut all[..1] {
        s.reach_a = 800_000;
        s.reach_b = 800_000;
    }
    unify_width_along_ways(&mut all, &vec![4, 4, 0]);
    assert_eq!((all[1].reach_a, all[1].reach_b), (800_000, 800_000));
    assert_eq!(all[2].reach_a, um(1.2) as u64, "a band of no way keeps its width");
}

#[test]
fn a_run_is_continuous_in_width() {
    let mut all = vec![seg(0.0, 10.0, 0.0, 0.0, 5), seg(10.0, 20.0, 0.0, 0.0, 5)];
    all[0].reach_b = 900_000;
    all[1].reach_a = 700_000;
    taper_along_runs(&mut all);
    assert_eq!((all[0].reach_b, all[1].reach_a), (700_000, 700_000));
    all[1].layer = 1;
    all[1].reach_a = 100_000;
    taper_along_runs(&mut all);
    assert_eq!(all[0].reach_b, 700_000, "another layer is another run");
}

#[test]
fn a_band_the_ground_refuses_is_dropped() {
    let mut all = vec![seg(0.0, 10.0, 0.0, 0.0, NO_HOST), seg(10.0, 20.0, 0.0, 0.0, NO_HOST)];
    let mut sources = vec![1, 2];
    let keep = FitAnswer { half: Some(1_000_000), ends: Some((5, 7)) };
    let none = FitAnswer { half: None, ends: Some((5, 7)) };
    fit_to_ground(&mut all, &mut sources, &[none, keep]);
    assert_eq!(sources, vec![2]);
    assert_eq!(all.len(), 1);
    assert_eq!((all[0].reach_a, all[0].height_a, all[0].height_b), (1_000_000, 5, 7));
    // Off the ground nothing is fitted.
    all[0].level = 1;
    fit_to_ground(&mut all, &mut sources, &[none]);
    assert_eq!(all.len(), 1);
    assert_eq!(all[0].drawn_half(), 1_000_000);
}

#[test]
fn the_normal_points_to_the_side_the_way_is_on() {
    // An east-running line: side 0 (left) is north.
    let pts = [Offset { east: 0, north: 0 }, Offset { east: 10 * M, north: 0 }];
    let n = normal_at(&pts, 0, 0);
    assert!(n.north > 900_000, "left of east is north: {n:?}");
    let n = normal_at(&pts, 0, 1);
    assert!(n.north < -900_000, "right of east is south: {n:?}");
}

#[test]
fn a_normal_is_square_to_the_chord_around_its_vertex() {
    let at = |east: i64, north: i64| Offset { east: east * M, north: north * M };
    let bend = [at(0, 0), at(10, 0), at(10, 10)];
    let n = normal_at(&bend, 1, 0);
    assert_eq!((n.east, n.north), (-707_106, 707_106));
    assert_eq!(normal_at(&bend, 2, 0), Direction { east: -1_000_000, north: 0 });
    assert_eq!(normal_at(&[at(3, 3), at(3, 3)], 0, 0), Direction { east: 0, north: 0 });
    assert_eq!(shift(at(1, 2), Direction { east: 600_000, north: -800_000 }, 5 * M), at(4, -2));
    assert_eq!(extension(at(3, 4), at(0, 0), 10 * M), at(9, 12));
    assert_eq!(extension(at(3, 4), at(3, 4), 10 * M), at(3, 4), "nothing to follow");
}

#[test]
fn touching_is_not_crossing() {
    let at = |x: i64, y: i64| Spot { x, y };
    let (b0, b1) = (at(-1, 0), at(1, 0));
    assert!(segments_cross(at(0, -1), at(0, 1), b0, b1));
    assert!(!segments_cross(at(0, 0), at(0, 1), b0, b1), "starting on the other is no crossing");
    assert!(!segments_cross(b0, b1, at(0, 0), at(0, 1)));
    assert!(!segments_cross(at(-3, 0), at(3, 0), b0, b1), "nor is running along it");
    assert!(!segments_cross(at(2, -1), at(2, 1), b0, b1), "nor passing beside its end");
    let line = [at(0, -2), at(0, 0), at(0, 0), at(0, 2)];
    assert_eq!(clear_stations(&line, b0, b1), vec![0, 3]);
}

#[test]
fn strips_stubs_and_ways_become_bands() {
    let (a, b) = (Place { lon: 1, lat: 2 }, Place { lon: 3, lat: 4 });
    let p = StripPriors { corner: 25 * M, width: um(WALK_WIDTH_M), kerb: um(KERB_RISE_M), eps: 1_000 };
    let s = Strip {
        corridor: 7,
        side: 1,
        run: 0,
        stop: 2,
        from: 11 * M,
        to: 12 * M,
        width_a: 1_900_001,
        width_b: 600_000,
        level: 0,
        height_a: 100,
        height_b: 200,
        source: 9,
    };
    let strip = WalkSeg {
        a,
        b,
        length: 5,
        half: 1_200_000,
        reach_a: 950_000,
        reach_b: 300_000,
        level: 0,
        layer: 0,
        height_a: 100,
        height_b: 200,
        corridor: 7,
        surface: Surface::Walkway,
        rise: 120_000,
        arc: 11 * M,
    };
    assert_eq!(strip_band(&s, &p, a, b, 5), strip);
    let free = WalkSeg {
        half: 1_200_000,
        reach_a: 1_200_000,
        reach_b: 1_200_000,
        height_a: 0,
        height_b: 0,
        corridor: NO_HOST,
        rise: 0,
        arc: 3 * M,
        ..strip
    };
    let stub = Stub { line: 0, from: 3 * M, to: 4 * M };
    assert_eq!(stub_band(&stub, a, b, 5, 1_200_000), free);
    let way = FreeSeg {
        way: 0,
        source: 9,
        from: 3 * M,
        to: 4 * M,
        width: 2_400_000,
        surface: Surface::Path,
    };
    assert_eq!(free_band(&way, a, b, 5), WalkSeg { surface: Surface::Path, ..free });
}
