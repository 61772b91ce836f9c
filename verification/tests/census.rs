//! Taking stock of bands, streets, joints and decks.
use arpentry::project::Place;
use arpentry::synth::walkgraph::{WalkGraph, NO_HOST};
use arpentry::synth::walkway::census::{overlap, width_census, AttachCensus, Shares};
use arpentry::synth::walkway::claims::{claims_by_side, Attachment, LevelRun, Way};
use arpentry::synth::walkway::strips::{run_stops, street_bands, RunReading, StreetReading, StripPriors};
use arpentry::synth::walkway::{Surface, WalkSeg};
use arpentry::verify::checks::deck::{deck_ends, runs_along, DeckVertex, EndAt, Heading};

const M: i64 = 1_000_000;

fn band(surface: Surface, corridor: u32, length_m: u64, half_um: u64) -> WalkSeg {
    WalkSeg {
        a: Place { lon: 0, lat: 0 },
        b: Place { lon: 1, lat: 0 },
        length: length_m * 1_000_000,
        half: 1_200_000,
        reach_a: half_um,
        reach_b: half_um,
        level: 0,
        layer: 0,
        height_a: 0,
        height_b: 0,
        corridor,
        surface,
        rise: 0,
        arc: 0,
    }
}

#[test]
fn widths_are_grouped_by_what_the_band_is() {
    let bands = vec![
        band(Surface::Walkway, 3, 10, 1_000_000),
        band(Surface::Walkway, 3, 10, 1_200_000),
        band(Surface::Walkway, 4, 10, 900_000),
        band(Surface::Walkway, NO_HOST, 10, 700_000),
        band(Surface::Path, NO_HOST, 10, 500_000),
    ];
    let c = width_census(&bands, &vec![0; 5]);
    let s = c.sidewalk.unwrap();
    assert_eq!((s.n, s.least, s.p50, s.p90, s.most), (3, 1_800_000, 2_000_000, 2_000_000, 2_400_000));
    assert_eq!(c.hostless.unwrap().most, 1_400_000);
    assert_eq!(c.path.unwrap().p10, 1_000_000);
    assert_eq!(c.ways, 0, "no band names its way");
    assert!(c.along.is_none());
    let none = width_census(&vec![], &vec![]);
    assert!(none.sidewalk.is_none() && none.hostless.is_none() && none.path.is_none());
}

#[test]
fn a_way_drawn_as_two_kinds_is_mixed() {
    let bands = vec![
        band(Surface::Walkway, 3, 30, 1_000_000),
        band(Surface::Path, NO_HOST, 20, 1_000_000),
        band(Surface::Walkway, 3, 40, 1_000_000),
        band(Surface::Path, NO_HOST, 1, 1_000_000),
        band(Surface::Path, NO_HOST, 7, 1_000_000),
    ];
    let c = width_census(&bands, &vec![7, 7, 9, 9, 0]);
    assert_eq!(c.ways, 2);
    assert_eq!((c.kinds.walkway, c.kinds.path), (70_000_000, 21_000_000));
    assert_eq!(c.kinds.mixed, 1, "a metre is not enough to be a kind");
    assert_eq!(c.kinds.mixed_length, 50_000_000);
}

#[test]
fn a_width_is_read_along_ways_of_three_bands() {
    let mut bands = vec![
        band(Surface::Walkway, 3, 10, 1_000_000),
        band(Surface::Walkway, 3, 10, 1_200_000),
        band(Surface::Walkway, 3, 10, 1_000_000),
        band(Surface::Walkway, 3, 10, 100_000),
    ];
    bands[1].reach_a = 900_000;
    let c = width_census(&bands, &vec![7, 7, 7, 9]);
    let along = c.along.unwrap();
    assert_eq!((along.n, along.most), (1, 600_000));
    assert_eq!(c.varying, 1);
    let even = width_census(&vec![bands[0]; 3], &vec![7; 3]);
    assert_eq!((even.along.unwrap().most, even.varying), (0, 0));
}

const PRIORS: StripPriors = StripPriors { corner: 12 * M, width: 2_400_000, kerb: 120_000, eps: 10_000 };

fn run(from: i64, to: i64, grade: bool) -> LevelRun {
    LevelRun { from: from * M, to: to * M, level: 0, grade }
}

fn way(source: u64, host: u32, from: i64, to: i64) -> Way {
    Way {
        source,
        crosswalk: false,
        steps: false,
        track: false,
        earns_band: true,
        arcs: vec![from * M, to * M],
        elevated: vec![],
        attached: vec![Attachment {
            host,
            side: 0,
            arc0: from * M,
            arc1: to * M,
            walk0: from * M,
            walk1: to * M,
        }],
    }
}

/// A street of the given runs, with room for `rooms` at each stop on its left.
fn street(id: u32, ways: &[Way], runs: &[LevelRun], rooms: &dyn Fn(i64) -> i64) -> StreetReading {
    let sides = claims_by_side(ways);
    let spans = |side: u8| sides.claims(id, side, PRIORS.corner).map_or(vec![], |c| c.spans);
    let readings = runs
        .iter()
        .map(|r| {
            let stops = run_stops(r, &vec![], &spans(0), &spans(1), PRIORS.eps);
            RunReading {
                run: *r,
                arcs: vec![],
                walk: stops.iter().map(|s| (rooms(*s), 0)).collect(),
                road: vec![400 * M; stops.len()],
            }
        })
        .collect();
    StreetReading { id, half: Some(3 * M), synth: false, runs: readings }
}

#[test]
fn what_is_claimed_is_built_or_lost_to_a_named_rule() {
    // Claimed 0..90 on street 1: 0..60 on the ground, the rest on a bridge; the
    // room runs out past 40. Claimed 0..10 on street 2, which draws no width.
    let ways = [way(7, 1, 0, 40), way(7, 1, 40, 90), way(8, 2, 0, 10)];
    let sides = claims_by_side(&ways);
    let mut bare = street(2, &ways, &[run(0, 10, true)], &|_| 2 * M);
    bare.half = None;
    let runs = [run(0, 40, true), run(40, 60, true), run(60, 100, false)];
    let room = |s: i64| if s <= 40 * M { 2 * M } else { 0 };
    let streets = [street(1, &ways, &runs, &room), bare];
    let c = AttachCensus::of(&sides, &streets, &PRIORS);
    assert_eq!(c.claimed, 100_000_000);
    assert_eq!(c.no_width, 10_000_000);
    assert_eq!(c.non_grade, 30_000_000);
    assert_eq!(c.narrow, 20_000_000);
    assert_eq!(c.built, 40_000_000);
    assert_eq!(c.report(), Some(Shares { built: 400, no_width: 100, non_grade: 300, narrow: 200 }));
    // Built is what is drawn.
    let drawn: i64 = street_bands(&sides, &streets, &PRIORS).iter().map(|s| s.to - s.from).sum();
    assert_eq!(drawn as u128, c.built);
}

#[test]
fn nothing_claimed_has_no_shares() {
    let c = AttachCensus::of(&claims_by_side(&[]), &[], &PRIORS);
    assert_eq!(c.report(), None);
}

#[test]
fn overlap_counts_both_sides() {
    let left = vec![(0, 10), (20, 40)];
    let right = vec![(5, 8)];
    assert_eq!(overlap(&left, &right, 6, 30), 4 + 10 + 2);
    assert_eq!(overlap(&left, &right, 10, 20), 0);
}

fn graph(spreads: Vec<(u64, u32, bool)>) -> WalkGraph {
    WalkGraph {
        node_of_slot: vec![],
        height: vec![5, 6],
        at: vec![0, 1],
        seed: vec![5, 6],
        pinned: vec![false, true],
        multi: 11,
        multi_corridor: 2,
        connector_unions: 3,
        t_hosts: 4,
        street_pins: 5,
        out_of_reach: 6,
        stub_pins: 7,
        spreads,
    }
}

#[test]
fn the_widest_seat_spreads_are_named_first() {
    let spreads: Vec<(u64, u32, bool)> = (0..11).map(|i| (100_000 * i, i as u32, i % 2 == 0)).collect();
    let c = graph(spreads).census(20);
    assert_eq!((c.bands, c.nodes, c.multi, c.multi_corridor), (20, 2, 11, 2));
    assert_eq!((c.connector_unions, c.t_hosts, c.street_pins, c.out_of_reach, c.stub_pins), (3, 4, 5, 6, 7));
    assert_eq!((c.p50, c.p90, c.widest), (500_000, 900_000, 1_000_000));
    assert_eq!((c.over, c.mixed_over), (7, 4));
    assert_eq!(c.worst.len(), 10);
    assert_eq!(c.worst[0], (1_000_000, 10, true));
    assert_eq!(c.worst[9], (100_000, 1, false));
}

#[test]
fn a_graph_without_joints_has_no_spread() {
    let c = graph(vec![]).census(0);
    assert_eq!((c.p50, c.p90, c.widest, c.over, c.mixed_over), (0, 0, 0, 0, 0));
    assert!(c.worst.is_empty());
}

fn vertex(x: u16, y: u16, height: i64) -> DeckVertex {
    DeckVertex { x, y, height }
}

#[test]
fn a_deck_ends_at_both_sides_of_its_long_axis() {
    // A slab from (1000, 500) to (2000, 520), one vertex halfway along.
    let v = [
        vertex(1000, 500, 10),
        vertex(2000, 500, 30),
        vertex(2000, 520, 31),
        vertex(1000, 520, 9),
        vertex(1500, 510, 99),
    ];
    let (p, q) = deck_ends(&v).unwrap();
    assert_eq!(p, EndAt { x: 2000, y: 1020, count: 2, top: 10 });
    assert_eq!(q, EndAt { x: 4000, y: 1020, count: 2, top: 31 });
}

#[test]
fn a_deck_without_length_has_no_ends() {
    assert_eq!(deck_ends(&[vertex(1, 1, 0), vertex(2, 2, 0)]), None);
    assert_eq!(deck_ends(&[vertex(7, 7, 0), vertex(7, 7, 1), vertex(7, 7, 2)]), None);
}

#[test]
fn decks_run_along_each_other_within_thirty_degrees() {
    let h = |east: i64, north: i64| Heading { east, north };
    assert!(runs_along(h(20_000, 0), h(-9_000, 0)), "either way round");
    // The cosine of atan(0.56) is 0.8725, that of atan(0.57) is 0.8687.
    assert!(runs_along(h(1_000, 560), h(7_000, 0)));
    assert!(!runs_along(h(1_000, 570), h(7_000, 0)));
    assert!(!runs_along(h(0, 0), h(7_000, 0)), "no axis to compare");
}
