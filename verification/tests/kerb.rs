use arpentry::verify::checks::kerb::{station, Census, Kerb, State, Station, StationChain, StationReading, JOG_WINDOW};
use arpentry::verify::checks::Options;
use arpentry::verify::march::WidthMarch;
use arpentry::verify::scene::RoadMesh;
use arpentry::verify::silhouette::{chains, silhouette, Key, SilEdge, Tri};
use arpentry::verify::{Metric, Note, Place};

/// A drawn band of triangles, in metres from the tile's south-west corner.
struct Band {
    class: String,
    points: Vec<(f64, f64)>,
    corners: Vec<usize>,
}

fn band(class: &str, r: (f64, f64, f64, f64)) -> Band {
    Band {
        class: class.to_string(),
        points: vec![(r.0, r.2), (r.1, r.2), (r.1, r.3), (r.0, r.3)],
        corners: vec![0, 1, 2, 0, 2, 3],
    }
}

fn cross(a: (f64, f64), b: (f64, f64), p: (f64, f64)) -> f64 {
    (b.0 - a.0) * (p.1 - a.1) - (b.1 - a.1) * (p.0 - a.0)
}

fn to_segment(a: (f64, f64), b: (f64, f64), p: (f64, f64)) -> f64 {
    let (dx, dy) = (b.0 - a.0, b.1 - a.1);
    let t = (((p.0 - a.0) * dx + (p.1 - a.1) * dy) / (dx * dx + dy * dy)).clamp(0.0, 1.0);
    let (ex, ey) = (p.0 - a.0 - t * dx, p.1 - a.1 - t * dy);
    (ex * ex + ey * ey).sqrt()
}

impl Band {
    fn covers(&self, p: (f64, f64)) -> bool {
        self.corners.chunks(3).any(|t| {
            let (a, b, c) = (self.points[t[0]], self.points[t[1]], self.points[t[2]]);
            let (u, v, w) = (cross(a, b, p), cross(b, c, p), cross(c, a, p));
            (u >= -1e-9 && v >= -1e-9 && w >= -1e-9) || (u <= 1e-9 && v <= 1e-9 && w <= 1e-9)
        })
    }

    /// Whether a triangle's edge passes within `reach` of a point.
    fn near(&self, p: (f64, f64), reach: f64) -> bool {
        self.corners.chunks(3).any(|t| {
            let (a, b, c) = (self.points[t[0]], self.points[t[1]], self.points[t[2]]);
            to_segment(a, b, p) < reach || to_segment(b, c, p) < reach || to_segment(c, a, p) < reach
        })
    }

    fn key(&self, i: usize) -> Key {
        Key { x: (self.points[i].0 * 100.0).round() as i64, y: (self.points[i].1 * 100.0).round() as i64 }
    }

    fn road(&self) -> RoadMesh {
        RoadMesh {
            class: self.class.clone(),
            level: 0,
            band: String::new(),
            sheet: None,
            pavement: self.class == "road_surface",
            rim: self.class.ends_with("_rim"),
            casing: false,
            deck: false,
            bore: false,
            fitted: false,
            rail: false,
        }
    }
}

const PROBE_M: f64 = 0.7;

const SERVE_M: f64 = 0.5;

const RIM_M: f64 = 0.5;

fn is_walk(b: &Band) -> bool {
    b.class == "walk_surface"
}

/// How wide the drawn pavement is along a direction, marched by the library.
fn width(all: &[Band], p: (f64, f64), out: (f64, f64)) -> Option<i64> {
    let mut march = WidthMarch::new();
    while let Some(d) = march.probe() {
        let m = d as f64 / 1e6;
        let q = (p.0 + out.0 * m, p.1 + out.1 * m);
        march = march.answer(all.iter().any(|b| is_walk(b) && b.covers(q)));
    }
    match march {
        WidthMarch::Done { width } => width,
        _ => unreachable!(),
    }
}

fn reading(all: &[Band], p: (f64, f64), out: (f64, f64)) -> StationReading {
    let probe = (p.0 + out.0 * PROBE_M, p.1 + out.1 * PROBE_M);
    StationReading {
        owned: true,
        on_tile_edge: false,
        near_kerb: all.iter().map(|b| b.near(p, RIM_M)).collect(),
        near_probe: all.iter().map(|b| b.near(probe, SERVE_M)).collect(),
        built: false,
        width: width(all, p, out),
        place: Place { lon: (p.0 * 1e3) as i64, lat: (p.1 * 1e3) as i64 },
    }
}

/// One-metre stations along the silhouette of every road surface.
fn station_chains(all: &[Band]) -> Vec<StationChain> {
    let mut found = Vec::new();
    for (road, b) in all.iter().enumerate().filter(|(_, b)| b.class == "road_surface") {
        let tris: Vec<Tri> =
            b.corners.chunks(3).map(|t| Tri { a: b.key(t[0]), b: b.key(t[1]), c: b.key(t[2]) }).collect();
        let rim = silhouette(&tris);
        let ends: Vec<(usize, usize, usize)> = rim
            .iter()
            .map(|(t, k)| (b.corners[3 * t + k], b.corners[3 * t + (k + 1) % 3], b.corners[3 * t + (k + 2) % 3]))
            .collect();
        let edges: Vec<SilEdge> = ends.iter().map(|e| SilEdge { a: b.key(e.0), b: b.key(e.1) }).collect();
        for chain in chains(&edges) {
            let mut stations = Vec::new();
            for s in &chain.steps {
                let (i, j, opposite) = ends[s.edge];
                let (from, to) =
                    if s.forward { (b.points[i], b.points[j]) } else { (b.points[j], b.points[i]) };
                let third = b.points[opposite];
                let (dx, dy) = (to.0 - from.0, to.1 - from.1);
                let len = (dx * dx + dy * dy).sqrt();
                let side = if cross(from, to, third) > 0.0 { 1.0 } else { -1.0 };
                let out = (side * dy / len, -side * dx / len);
                let steps = len.round().max(1.0) as usize;
                for k in 0..steps {
                    let t = (k as f64 + 0.5) / steps as f64;
                    stations.push(reading(all, (from.0 + dx * t, from.1 + dy * t), out));
                }
            }
            found.push(StationChain { road: road as u32, closed: chain.is_loop, stations });
        }
    }
    found
}

fn by_id(zoom: u8, all: &[Band], id: &str) -> Metric {
    let roads: Vec<RoadMesh> = all.iter().map(|b| b.road()).collect();
    let opt = Options { spacing: 1_000_000, ..Options::default() };
    let mut c = Kerb::new(&opt);
    c.visit(zoom, &roads, &station_chains(all));
    c.finish().into_iter().find(|m| m.id == id).expect("the metric is reported")
}

fn run(all: &[Band]) -> Metric {
    by_id(16, all, "street.kerb_gap")
}

/// A street over x 10..18, y 10..90, with a rim all round it.
fn bare_street() -> Vec<Band> {
    vec![
        band("road_surface", (10.0, 18.0, 10.0, 90.0)),
        band("road_rim", (18.0, 18.35, 10.0, 90.0)),
        band("road_rim", (9.65, 10.0, 10.0, 90.0)),
        band("road_rim", (10.0, 18.0, 9.65, 10.0)),
        band("road_rim", (10.0, 18.0, 90.0, 90.35)),
    ]
}

fn street(walks: &[(f64, f64)]) -> Vec<Band> {
    let mut roads = bare_street();
    for &(y0, y1) in walks {
        roads.push(band("walk_surface", (18.35, 20.35, y0, y1)));
    }
    roads
}

fn metres(m: &Metric) -> f64 {
    m.worst_value().unwrap() as f64 / 1e6
}

#[test]
fn a_pavement_the_whole_way_along_scores_zero_rather_than_nothing() {
    let m = run(&street(&[(10.0, 90.0)]));
    assert!(m.dist.count() >= 80, "east kerb stations: {}", m.dist.count());
    assert_eq!(m.violations(), 0);
    assert_eq!(m.dist.max(), Some(0));
}

#[test]
fn a_pavement_that_stops_and_resumes_scores_the_gap_it_leaves() {
    let m = run(&street(&[(10.0, 40.0), (46.0, 90.0)]));
    let worst = metres(&m);
    assert!((worst - 6.0).abs() <= 1.0, "gap length {worst}");
    assert!((5..=7).contains(&m.violations()), "violations {}", m.violations());
    assert!(!m.worst.is_empty());
}

#[test]
fn a_pavement_that_simply_ends_is_not_a_gap() {
    let m = run(&street(&[(10.0, 40.0)]));
    assert_eq!(m.violations(), 0, "worst {:?}", m.worst_value());
}

#[test]
fn a_side_street_without_pavement_is_not_a_gap() {
    let m = run(&street(&[(10.0, 30.0), (70.0, 90.0)]));
    assert_eq!(m.violations(), 0, "worst {:?}", m.worst_value());
    assert!(m.dist.count() >= 60);
}

#[test]
fn a_pavement_of_one_width_has_no_jog() {
    let m = by_id(16, &street(&[(10.0, 90.0)]), "street.walk_width_step");
    assert!(m.dist.count() >= 70, "pairs {}", m.dist.count());
    assert_eq!(m.violations(), 0, "worst {:?}", m.worst_value());
}

#[test]
fn a_pavement_that_pulses_between_two_widths_saws() {
    let mut roads = bare_street();
    let mut y = 10.0;
    let mut wide = true;
    while y < 90.0 {
        let far = if wide { 20.35 } else { 19.55 };
        roads.push(band("walk_surface", (18.35, far, y, f64::min(y + 4.0, 90.0))));
        y += 4.0;
        wide = !wide;
    }
    let m = by_id(16, &roads, "street.walk_width_step");
    assert!(m.violations() >= 8, "violations {}", m.violations());
    let worst = metres(&m);
    assert!(worst >= 1.5, "wander {worst}");
    assert!(matches!(m.worst[0].note, Note::WidthWander { .. }));
}

#[test]
fn a_pavement_that_narrows_once_is_a_taper_and_not_a_jog() {
    let mut roads = bare_street();
    roads.push(band("walk_surface", (18.35, 20.35, 10.0, 50.0)));
    roads.push(band("walk_surface", (18.35, 19.55, 50.0, 90.0)));
    roads.push(band("walk_surface", (9.65 - 2.0, 9.65, 10.0, 90.0)));
    let m = by_id(16, &roads, "street.walk_width_step");
    assert_eq!(m.violations(), 0, "worst {:?}", m.worst_value());
    assert!(m.dist.count() >= 60, "triples {}", m.dist.count());
}

#[test]
fn a_zoom_that_meshes_no_bands_reports_a_skip() {
    let m = by_id(15, &[band("road_surface", (10.0, 18.0, 10.0, 90.0))], "street.kerb_gap");
    assert!(m.skipped);
}

#[test]
fn a_ring_road_with_pavement_on_two_legs_scores_the_bare_arc_between_them() {
    let ring = Band {
        class: "road_surface".to_string(),
        points: vec![
            (10.0, 10.0),
            (90.0, 10.0),
            (90.0, 90.0),
            (10.0, 90.0),
            (30.0, 30.0),
            (70.0, 30.0),
            (70.0, 70.0),
            (30.0, 70.0),
        ],
        corners: vec![0, 1, 5, 0, 5, 4, 1, 2, 6, 1, 6, 5, 2, 3, 7, 2, 7, 6, 3, 0, 4, 3, 4, 7],
    };
    let roads = vec![
        ring,
        band("road_rim", (10.0, 90.0, 9.65, 10.0)),
        band("road_rim", (90.0, 90.35, 10.0, 90.0)),
        band("road_rim", (10.0, 90.0, 90.0, 90.35)),
        band("road_rim", (9.65, 10.0, 10.0, 90.0)),
        band("walk_surface", (10.0, 90.0, 7.65, 9.65)),
        band("walk_surface", (90.35, 92.35, 22.0, 90.0)),
        band("walk_surface", (10.0, 90.0, 90.35, 92.35)),
        band("walk_surface", (7.65, 9.65, 10.0, 90.0)),
    ];
    let m = run(&roads);
    let worst = metres(&m);
    assert!((worst - 12.0).abs() <= 1.5, "gap length {worst}");
    assert!(m.violations() >= 10, "violations {}", m.violations());
}

fn at(state: State, width: Option<i64>) -> Station {
    Station { state, width, place: Place { lon: 0, lat: 0 } }
}

fn scored(stations: Vec<Station>, closed: bool) -> Vec<Metric> {
    let mut c = Kerb::new(&Options::default());
    c.score_chain(&stations, closed, 16);
    c.finish()
}

#[test]
fn a_bare_run_is_a_gap_only_between_two_pavements() {
    let served = || at(State::Served, None);
    let bare = || at(State::Bare, None);
    let m = scored(vec![served(), bare(), bare(), bare(), served()], false);
    assert_eq!(m[1].dist.samples, vec![0, 3_000_000, 3_000_000, 3_000_000, 0]);
    assert!(matches!(m[1].worst[0].note, Note::KerbGap { stations: 3 }));
    let m = scored(vec![bare(), bare(), bare(), served()], false);
    assert_eq!(m[1].dist.samples, vec![0]);
    let m = scored(vec![bare(), bare(), served(), bare()], true);
    assert_eq!(m[1].dist.samples, vec![0, 3_000_000, 3_000_000, 3_000_000], "a loop wraps its seam");
    let m = scored(vec![served(), bare(), at(State::Unknown, None), bare(), served()], false);
    assert_eq!(m[1].dist.samples, vec![0, 0]);
}

#[test]
fn a_gap_at_the_corner_reach_counts_and_one_past_it_does_not() {
    for (n, sample) in [(25usize, 25_000_000i128), (26, 0)] {
        let mut st = vec![at(State::Served, None)];
        st.extend((0..n).map(|_| at(State::Bare, None)));
        st.push(at(State::Served, None));
        let m = scored(st, false);
        assert_eq!(m[1].dist.max(), Some(sample));
    }
}

#[test]
fn a_monotone_edge_scores_no_wander_however_steep() {
    let st: Vec<Station> = (0..12).map(|i| at(State::Served, Some(500_000 + 200_000 * i))).collect();
    let m = scored(st, false);
    assert_eq!(m[0].dist.max(), Some(0));
    assert_eq!(m[0].dist.count(), 12, "every station scores, zeros included");
}

#[test]
fn an_edge_out_and_back_wanders_twice_its_excursion_less_the_deadband() {
    assert_eq!(JOG_WINDOW, 10);
    let widths = [1_000_000, 1_500_000, 1_000_000, 1_000_000];
    let m = scored(widths.iter().map(|w| at(State::Served, Some(*w))).collect(), true);
    assert_eq!(m[0].dist.samples, vec![960_000, 0, 0, 0]);
}

#[test]
fn a_run_of_three_scores_and_a_shorter_one_does_not() {
    let wide = || at(State::Served, Some(1_000_000));
    for closed in [false, true] {
        let m = scored(vec![wide(), wide(), wide()], closed);
        assert_eq!(m[0].dist.samples, vec![0, 0, 0]);
        let m = scored(vec![wide(), wide(), at(State::Served, None), wide(), wide()], closed);
        assert!(m[0].dist.is_empty());
    }
}

#[test]
fn a_station_is_a_kerb_only_beside_a_rim_in_the_open() {
    let all = street(&[(10.0, 90.0)]);
    let roads: Vec<RoadMesh> = all.iter().map(|b| b.road()).collect();
    let east = || reading(&all, (18.0, 50.0), (1.0, 0.0));
    assert_eq!(station(&roads, &east()).state, State::Served);
    assert_eq!(station(&roads, &reading(&all, (10.0, 50.0), (-1.0, 0.0))).state, State::Bare);
    let mut r = east();
    r.owned = false;
    assert_eq!(station(&roads, &r).state, State::Unknown);
    let mut r = east();
    r.on_tile_edge = true;
    assert_eq!(station(&roads, &r).state, State::Unknown);
    let mut r = east();
    r.built = true;
    assert_eq!(station(&roads, &r).state, State::Unknown);
    let mut r = east();
    r.near_kerb = vec![false; roads.len()];
    assert_eq!(station(&roads, &r).state, State::Unknown);
    assert_eq!(station(&roads, &r).width, None);
}

#[test]
fn a_width_is_marched_to_within_a_centimetre() {
    let all = street(&[(10.0, 90.0)]);
    let w = width(&all, (18.0, 50.0), (1.0, 0.0)).unwrap();
    assert!((2_350_000 - w).abs() <= 10_000, "{w}");
    assert_eq!(width(&all, (10.0, 50.0), (-1.0, 0.0)), None, "nothing is drawn there");
    let plaza = street(&[(10.0, 90.0)]);
    assert_eq!(width(&plaza, (18.5, 12.0), (0.0, 1.0)), None, "the ray never leaves the pavement");
}

#[test]
fn every_silhouette_edge_is_walked_once() {
    let tri = |a: (i64, i64), b: (i64, i64), c: (i64, i64)| Tri {
        a: Key { x: a.0, y: a.1 },
        b: Key { x: b.0, y: b.1 },
        c: Key { x: c.0, y: c.1 },
    };
    // Two triangles sharing a diagonal, and one apart.
    let tris = [tri((0, 0), (4, 0), (4, 4)), tri((0, 0), (4, 4), (0, 4)), tri((9, 9), (10, 9), (9, 10))];
    let rim = silhouette(&tris);
    assert_eq!(rim, vec![(0, 0), (0, 1), (1, 1), (1, 2), (2, 0), (2, 1), (2, 2)]);
    let corner = |t: &Tri, k: usize| [t.a, t.b, t.c][k % 3];
    let edges: Vec<SilEdge> =
        rim.iter().map(|(t, k)| SilEdge { a: corner(&tris[*t], *k), b: corner(&tris[*t], k + 1) }).collect();
    let found = chains(&edges);
    assert_eq!(found.len(), 2);
    assert!(found.iter().all(|c| c.is_loop));
    assert_eq!(found[0].steps.iter().map(|s| s.edge).collect::<Vec<usize>>(), vec![0, 1, 2, 3]);
    assert_eq!(found[1].steps.len(), 3);
}

#[test]
fn an_open_chain_starts_at_its_least_end() {
    let k = |x: i64| Key { x, y: 0 };
    let edges = [SilEdge { a: k(2), b: k(3) }, SilEdge { a: k(2), b: k(1) }, SilEdge { a: k(0), b: k(1) }];
    let found = chains(&edges);
    assert_eq!(found.len(), 1);
    assert!(!found[0].is_loop);
    let walked: Vec<(usize, bool)> = found[0].steps.iter().map(|s| (s.edge, s.forward)).collect();
    assert_eq!(walked, vec![(2, true), (1, false), (0, true)]);
}

fn counted(stations: Vec<Station>, closed: bool) -> (Census, usize) {
    let mut c = Kerb::new(&Options::default());
    c.score_chain(&stations, closed, 16);
    (c.census, c.gap.dist.samples.len())
}

#[test]
fn every_metre_of_kerb_is_scored_or_left_out() {
    let served = || at(State::Served, None);
    let bare = || at(State::Bare, None);
    let unknown = || at(State::Unknown, None);
    let open = || {
        vec![bare(), served(), bare(), bare(), bare(), served(), unknown(), bare(), served()]
    };
    // The bare start and the stretch beside the unknown are left out.
    let (c, samples) = counted(open(), false);
    assert_eq!(c, Census { kerb: 6, served: 3, excluded: 3, gaps: 1 });
    assert_eq!(samples, 6);
    // Round a loop the bare start lies between two pavements, though one metre
    // is no gap.
    let (c, samples) = counted(open(), true);
    assert_eq!(c, Census { kerb: 7, served: 3, excluded: 2, gaps: 1 });
    assert_eq!(samples, 7);
    // A loop no pavement touches is left out whole.
    let (c, samples) = counted(vec![bare(), unknown(), bare()], true);
    assert_eq!(c, Census { kerb: 0, served: 0, excluded: 3, gaps: 0 });
    assert_eq!(samples, 0);
}

#[test]
fn a_full_census_stays_full() {
    let mut c = Kerb::new(&Options::default());
    c.census = Census { kerb: u64::MAX - 1, served: 5, excluded: u64::MAX, gaps: 0 };
    c.score_chain(&vec![at(State::Served, None), at(State::Served, None), at(State::Unknown, None)], false, 16);
    assert_eq!(c.census, Census { kerb: u64::MAX, served: 7, excluded: u64::MAX, gaps: 0 });
}
