use arpentry::verify::checks::handoff::{is_rail_class, BandEdge, Handoff, BARE_UM, STEP_BREAK_UM};
use arpentry::verify::checks::Options;
use arpentry::verify::scene::{Probe, RoadMesh};
use arpentry::verify::{Metric, Note, Place};

/// A drawn triangle mesh over the unit tile, its heights in metres.
struct Mesh {
    x: Vec<f64>,
    y: Vec<f64>,
    z: Vec<f64>,
    corners: Vec<usize>,
}

impl Mesh {
    /// Heights of every triangle covering a plan point.
    fn answers(&self, px: f64, py: f64) -> Vec<f64> {
        let mut out = Vec::new();
        for t in self.corners.chunks(3) {
            let (a, b, c) = (t[0], t[1], t[2]);
            let d = (self.y[b] - self.y[c]) * (self.x[a] - self.x[c]) + (self.x[c] - self.x[b]) * (self.y[a] - self.y[c]);
            if d.abs() < 1e-15 {
                continue;
            }
            let u = ((self.y[b] - self.y[c]) * (px - self.x[c]) + (self.x[c] - self.x[b]) * (py - self.y[c])) / d;
            let v = ((self.y[c] - self.y[a]) * (px - self.x[c]) + (self.x[a] - self.x[c]) * (py - self.y[c])) / d;
            let w = 1.0 - u - v;
            if u >= -1e-9 && v >= -1e-9 && w >= -1e-9 {
                out.push(u * self.z[a] + v * self.z[b] + w * self.z[c]);
            }
        }
        out
    }

    fn height(&self, px: f64, py: f64) -> Option<i64> {
        self.answers(px, py).first().map(|h| um(*h))
    }

    fn range(&self, px: f64, py: f64) -> Option<(i64, i64)> {
        let all = self.answers(px, py);
        if all.is_empty() {
            return None;
        }
        let low = all.iter().fold(f64::INFINITY, |a, b| a.min(*b));
        let high = all.iter().fold(f64::NEG_INFINITY, |a, b| a.max(*b));
        Some((um(low), um(high)))
    }
}

fn um(metres: f64) -> i64 {
    (metres * 1e6).round() as i64
}

/// A flat quad over a plan rectangle.
fn plane(x0: f64, x1: f64, y0: f64, y1: f64, h: f64) -> Mesh {
    Mesh { x: vec![x0, x1, x1, x0], y: vec![y0, y0, y1, y1], z: vec![h; 4], corners: vec![0, 1, 2, 0, 2, 3] }
}

/// A drawn road feature and its mesh.
struct Drawn {
    road: RoadMesh,
    mesh: Mesh,
}

fn drawn(class: &str, level: i64, mesh: Mesh) -> Drawn {
    let pavement = level == 0 && (class == "road_surface" || class == "rail_surface");
    let rim = class.ends_with("_casing") || class.ends_with("_rim");
    let fitted = level > 0 && (class == "footway" || class == "path");
    let road = RoadMesh {
        class: class.to_string(),
        level,
        band: String::new(),
        sheet: None,
        pavement,
        rim,
        casing: class.ends_with("_casing"),
        deck: level > 0,
        bore: level < 0,
        fitted,
        rail: class.contains("rail"),
    };
    Drawn { road, mesh }
}

fn place(px: f64, py: f64) -> Place {
    Place { lon: (px * 1e9) as i64, lat: (py * 1e9) as i64 }
}

/// What the meshes answer at a plan point.
fn probe(all: &[Drawn], terrain: Option<&Mesh>, px: f64, py: f64) -> Probe {
    Probe {
        owned: (0.0..=1.0).contains(&px) && (0.0..=1.0).contains(&py),
        place: place(px, py),
        terrain: terrain.and_then(|t| t.height(px, py)),
        heights: all.iter().map(|d| d.mesh.height(px, py)).collect(),
        ranges: all.iter().map(|d| d.mesh.range(px, py)).collect(),
        spans: all.iter().map(|d| d.mesh.range(px, py)).collect(),
    }
}

fn roads_of(all: Vec<Drawn>) -> Vec<RoadMesh> {
    all.into_iter().map(|d| d.road).collect()
}

/// Metres across the tile.
const ACROSS_M: f64 = 1000.0;

const THICKNESS_UM: i64 = 1_500_000;

/// Width of the rim drawn around a band.
const RIM_M: f64 = 0.4;

/// A flat quad from `x0` to `x1` across the middle of the tile.
fn quad(class: &str, level: i64, x0: f64, x1: f64, h: f64) -> Drawn {
    drawn(class, level, plane(x0, x1, 0.49, 0.51, h))
}

/// The four silhouette edges of each band's quad.
fn edges_of(all: &[Drawn]) -> Vec<BandEdge> {
    let mut out = Vec::new();
    for (band, d) in all.iter().enumerate().filter(|(_, d)| d.road.pavement) {
        let (x0, x1, y0, y1) = (d.mesh.x[0], d.mesh.x[1], d.mesh.y[0], d.mesh.y[2]);
        let (cx, cy) = (0.5 * (x0 + x1), 0.5 * (y0 + y1));
        for (px, py, nx, ny) in [(x0, cy, -1.0, 0.0), (x1, cy, 1.0, 0.0), (cx, y0, 0.0, -1.0), (cx, y1, 0.0, 1.0)] {
            let at = |m: f64| probe(all, None, px + nx * m / ACROSS_M, py + ny * m / ACROSS_M);
            out.push(BandEdge {
                band,
                owned: true,
                place: place(px, py),
                height: um(d.mesh.z[0]),
                inside: at(-0.5),
                march: (1..=120).map(|k| at(0.1 * k as f64)).collect(),
                kerb: at(0.5 * RIM_M),
            });
        }
    }
    out
}

fn run(all: Vec<Drawn>) -> (Handoff, Vec<Metric>) {
    let edges = edges_of(&all);
    let roads = roads_of(all);
    let mut counted = Handoff::new(&Options::default());
    counted.visit(16, &roads, &edges, THICKNESS_UM);
    let mut c = Handoff::new(&Options::default());
    c.visit(16, &roads, &edges, THICKNESS_UM);
    (counted, c.finish())
}

fn measure(all: Vec<Drawn>) -> (Option<i128>, Option<i128>, usize) {
    let (_, m) = run(all);
    (m[0].dist.max(), m[1].dist.max(), m[0].dist.count())
}

#[test]
fn a_flush_joint_measures_nothing() {
    let edge = 0.5;
    let (bare, step, n) =
        measure(vec![quad("road_surface", 0, 0.4, edge, 400.0), quad("residential", 1, edge, 0.6, 400.0)]);
    assert!(n > 0, "the abutment edge was not paired at all");
    assert!(bare.expect("bare") <= BARE_UM, "flush joint read {bare:?} of bare ground");
    assert!(step.expect("step") <= STEP_BREAK_UM, "flush joint read {step:?} of step");
}

#[test]
fn a_deck_starting_short_reports_the_gap() {
    let gap_m = 2.0;
    let edge = 0.5;
    let (bare, _, n) = measure(vec![
        quad("road_surface", 0, 0.4, edge, 400.0),
        quad("residential", 1, edge + gap_m / ACROSS_M, 0.6, 400.0),
    ]);
    assert!(n > 0, "the abutment was not paired");
    let bare = bare.expect("bare") as f64 / 1e6;
    assert!((bare - gap_m).abs() < 0.25, "gap of {gap_m} m measured as {bare}");
}

#[test]
fn a_deck_arriving_high_reports_the_step() {
    let edge = 0.5;
    let (_, step, _) =
        measure(vec![quad("road_surface", 0, 0.4, edge, 400.0), quad("residential", 1, edge, 0.6, 400.6)]);
    let step = step.expect("step") as f64 / 1e6;
    assert!((step - 0.6).abs() < 0.05, "0.60 m step measured as {step}");
}

#[test]
fn a_viaduct_overhead_is_not_a_handoff() {
    let edge = 0.5;
    let (_, _, n) = measure(vec![quad("road_surface", 0, 0.4, edge, 400.0), quad("residential", 1, edge, 0.6, 408.0)]);
    assert_eq!(n, 0, "a deck 8 m overhead was paired as an abutment");
}

#[test]
fn a_footbridge_is_left_to_its_own_check() {
    let edge = 0.5;
    let (_, _, n) = measure(vec![quad("road_surface", 0, 0.4, edge, 400.0), quad("footway", 1, edge, 0.6, 400.0)]);
    assert_eq!(n, 0, "a fitted deck belongs to another check");
}

#[test]
fn the_casing_rim_is_surface_and_not_a_gap() {
    let edge = 0.5;
    let inset = edge - RIM_M / ACROSS_M;
    let (bare, _, n) = measure(vec![
        quad("road_surface", 0, 0.4, inset, 400.0),
        quad("road_casing", 0, inset, edge, 400.0),
        quad("residential", 1, edge, 0.6, 400.0),
    ]);
    assert!(n > 0, "the abutment was not paired");
    assert!(bare.expect("bare") <= BARE_UM, "the casing rim was counted as bare ground: {bare:?}");
}

#[test]
fn a_rim_across_the_joint_is_a_kerb_line() {
    let edge = 0.5;
    let inset = edge - RIM_M / ACROSS_M;
    let (c, m) = run(vec![
        quad("road_surface", 0, 0.4, inset, 400.0),
        quad("road_casing", 0, inset, edge, 400.0),
        quad("residential", 1, edge, 0.6, 400.0),
    ]);
    assert_eq!(m[2].violations(), 1);
    assert!(matches!(&m[2].worst[0].note, Note::HandoverKerb { ballast: false, .. }));
    assert_eq!((c.asphalt, c.ballast, c.decks, c.named), (1, 0, 1, 0));
    let (_, m) = run(vec![quad("road_surface", 0, 0.4, edge, 400.0), quad("residential", 1, edge, 0.6, 400.0)]);
    assert_eq!(m[2].violations(), 0);
}

#[test]
fn a_road_does_not_hand_over_to_a_railway() {
    let edge = 0.5;
    let (_, _, n) = measure(vec![quad("road_surface", 0, 0.4, edge, 400.0), quad("narrow_gauge_rail", 1, edge, 0.6, 400.0)]);
    assert_eq!(n, 0);
    let (c, _) = run(vec![quad("rail_surface", 0, 0.4, edge, 400.0), quad("narrow_gauge_rail", 1, edge, 0.6, 400.0)]);
    assert_eq!((c.asphalt, c.ballast), (0, 1));
}

#[test]
fn a_deck_is_of_the_band_it_names() {
    let edge = 0.5;
    let mut deck = quad("residential", 1, edge, 0.6, 400.0);
    assert!(!is_rail_class(&deck.road));
    deck.road.band = "rail_surface".to_string();
    let (c, _) = run(vec![quad("rail_surface", 0, 0.4, edge, 400.0), deck]);
    assert_eq!((c.ballast, c.decks, c.named), (1, 1, 1));
}

#[test]
fn a_deck_over_the_band_itself_is_an_overlap() {
    let edge = 0.5;
    let (c, m) = run(vec![quad("road_surface", 0, 0.4, edge, 400.0), quad("residential", 1, 0.49, 0.6, 400.0)]);
    assert_eq!(c.overlapped, 1);
    assert!(m[0].skipped);
}

#[test]
fn a_deck_with_no_single_top_hands_over_nothing() {
    let edge = 0.5;
    let upper = plane(edge, 0.6, 0.49, 0.51, 403.0);
    let lower = plane(edge, 0.6, 0.49, 0.51, 400.0);
    let stacked = Mesh {
        x: [upper.x, lower.x].concat(),
        y: [upper.y, lower.y].concat(),
        z: [upper.z, lower.z].concat(),
        corners: vec![0, 1, 2, 0, 2, 3, 4, 5, 6, 4, 6, 7],
    };
    let (_, _, n) = measure(vec![quad("road_surface", 0, 0.4, edge, 400.0), drawn("residential", 1, stacked)]);
    assert_eq!(n, 0);
}

#[test]
fn a_tile_is_held_where_it_draws_a_deck_and_a_band_or_a_casing() {
    let counted = |pavement: bool, rim: bool, casing: bool| {
        let mut at_grade = drawn("road_surface", 0, plane(0.0, 1.0, 0.0, 0.5, 400.0)).road;
        at_grade.pavement = pavement;
        at_grade.rim = rim;
        at_grade.casing = casing;
        let deck = drawn("road_deck", 1, plane(0.0, 1.0, 0.5, 1.0, 400.0)).road;
        let mut h = Handoff::new(&Options::default());
        h.visit(16, &[at_grade, deck], &[], THICKNESS_UM);
        h.decks
    };
    assert_eq!(counted(true, false, false), 1);
    assert_eq!(counted(false, false, true), 1, "a casing is surface");
    assert_eq!(counted(false, true, false), 0, "a rim that is no casing is not");
    assert_eq!(counted(false, false, false), 0);
}
