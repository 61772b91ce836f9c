use arpentry::verify::checks::paint::{is_banded_class, is_walk_material, Paint, Stroke, StrokeVertex};
use arpentry::verify::checks::Options;
use arpentry::verify::march::{near_kerb, reach_of};
use arpentry::verify::scene::{Probe, RoadMesh};
use arpentry::verify::{Metric, Note, Place};

/// A drawn triangle mesh over the unit tile, its heights in metres.
struct Mesh {
    x: Vec<f64>,
    y: Vec<f64>,
    z: Vec<f64>,
    corners: Vec<usize>,
}

impl Mesh {
    /// Heights of every triangle covering a plan point.
    fn answers(&self, px: f64, py: f64) -> Vec<f64> {
        let mut out = Vec::new();
        for t in self.corners.chunks(3) {
            let (a, b, c) = (t[0], t[1], t[2]);
            let d = (self.y[b] - self.y[c]) * (self.x[a] - self.x[c]) + (self.x[c] - self.x[b]) * (self.y[a] - self.y[c]);
            if d.abs() < 1e-15 {
                continue;
            }
            let u = ((self.y[b] - self.y[c]) * (px - self.x[c]) + (self.x[c] - self.x[b]) * (py - self.y[c])) / d;
            let v = ((self.y[c] - self.y[a]) * (px - self.x[c]) + (self.x[a] - self.x[c]) * (py - self.y[c])) / d;
            let w = 1.0 - u - v;
            if u >= -1e-9 && v >= -1e-9 && w >= -1e-9 {
                out.push(u * self.z[a] + v * self.z[b] + w * self.z[c]);
            }
        }
        out
    }

    fn height(&self, px: f64, py: f64) -> Option<i64> {
        self.answers(px, py).first().map(|h| um(*h))
    }

    fn range(&self, px: f64, py: f64) -> Option<(i64, i64)> {
        let all = self.answers(px, py);
        if all.is_empty() {
            return None;
        }
        let low = all.iter().fold(f64::INFINITY, |a, b| a.min(*b));
        let high = all.iter().fold(f64::NEG_INFINITY, |a, b| a.max(*b));
        Some((um(low), um(high)))
    }
}

fn um(metres: f64) -> i64 {
    (metres * 1e6).round() as i64
}

/// A flat quad over a plan rectangle.
fn plane(x0: f64, x1: f64, y0: f64, y1: f64, h: f64) -> Mesh {
    Mesh { x: vec![x0, x1, x1, x0], y: vec![y0, y0, y1, y1], z: vec![h; 4], corners: vec![0, 1, 2, 0, 2, 3] }
}

/// A drawn road feature and its mesh.
struct Drawn {
    road: RoadMesh,
    mesh: Mesh,
}

fn drawn(class: &str, level: i64, mesh: Mesh) -> Drawn {
    let pavement = level == 0 && (class == "road_surface" || class == "rail_surface");
    let rim = class.ends_with("_casing") || class.ends_with("_rim");
    let fitted = level > 0 && (class == "footway" || class == "path");
    let road = RoadMesh {
        class: class.to_string(),
        level,
        band: String::new(),
        sheet: None,
        pavement,
        rim,
        casing: class.ends_with("_casing"),
        deck: level > 0,
        bore: level < 0,
        fitted,
        rail: class.contains("rail"),
    };
    Drawn { road, mesh }
}

fn place(px: f64, py: f64) -> Place {
    Place { lon: (px * 1e9) as i64, lat: (py * 1e9) as i64 }
}

/// What the meshes answer at a plan point.
fn probe(all: &[Drawn], terrain: Option<&Mesh>, px: f64, py: f64) -> Probe {
    Probe {
        owned: (0.0..=1.0).contains(&px) && (0.0..=1.0).contains(&py),
        place: place(px, py),
        terrain: terrain.and_then(|t| t.height(px, py)),
        heights: all.iter().map(|d| d.mesh.height(px, py)).collect(),
        ranges: all.iter().map(|d| d.mesh.range(px, py)).collect(),
        spans: all.iter().map(|d| d.mesh.range(px, py)).collect(),
    }
}

fn roads_of(all: Vec<Drawn>) -> Vec<RoadMesh> {
    all.into_iter().map(|d| d.road).collect()
}

/// Metres across the tile.
const ACROSS_M: f64 = 400.0;

/// A flat quad covering `[x0, x1]` by the whole height of the tile.
fn slab(class: &str, x0: f64, x1: f64) -> Drawn {
    drawn(class, 0, plane(x0, x1, 0.0, 1.0, 100.0))
}

/// A drawn line of unit positions and heights in metres.
struct Line {
    class: String,
    level: i64,
    width_m: f64,
    points: Vec<(f64, f64, f64)>,
}

/// A north to south painted line at plan `px`, `width_m` wide.
fn stripe(width_m: f64, px: f64) -> Line {
    Line {
        class: "marking".to_string(),
        level: 0,
        width_m,
        points: vec![(px, 0.2, 100.0), (px, 0.5, 100.0), (px, 0.8, 100.0)],
    }
}

fn lowered(mut l: Line, level: i64, h: f64) -> Line {
    l.level = level;
    for p in l.points.iter_mut() {
        p.2 = h;
    }
    l
}

fn paved(all: &[Drawn], px: f64, py: f64) -> bool {
    all.iter().any(|d| (d.road.pavement || d.road.rim) && d.mesh.height(px, py).is_some())
}

/// Distance to the nearest edge of a full-height slab.
fn clear(all: &[Drawn], px: f64) -> u64 {
    let mut best = f64::INFINITY;
    for d in all.iter().filter(|d| d.road.pavement || d.road.rim) {
        for x in &d.mesh.x {
            best = best.min((px - x).abs() * ACROSS_M);
        }
    }
    if best.is_finite() {
        um(best) as u64
    } else {
        u64::MAX
    }
}

fn stroke(all: &[Drawn], terrain: Option<&Mesh>, l: &Line) -> Stroke {
    let side = |px: f64, py: f64, sign: f64| {
        (0..=240).map(|k| paved(all, px + sign * 0.05 * k as f64 / ACROSS_M, py)).collect::<Vec<bool>>()
    };
    let part = l
        .points
        .iter()
        .map(|&(px, py, h)| StrokeVertex {
            height: um(h),
            at: probe(all, terrain, px, py),
            margin: um(px.min(1.0 - px).min(py).min(1.0 - py) * ACROSS_M),
            clear: clear(all, px),
            left: side(px, py, -1.0),
            right: side(px, py, 1.0),
        })
        .collect();
    Stroke { class: l.class.clone(), level: l.level, width: um(l.width_m), parts: vec![part] }
}

fn run(all: Vec<Drawn>, terrain: Option<Mesh>, lines: &[Line]) -> Vec<Metric> {
    let strokes: Vec<Stroke> = lines.iter().map(|l| stroke(&all, terrain.as_ref(), l)).collect();
    let mut c = Paint::new(&Options::default());
    c.visit(16, &roads_of(all), terrain.is_some(), &strokes);
    c.finish()
}

fn metres(m: &Metric) -> f64 {
    m.worst_value().expect("a worst offender") as f64 / 1e6
}

#[test]
fn paint_on_the_asphalt_reports_nothing() {
    let m = run(vec![slab("road_surface", 0.4, 0.6)], None, &[stripe(0.12, 0.5)]);
    assert_eq!(m[0].violations(), 0, "a centred line is on the road");
    assert!(m[0].dist.count() > 0, "and the population is counted, not skipped");
}

#[test]
fn paint_beside_the_asphalt_is_caught() {
    let gap = 5.0 / ACROSS_M;
    let m = run(vec![slab("road_surface", 0.4, 0.6)], None, &[stripe(0.12, 0.6 + gap)]);
    assert!(m[0].violations() > 0, "paint off the asphalt must be caught");
    let worst = metres(&m[0]);
    assert!((worst - 5.0).abs() < 0.3, "the gap in metres: {worst}");
    assert!(matches!(m[0].worst[0].note, Note::MarkingOffside { width: 120_000 }));
}

#[test]
fn an_edge_line_collapsed_onto_the_axis_is_caught() {
    let half = 5.5 / ACROSS_M;
    let road = slab("road_surface", 0.5 - half, 0.5 + half);
    let placed = run(vec![road], None, &[stripe(0.15, 0.5 + 4.2 / ACROSS_M)]);
    assert_eq!(placed[1].violations(), 0, "an edge line at its own inset is right");
    assert!(placed[1].dist.count() > 0);

    let road = slab("road_surface", 0.5 - half, 0.5 + half);
    let collapsed = run(vec![road], None, &[stripe(0.15, 0.5)]);
    assert!(collapsed[1].violations() > 0, "an edge line projected onto the axis must be caught");
    let worst = metres(&collapsed[1]);
    assert!((worst - (5.5 - 1.3)).abs() < 0.3, "how far off its inset, in metres: {worst}");
}

fn terrain(h: f64) -> Mesh {
    plane(0.0, 1.0, 0.0, 1.0, h)
}

#[test]
fn paint_under_the_drawn_ground_is_caught() {
    let m = run(Vec::new(), Some(terrain(100.0)), &[stripe(0.12, 0.5)]);
    assert_eq!(m[2].violations(), 0, "a stroke on the ground is not buried");
    assert!(m[2].dist.count() > 0, "and it is counted, not skipped");

    let m = run(Vec::new(), Some(terrain(100.0)), &[lowered(stripe(0.12, 0.5), 0, 90.0)]);
    assert!(m[2].violations() > 0, "paint under the ground must be caught");
    let worst = metres(&m[2]);
    assert!((worst - 10.0).abs() < 0.1, "the burial depth in metres: {worst}");
}

#[test]
fn a_bridge_stroke_is_not_in_the_buried_population() {
    let m = run(Vec::new(), Some(terrain(100.0)), &[lowered(stripe(0.12, 0.5), 1, 90.0)]);
    assert!(m[2].skipped, "a positive level contributes nothing");

    let m = run(Vec::new(), Some(terrain(100.0)), &[lowered(stripe(0.12, 0.5), -1, 90.0)]);
    assert!(m[2].violations() > 0, "a tunnel stroke under the ground is caught");
    assert!(matches!(m[2].worst[0].note, Note::StrokeBuried { level: -1, .. }));
}

#[test]
fn a_centre_line_is_not_judged_as_an_edge_line() {
    let half = 5.5 / ACROSS_M;
    let m = run(vec![slab("road_surface", 0.5 - half, 0.5 + half)], None, &[stripe(0.12, 0.5)]);
    assert!(m[1].skipped, "no edge lines here, so nothing to say about insets");
}

#[test]
fn a_stroke_over_the_band_that_replaced_it_is_caught() {
    let mut way = stripe(1.0, 0.5);
    way.class = "footway".to_string();
    way.points[2].0 = 0.9;
    let m = run(vec![slab("walk_surface", 0.4, 0.6)], None, &[way]);
    assert_eq!(m[3].dist.samples, vec![1_000_000, 1_000_000, 0]);
    assert_eq!(m[3].violations(), 2);
    assert!(matches!(&m[3].worst[0].note, Note::StrokeDoubled { class } if class == "footway"));
    let m = run(vec![slab("road_surface", 0.4, 0.6)], None, &[stripe(0.12, 0.5)]);
    assert!(m[3].skipped, "no band is drawn");
}

#[test]
fn paint_near_the_border_or_on_a_structure_is_not_judged() {
    let m = run(vec![slab("road_surface", 0.4, 0.6)], None, &[stripe(0.12, 0.01)]);
    assert!(m[0].skipped);
    let deck = drawn("motorway", 1, plane(0.7, 0.9, 0.0, 1.0, 100.5));
    let m = run(vec![slab("road_surface", 0.4, 0.6), deck], None, &[stripe(0.12, 0.8)]);
    assert!(m[0].skipped, "the deck answers for it");
}

#[test]
fn the_near_kerb_is_the_shorter_reach() {
    let side = |m: usize| (0..=240).map(|k| k <= m).collect::<Vec<bool>>();
    assert_eq!(reach_of(&side(86)), Some(4_300_000));
    assert_eq!(reach_of(&side(240)), None, "asphalt past the cap is no measurement");
    assert_eq!(near_kerb(&side(86), &side(26)), Some(1_300_000));
    assert_eq!(near_kerb(&side(86), &side(240)), Some(4_300_000));
    assert_eq!(near_kerb(&side(240), &side(240)), None);
}

#[test]
fn classes_are_told_apart() {
    let s = |c: &str| c.to_string();
    assert!(["walk_surface", "walk_rim", "path_surface", "path_rim"].iter().all(|c| is_walk_material(&s(c))));
    assert!(!is_walk_material(&s("road_rim")));
    assert!(["footway", "path", "steps", "cycleway", "pedestrian", "track"].iter().all(|c| is_banded_class(&s(c))));
    assert!(!is_banded_class(&s("residential")));
}
