use arpentry::verify::checks::abutment::{Abutment, End, Facing, BREAK_UM, PAIR_MAX_TURN};
use arpentry::verify::checks::Options;
use arpentry::verify::scene::{Probe, RoadMesh};
use arpentry::verify::{Metric, Note, Place};

/// A drawn triangle mesh over the unit tile, its heights in metres.
struct Mesh {
    x: Vec<f64>,
    y: Vec<f64>,
    z: Vec<f64>,
    corners: Vec<usize>,
}

impl Mesh {
    /// Heights of every triangle covering a plan point.
    fn answers(&self, px: f64, py: f64) -> Vec<f64> {
        let mut out = Vec::new();
        for t in self.corners.chunks(3) {
            let (a, b, c) = (t[0], t[1], t[2]);
            let d = (self.y[b] - self.y[c]) * (self.x[a] - self.x[c]) + (self.x[c] - self.x[b]) * (self.y[a] - self.y[c]);
            if d.abs() < 1e-15 {
                continue;
            }
            let u = ((self.y[b] - self.y[c]) * (px - self.x[c]) + (self.x[c] - self.x[b]) * (py - self.y[c])) / d;
            let v = ((self.y[c] - self.y[a]) * (px - self.x[c]) + (self.x[a] - self.x[c]) * (py - self.y[c])) / d;
            let w = 1.0 - u - v;
            if u >= -1e-9 && v >= -1e-9 && w >= -1e-9 {
                out.push(u * self.z[a] + v * self.z[b] + w * self.z[c]);
            }
        }
        out
    }

    fn height(&self, px: f64, py: f64) -> Option<i64> {
        self.answers(px, py).first().map(|h| um(*h))
    }

    fn range(&self, px: f64, py: f64) -> Option<(i64, i64)> {
        let all = self.answers(px, py);
        if all.is_empty() {
            return None;
        }
        let low = all.iter().fold(f64::INFINITY, |a, b| a.min(*b));
        let high = all.iter().fold(f64::NEG_INFINITY, |a, b| a.max(*b));
        Some((um(low), um(high)))
    }
}

fn um(metres: f64) -> i64 {
    (metres * 1e6).round() as i64
}

/// A flat quad over a plan rectangle.
fn plane(x0: f64, x1: f64, y0: f64, y1: f64, h: f64) -> Mesh {
    Mesh { x: vec![x0, x1, x1, x0], y: vec![y0, y0, y1, y1], z: vec![h; 4], corners: vec![0, 1, 2, 0, 2, 3] }
}

/// A drawn road feature and its mesh.
struct Drawn {
    road: RoadMesh,
    mesh: Mesh,
}

fn drawn(class: &str, level: i64, mesh: Mesh) -> Drawn {
    let pavement = level == 0 && (class == "road_surface" || class == "rail_surface");
    let rim = class.ends_with("_casing") || class.ends_with("_rim");
    let fitted = level > 0 && (class == "footway" || class == "path");
    let road = RoadMesh {
        class: class.to_string(),
        level,
        band: String::new(),
        sheet: None,
        pavement,
        rim,
        casing: class.ends_with("_casing"),
        deck: level > 0,
        bore: level < 0,
        fitted,
        rail: class.contains("rail"),
    };
    Drawn { road, mesh }
}

fn place(px: f64, py: f64) -> Place {
    Place { lon: (px * 1e9) as i64, lat: (py * 1e9) as i64 }
}

/// What the meshes answer at a plan point.
fn probe(all: &[Drawn], terrain: Option<&Mesh>, px: f64, py: f64) -> Probe {
    Probe {
        owned: (0.0..=1.0).contains(&px) && (0.0..=1.0).contains(&py),
        place: place(px, py),
        terrain: terrain.and_then(|t| t.height(px, py)),
        heights: all.iter().map(|d| d.mesh.height(px, py)).collect(),
        ranges: all.iter().map(|d| d.mesh.range(px, py)).collect(),
        spans: all.iter().map(|d| d.mesh.range(px, py)).collect(),
    }
}

fn roads_of(all: Vec<Drawn>) -> Vec<RoadMesh> {
    all.into_iter().map(|d| d.road).collect()
}

/// Metres across the tile.
const ACROSS_M: f64 = 400.0;

const THICKNESS_UM: i64 = 1_500_000;

/// A west to east stroke from `x0` to `x1` at height `h`.
struct Stroke {
    class: String,
    x0: f64,
    x1: f64,
    h: f64,
}

fn stroke(x0: f64, x1: f64, h: f64) -> Stroke {
    Stroke { class: "residential".to_string(), x0, x1, h }
}

/// A flat deck solid from `x0` to `x1` across the middle of the tile.
fn deck(x0: f64, x1: f64, h: f64) -> Drawn {
    drawn("residential", 1, plane(x0, x1, 0.49, 0.51, h))
}

/// The ends of west to east strokes. Two ends face each other or point the same
/// way.
fn ends_of(all: &[Drawn], strokes: &[Stroke]) -> Vec<End> {
    let tips: Vec<(f64, f64, f64, String)> = strokes
        .iter()
        .flat_map(|s| vec![(s.x0, -1.0, s.h, s.class.clone()), (s.x1, 1.0, s.h, s.class.clone())])
        .collect();
    tips.iter()
        .map(|(x, out, h, class)| {
            let facing = tips
                .iter()
                .enumerate()
                .map(|(j, g)| Facing {
                    end: j,
                    distance: um((x - g.0).abs() * ACROSS_M) as u64,
                    turn: if g.1 == *out { um(std::f64::consts::PI) as u64 } else { 0 },
                })
                .collect();
            let approach = (0..=120).map(|k| probe(all, None, x - out * 0.25 * k as f64 / ACROSS_M, 0.5)).collect();
            End { class: class.clone(), paves: class != "footway", height: um(*h), at: probe(all, None, *x, 0.5), facing, approach }
        })
        .collect()
}

fn run(all: Vec<Drawn>, strokes: &[Stroke]) -> (Abutment, Vec<Metric>) {
    let ends = ends_of(&all, strokes);
    let roads = roads_of(all);
    let mut counted = Abutment::new(&Options::default());
    counted.visit(16, &roads, &ends, THICKNESS_UM);
    let mut c = Abutment::new(&Options::default());
    c.visit(16, &roads, &ends, THICKNESS_UM);
    (counted, c.finish())
}

#[test]
fn a_flush_joint_is_measured_once_and_as_zero() {
    let (lo, hi) = (0.5, 0.5 + 8.0 / ACROSS_M);
    let eps = 0.05 / ACROSS_M;
    let (_, mut m) = run(
        vec![deck(lo - eps, hi + eps, 400.0)],
        &[stroke(0.44, lo, 400.0), stroke(lo, hi, 400.0), stroke(hi, 0.56, 400.0)],
    );
    let plan = m.swap_remove(0).dist;
    assert_eq!(plan.count(), 2, "one sample per joint, not per carried end");
    assert!(plan.max().expect("samples") <= BREAK_UM, "a flush joint measured {:?} of plan break", plan.max());
}

#[test]
fn the_leftover_half_of_a_flush_joint_is_counted_as_such() {
    let (lo, hi) = (0.5, 0.5 + 8.0 / ACROSS_M);
    let eps = 0.05 / ACROSS_M;
    let (c, _) = run(
        vec![deck(lo - eps, hi + eps, 400.0)],
        &[stroke(0.44, lo, 400.0), stroke(lo, hi, 400.0), stroke(hi, 0.56, 400.0)],
    );
    assert_eq!((c.paired, c.second_half, c.unpaired), (2, 2, 0));
}

#[test]
fn a_moved_span_is_measured_in_plan_and_in_height() {
    // The approach stops two metres short of the deck and 0.3 m under it.
    let lo = 0.5;
    let hi = 0.5 + 20.0 / ACROSS_M;
    let (c, m) = run(vec![deck(lo, hi, 400.0)], &[stroke(0.4, lo - 2.0 / ACROSS_M, 399.7), stroke(lo, hi, 400.0)]);
    assert_eq!((c.paired, c.unpaired), (1, 1));
    assert_eq!(m[0].dist.max(), Some(2_000_000));
    assert_eq!(m[1].dist.max(), Some(300_000));
    assert_eq!(m[0].violations(), 1);
    assert!(matches!(&m[0].worst[0].note, Note::AbutmentPlan { step: 300_000, .. }));
    assert!(matches!(&m[1].worst[0].note, Note::AbutmentStep { above: true, plan: 2_000_000, .. }));
    assert!(m[2].skipped, "no asphalt is drawn on the tile");
}

#[test]
fn bare_ground_is_marched_into_the_approach() {
    // The approach's own band stops three metres short of its end.
    let lo = 0.5;
    let hi = 0.5 + 20.0 / ACROSS_M;
    let end = lo - 2.0 / ACROSS_M;
    let band = drawn("road_surface", 0, plane(0.3, end - 3.0 / ACROSS_M, 0.49, 0.51, 399.7));
    let (_, m) = run(vec![deck(lo, hi, 400.0), band], &[stroke(0.4, end, 399.7), stroke(lo, hi, 400.0)]);
    assert_eq!(m[2].dist.max(), Some(3_000_000));
    assert!(matches!(&m[2].worst[0].note, Note::AbutmentBare { class } if class == "residential"));
}

#[test]
fn a_tile_without_a_solved_structure_contributes_nothing() {
    let footbridge = drawn("footway", 1, plane(0.5, 0.52, 0.49, 0.51, 400.0));
    let (c, m) = run(vec![footbridge], &[stroke(0.4, 0.5, 400.0), stroke(0.5, 0.52, 400.0)]);
    assert_eq!((c.paired, c.second_half, c.unpaired), (0, 0, 0));
    assert!(m.iter().all(|x| x.skipped));
}

#[test]
fn a_bore_carries_its_road_a_thickness_over_its_floor() {
    // Floor 398.5, so the road runs at 400; a stroke at the roof is not carried.
    let tube = || {
        let floor = plane(0.5, 0.55, 0.49, 0.51, 398.5);
        let roof = plane(0.5, 0.55, 0.49, 0.51, 404.0);
        Mesh {
            x: [floor.x, roof.x].concat(),
            y: [floor.y, roof.y].concat(),
            z: [floor.z, roof.z].concat(),
            corners: vec![0, 1, 2, 0, 2, 3, 4, 5, 6, 4, 6, 7],
        }
    };
    let (c, _) = run(vec![drawn("residential", -1, tube())], &[stroke(0.4, 0.499, 400.0), stroke(0.5, 0.55, 400.0)]);
    assert_eq!((c.paired, c.unpaired), (1, 1));
    let (c, _) = run(vec![drawn("residential", -1, tube())], &[stroke(0.4, 0.499, 404.0), stroke(0.5, 0.55, 404.0)]);
    assert_eq!((c.paired, c.unpaired), (0, 0));
}

#[test]
fn an_end_turned_too_far_is_another_road() {
    let (lo, hi) = (0.5, 0.5 + 8.0 / ACROSS_M);
    let all = vec![deck(lo, hi, 400.0)];
    let strokes = [stroke(0.44, lo, 400.0), stroke(lo, hi, 400.0)];
    let count = |turned: u64| {
        let mut ends = ends_of(&all, &strokes);
        for e in ends.iter_mut() {
            for f in e.facing.iter_mut() {
                f.turn += turned;
            }
        }
        let roads = vec![deck(lo, hi, 400.0).road];
        let mut c = Abutment::new(&Options::default());
        c.visit(16, &roads, &ends, THICKNESS_UM);
        c.paired
    };
    assert!(count(PAIR_MAX_TURN) > 0);
    assert_eq!(count(PAIR_MAX_TURN + 1), 0);
}
