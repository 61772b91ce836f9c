use arpentry::verify::checks::clearance::Clearance;
use arpentry::verify::checks::Options;
use arpentry::verify::scene::{Probe, RoadMesh};
use arpentry::verify::{Invariant, Metric, Note, Place};

/// A drawn triangle mesh over the unit tile, its heights in metres.
struct Mesh {
    x: Vec<f64>,
    y: Vec<f64>,
    z: Vec<f64>,
    corners: Vec<usize>,
}

impl Mesh {
    /// Heights of every triangle covering a plan point.
    fn answers(&self, px: f64, py: f64) -> Vec<f64> {
        let mut out = Vec::new();
        for t in self.corners.chunks(3) {
            let (a, b, c) = (t[0], t[1], t[2]);
            let d = (self.y[b] - self.y[c]) * (self.x[a] - self.x[c]) + (self.x[c] - self.x[b]) * (self.y[a] - self.y[c]);
            if d.abs() < 1e-15 {
                continue;
            }
            let u = ((self.y[b] - self.y[c]) * (px - self.x[c]) + (self.x[c] - self.x[b]) * (py - self.y[c])) / d;
            let v = ((self.y[c] - self.y[a]) * (px - self.x[c]) + (self.x[a] - self.x[c]) * (py - self.y[c])) / d;
            let w = 1.0 - u - v;
            if u >= -1e-9 && v >= -1e-9 && w >= -1e-9 {
                out.push(u * self.z[a] + v * self.z[b] + w * self.z[c]);
            }
        }
        out
    }

    fn height(&self, px: f64, py: f64) -> Option<i64> {
        self.answers(px, py).first().map(|h| um(*h))
    }

    fn range(&self, px: f64, py: f64) -> Option<(i64, i64)> {
        let all = self.answers(px, py);
        if all.is_empty() {
            return None;
        }
        let low = all.iter().fold(f64::INFINITY, |a, b| a.min(*b));
        let high = all.iter().fold(f64::NEG_INFINITY, |a, b| a.max(*b));
        Some((um(low), um(high)))
    }
}

fn um(metres: f64) -> i64 {
    (metres * 1e6).round() as i64
}

/// A flat quad over a plan rectangle.
fn plane(x0: f64, x1: f64, y0: f64, y1: f64, h: f64) -> Mesh {
    Mesh { x: vec![x0, x1, x1, x0], y: vec![y0, y0, y1, y1], z: vec![h; 4], corners: vec![0, 1, 2, 0, 2, 3] }
}

/// A drawn road feature and its mesh.
struct Drawn {
    road: RoadMesh,
    mesh: Mesh,
}

fn drawn(class: &str, level: i64, mesh: Mesh) -> Drawn {
    let pavement = level == 0 && (class == "road_surface" || class == "rail_surface");
    let rim = class.ends_with("_casing") || class.ends_with("_rim");
    let fitted = level > 0 && (class == "footway" || class == "path");
    let road = RoadMesh {
        class: class.to_string(),
        level,
        band: String::new(),
        sheet: None,
        pavement,
        rim,
        casing: class.ends_with("_casing"),
        deck: level > 0,
        bore: level < 0,
        fitted,
        rail: class.contains("rail"),
    };
    Drawn { road, mesh }
}

fn place(px: f64, py: f64) -> Place {
    Place { lon: (px * 1e9) as i64, lat: (py * 1e9) as i64 }
}

/// What the meshes answer at a plan point.
fn probe(all: &[Drawn], terrain: Option<&Mesh>, px: f64, py: f64) -> Probe {
    Probe {
        owned: (0.0..=1.0).contains(&px) && (0.0..=1.0).contains(&py),
        place: place(px, py),
        terrain: terrain.and_then(|t| t.height(px, py)),
        heights: all.iter().map(|d| d.mesh.height(px, py)).collect(),
        ranges: all.iter().map(|d| d.mesh.range(px, py)).collect(),
        spans: all.iter().map(|d| d.mesh.range(px, py)).collect(),
    }
}

fn roads_of(all: Vec<Drawn>) -> Vec<RoadMesh> {
    all.into_iter().map(|d| d.road).collect()
}

/// A flat slab spanning the middle of the tile: `top` at its running surface,
/// `top - thickness` at its soffit, both faces present.
fn slab(top: f64, thickness: f64) -> Mesh {
    let upper = plane(0.3, 0.7, 0.4, 0.6, top);
    let lower = plane(0.3, 0.7, 0.4, 0.6, top - thickness);
    Mesh {
        x: [upper.x, lower.x].concat(),
        y: [upper.y, lower.y].concat(),
        z: [upper.z, lower.z].concat(),
        corners: vec![0, 1, 2, 0, 2, 3, 4, 5, 6, 4, 6, 7],
    }
}

fn flat(z: f64) -> Mesh {
    plane(0.0, 1.0, 0.0, 1.0, z)
}

const THICKNESS_UM: i64 = 1_500_000;

fn run(all: Vec<Drawn>, terrain: Option<Mesh>) -> Vec<Metric> {
    let opt = Options { spacing: 3_000_000, ..Options::default() };
    let mut samples: Vec<Vec<Probe>> = Vec::new();
    for d in &all {
        let mut points = Vec::new();
        for i in 0..21 {
            for j in 0..21 {
                let (px, py) = (i as f64 / 20.0, j as f64 / 20.0);
                if d.mesh.height(px, py).is_some() {
                    points.push(probe(&all, terrain.as_ref(), px, py));
                }
            }
        }
        samples.push(points);
    }
    let mut c = Clearance::new(&opt, THICKNESS_UM);
    c.visit(16, &roads_of(all), &samples);
    c.finish()
}

fn worst(m: &Metric) -> f64 {
    m.worst_value().unwrap() as f64 / 1e6
}

#[test]
fn a_deck_meeting_the_road_at_grade_is_not_a_violation() {
    let m = run(
        vec![drawn("road_surface", 0, flat(100.0)), drawn("motorway", 1, slab(100.0, 1.5))],
        Some(flat(100.0)),
    );
    assert_eq!(m[0].violations(), 0, "touchdown is not an ordering inversion");
    assert_eq!(m[1].violations(), 0, "a soffit one thickness low is a touchdown");
}

#[test]
fn a_deck_flying_over_the_road_is_not_a_violation_either() {
    let m = run(
        vec![drawn("road_surface", 0, flat(100.0)), drawn("motorway", 1, slab(107.0, 1.5))],
        Some(flat(100.0)),
    );
    assert_eq!(m[0].violations(), 0);
    assert!((worst(&m[0]) - 7.0).abs() < 1e-3);
}

#[test]
fn an_elevated_structure_under_the_at_grade_asphalt_is_caught() {
    let m = run(
        vec![drawn("road_surface", 0, flat(100.0)), drawn("path", 1, slab(97.5, 1.5))],
        Some(flat(90.0)),
    );
    assert!(m[0].violations() > 0);
    assert!((worst(&m[0]) + 2.5).abs() < 1e-3);
    assert!(!m[0].worst.is_empty());
    assert!(matches!(&m[0].worst[0].note, Note::DeckOrder { top: 97_500_000, asphalt: 100_000_000, level: 1, .. }));
}

#[test]
fn a_deck_ploughing_into_the_hillside_is_caught_past_its_own_thickness() {
    let m = run(vec![drawn("motorway", 1, slab(106.5, 1.5))], Some(flat(110.0)));
    assert!(m[1].violations() > 0);
    assert!((worst(&m[1]) + 5.0).abs() < 1e-3);
}

#[test]
fn a_bore_in_the_open_air_is_caught_but_a_portal_mouth_is_not() {
    let m = run(vec![drawn("motorway", -1, slab(103.0, 5.0))], Some(flat(100.0)));
    assert!(m[2].violations() > 0);
    let m = run(vec![drawn("motorway", -1, slab(100.0, 5.0))], Some(flat(100.0)));
    assert_eq!(m[2].violations(), 0);
}

#[test]
fn a_buried_bore_reports_its_cover_as_a_positive_depth() {
    let m = run(vec![drawn("motorway", -1, slab(90.0, 5.0))], Some(flat(100.0)));
    assert_eq!(m[2].violations(), 0);
    assert!((worst(&m[2]) - 10.0).abs() < 1e-3);
}

#[test]
fn two_at_grade_bands_stacked_in_the_air_are_caught() {
    let m = run(vec![drawn("rail_surface", 0, flat(524.0)), drawn("rail_surface", 0, flat(532.5))], None);
    let stack = m.iter().find(|x| x.id == "order.grade_stack").unwrap();
    assert!(stack.violations() > 0);
    assert!((worst(stack) - 8.5).abs() < 1e-3);
    assert_eq!(stack.law, Invariant::I3);
}

#[test]
fn abutting_bands_at_one_height_are_the_populations_floor() {
    let m = run(vec![drawn("road_surface", 0, flat(100.0)), drawn("rail_surface", 0, flat(100.0))], None);
    let stack = m.iter().find(|x| x.id == "order.grade_stack").unwrap();
    assert_eq!(stack.violations(), 0, "coincident bands owe each other nothing");
    assert!(!stack.dist.is_empty(), "but the pair is in the population");
}

#[test]
fn an_extract_without_structures_skips_rather_than_scoring_clean() {
    let m = run(vec![drawn("road_surface", 0, flat(100.0))], Some(flat(100.0)));
    assert!(m.iter().all(|x| x.skipped), "no structures means nothing measured");
}

#[test]
fn a_stacked_pair_is_measured_from_the_upper_band_alone() {
    let m = run(vec![drawn("road_surface", 0, flat(100.0)), drawn("rail_surface", 0, flat(104.0))], None);
    let stack = &m[3];
    assert_eq!(stack.dist.count(), 441);
    assert_eq!(stack.dist.min(), Some(4_000_000));
    assert_eq!(stack.dist.max(), Some(4_000_000));
    assert_eq!(stack.worst.len(), 8);
    assert!(matches!(
        &stack.worst[0].note,
        Note::GradeStack { own: 104_000_000, below: 100_000_000, upper, lower } if upper == "rail_surface" && lower == "road_surface"
    ));
}

#[test]
fn a_point_the_neighbour_owns_is_not_measured() {
    let all = vec![drawn("motorway", 1, slab(90.0, 1.5))];
    let mut p = probe(&all, Some(&flat(100.0)), 0.5, 0.5);
    p.owned = false;
    let mut c = Clearance::new(&Options::default(), THICKNESS_UM);
    c.visit(16, &roads_of(all), &[vec![p]]);
    assert!(c.finish().iter().all(|m| m.skipped));
}

#[test]
fn a_buried_soffit_and_an_exposed_roof_name_their_heights() {
    let m = run(vec![drawn("motorway", 1, slab(106.5, 1.5))], Some(flat(110.0)));
    assert_eq!(m[1].threshold, -1_500_000 - 500_000);
    assert!(matches!(&m[1].worst[0].note, Note::DeckBuried { soffit: 105_000_000, ground: 110_000_000, level: 1, .. }));
    let m = run(vec![drawn("motorway", -1, slab(103.0, 5.0))], Some(flat(100.0)));
    assert!(matches!(&m[2].worst[0].note, Note::BoreExposed { roof: 103_000_000, ground: 100_000_000, level: -1, .. }));
}
