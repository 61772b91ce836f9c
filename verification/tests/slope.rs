use arpentry::verify::checks::slope::{Face, Ground, Slope, Stand, GROUND_SLOPE, ROAD_GRADE, TEARING_UM};
use arpentry::verify::checks::Options;
use arpentry::verify::{Metric, Note, Place};

/// A triangle mesh, all three coordinates in metres.
struct Mesh {
    x: Vec<f64>,
    y: Vec<f64>,
    z: Vec<f64>,
    corners: Vec<usize>,
}

fn millionths(v: f64) -> i64 {
    (v * 1e6).round() as i64
}

fn place(i: usize) -> Place {
    Place { lon: i as i64, lat: 0 }
}

impl Mesh {
    /// Whether no second triangle shares the edge from `a` to `b`.
    fn silhouette(&self, a: usize, b: usize) -> bool {
        let mut n = 0;
        for t in self.corners.chunks(3) {
            for (p, q) in [(t[0], t[1]), (t[1], t[2]), (t[2], t[0])] {
                if (p, q) == (a, b) || (p, q) == (b, a) {
                    n += 1;
                }
            }
        }
        n == 1
    }

    fn faces(&self) -> Vec<Face> {
        self.corners
            .chunks(3)
            .enumerate()
            .map(|(i, t)| {
                let (a, b, c) = (t[0], t[1], t[2]);
                let (ux, uy, uz) = (self.x[b] - self.x[a], self.y[b] - self.y[a], self.z[b] - self.z[a]);
                let (vx, vy, vz) = (self.x[c] - self.x[a], self.y[c] - self.y[a], self.z[c] - self.z[a]);
                let d = ux * vy - uy * vx;
                let gx = (uz * vy - vz * uy) / d;
                let gy = (vz * ux - uz * vx) / d;
                let high = self.z[a].max(self.z[b]).max(self.z[c]);
                let low = self.z[a].min(self.z[b]).min(self.z[c]);
                Face {
                    place: place(i),
                    slope: millionths((gx * gx + gy * gy).sqrt()),
                    rise: millionths(high - low),
                    rim: self.silhouette(a, b) || self.silhouette(b, c) || self.silhouette(c, a),
                }
            })
            .collect()
    }

    fn neighbours(&self, v: usize) -> Vec<usize> {
        let mut out = Vec::new();
        for t in self.corners.chunks(3) {
            if t.contains(&v) {
                for w in t {
                    if *w != v && !out.contains(w) {
                        out.push(*w);
                    }
                }
            }
        }
        out
    }

    /// How far a vertex stands off its neighbours' mean, where its neighbours
    /// surround it evenly.
    fn residual(&self, v: usize) -> Option<f64> {
        let near = self.neighbours(v);
        if near.len() < 6 {
            return None;
        }
        Some(self.z[v] - near.iter().map(|w| self.z[*w]).sum::<f64>() / near.len() as f64)
    }

    /// The interior vertices. One alternates as far as the vertices on both
    /// sides of it stand off the other way.
    fn stands(&self) -> Vec<Stand> {
        let mut out = Vec::new();
        for v in 0..self.x.len() {
            let Some(r) = self.residual(v) else { continue };
            let against = |side: f64| {
                self.neighbours(v)
                    .iter()
                    .filter(|w| (self.x[**w] - self.x[v]) * side > 0.0)
                    .filter_map(|w| self.residual(*w))
                    .map(|s| -s * r.signum())
                    .fold(0.0f64, |a, b| a.max(b))
            };
            let opposed = against(-1.0).min(against(1.0));
            out.push(Stand {
                place: place(v),
                amplitude: millionths(r.abs().min(opposed)),
                up: millionths(r.abs()),
                down: millionths(opposed),
            });
        }
        out
    }
}

fn run(terrain: Option<Mesh>, roads: Vec<Mesh>) -> Vec<Metric> {
    let ground = terrain.map(|t| Ground { faces: t.faces(), vertices: t.stands() });
    let bands: Vec<Vec<Face>> = roads.iter().map(|r| r.faces()).collect();
    let mut s = Slope::new(&Options::default());
    s.visit(16, &ground, &bands);
    s.finish()
}

fn worst(m: &Metric) -> f64 {
    m.worst_value().unwrap() as f64 / 1e6
}

/// Metres across the tile.
const ACROSS_M: f64 = 400.0;

#[test]
fn ordinary_ground_is_not_flagged() {
    let ground = Mesh {
        x: vec![0.0, 0.3 * ACROSS_M, 0.3 * ACROSS_M, 0.0],
        y: vec![0.0, 0.0, ACROSS_M, ACROSS_M],
        z: vec![100.0, 120.0, 120.0, 100.0],
        corners: vec![0, 1, 2, 0, 2, 3],
    };
    let m = run(Some(ground), Vec::new());
    assert_eq!(m[0].violations(), 0, "slope was {:?}", m[0].worst_value());
}

#[test]
fn a_manufactured_wall_sliver_is_caught() {
    let d = 0.5;
    let ground =
        Mesh { x: vec![0.0, d, 0.0], y: vec![0.0, 0.0, d], z: vec![100.0, 110.0, 100.0], corners: vec![0, 1, 2] };
    let m = run(Some(ground), Vec::new());
    assert!(m[0].violations() > 0, "a 20:1 face must be flagged");
    assert!(worst(&m[0]) > 10.0, "{:?}", m[0].worst_value());
    assert!(matches!(m[0].worst[0].note, Note::TerrainFace { rise: 10_000_000 }), "the note must give the height spanned");
}

#[test]
fn a_steep_face_spanning_nothing_is_not_a_wall() {
    let d = 0.005;
    let ground =
        Mesh { x: vec![0.0, d, 0.0], y: vec![0.0, 0.0, d], z: vec![100.0, 100.02, 100.0], corners: vec![0, 1, 2] };
    let m = run(Some(ground), Vec::new());
    assert!(m[0].dist.is_empty(), "a 2 cm rise must not be counted as a cliff");
}

#[test]
fn the_kerb_rim_is_not_counted_but_interior_asphalt_is() {
    let w = 4.0;
    let rim = Mesh { x: vec![0.0, w, w], y: vec![0.0, 0.0, w], z: vec![100.0, 100.0, 96.0], corners: vec![0, 1, 2] };
    let m = run(None, vec![rim]);
    assert!(m[1].dist.is_empty(), "an all-silhouette mesh has no interior to score");
}

/// A fully triangulated grid with a height per column.
fn grid(xs: &[f64], ys: &[f64], z_per_col: &[f64]) -> Mesh {
    let (nx, ny) = (xs.len(), ys.len());
    let mut m = Mesh { x: Vec::new(), y: Vec::new(), z: Vec::new(), corners: Vec::new() };
    for &y in ys {
        for (i, &x) in xs.iter().enumerate() {
            m.x.push(x);
            m.y.push(y);
            m.z.push(z_per_col[i]);
        }
    }
    for r in 0..ny - 1 {
        for c in 0..nx - 1 {
            let (a, b) = (r * nx + c, r * nx + c + 1);
            let (d, e) = ((r + 1) * nx + c, (r + 1) * nx + c + 1);
            m.corners.extend_from_slice(&[a, b, e, a, e, d]);
        }
    }
    m
}

#[test]
fn an_interior_fold_in_the_asphalt_is_caught() {
    let road = grid(&[0.0, 10.0, 11.0, 21.0, 31.0], &[0.0, 10.0, 20.0, 30.0], &[100.0, 100.0, 95.0, 95.0, 95.0]);
    let m = run(None, vec![road]);
    assert!(m[1].violations() > 0, "a 5 m drop over 1 m of asphalt must be flagged");
    assert!(worst(&m[1]) > 4.0, "{:?}", m[1].worst_value());
    assert!(matches!(m[1].worst[0].note, Note::RoadFace { rise: 5_000_000 }));
}

fn tearing(terrain: Mesh) -> Metric {
    run(Some(terrain), Vec::new()).swap_remove(2)
}

#[test]
fn a_wall_is_a_face_and_not_a_tear() {
    let xs = [0.0, 3.0, 6.0, 9.0, 12.0, 15.0, 18.0];
    let ys = [0.0, 3.0, 6.0, 9.0, 12.0];
    let m = tearing(grid(&xs, &ys, &[100.0, 100.0, 100.0, 106.0, 106.0, 106.0, 106.0]));
    assert!(!m.dist.is_empty(), "the lattice interior must have been measured");
    assert_eq!(m.violations(), 0, "a wall must not read as tearing: {:?}", m.worst_value());
}

#[test]
fn a_sawtooth_is_caught() {
    let xs = [0.0, 3.0, 6.0, 9.0, 12.0, 15.0, 18.0];
    let ys = [0.0, 3.0, 6.0, 9.0, 12.0];
    let m = tearing(grid(&xs, &ys, &[100.0, 101.5, 100.0, 101.5, 100.0, 101.5, 100.0]));
    assert!(m.violations() > 0, "an alternating lattice must be flagged");
    let w = worst(&m);
    assert!((0.9..1.5).contains(&w), "amplitude in metres expected, got {w}");
    assert!(matches!(m.worst[0].note, Note::Tearing { .. }));
}

#[test]
fn a_smooth_hillside_does_not_tear() {
    let xs = [0.0, 3.0, 6.0, 9.0, 12.0, 15.0, 18.0];
    let ys = [0.0, 3.0, 6.0, 9.0, 12.0];
    let m = tearing(grid(&xs, &ys, &[100.0, 102.5, 105.0, 107.5, 110.0, 112.5, 115.0]));
    assert!(!m.dist.is_empty());
    assert_eq!(m.violations(), 0, "a 1:1.2 flank is steep, not torn");
}

#[test]
fn a_genuinely_steep_street_is_left_alone() {
    let road =
        grid(&[0.0, 20.0, 40.0, 60.0, 80.0], &[0.0, 6.0, 12.0, 18.0], &[100.0, 103.0, 106.0, 109.0, 112.0]);
    let m = run(None, vec![road]);
    assert!(!m[1].dist.is_empty(), "the interior must actually have been measured");
    assert_eq!(m[1].violations(), 0, "worst was {:?}", m[1].worst_value());
}

fn face(slope: i64, rise: i64, rim: bool) -> Face {
    Face { place: place(0), slope, rise, rim }
}

#[test]
fn a_silhouette_face_counts_as_terrain_only() {
    let f = face(3_000_000, 100_000, true);
    let mut s = Slope::new(&Options::default());
    s.visit(16, &Some(Ground { faces: vec![f], vertices: Vec::new() }), &[vec![f]]);
    let m = s.finish();
    assert_eq!(m[0].dist.max(), Some(3_000_000));
    assert_eq!(m[0].violations(), 1);
    assert!(m[1].skipped && m[2].skipped);
}

#[test]
fn a_face_at_its_limit_is_not_past_it() {
    assert_eq!((GROUND_SLOPE, ROAD_GRADE, TEARING_UM), (2_000_000, 300_000, 500_000));
    let ground = Ground {
        faces: vec![face(2_000_000, 100_000, false), face(9_000_000, 99_999, false)],
        vertices: vec![Stand { place: place(1), amplitude: 500_000, up: 600_000, down: 500_000 }],
    };
    let mut s = Slope::new(&Options::default());
    s.visit(16, &Some(ground), &[vec![face(300_000, 100_000, false), face(300_001, 100_000, false)]]);
    let m = s.finish();
    assert_eq!((m[0].dist.count(), m[0].violations()), (1, 0));
    assert_eq!((m[1].dist.count(), m[1].violations()), (2, 1));
    assert_eq!((m[2].dist.count(), m[2].violations()), (1, 0));
}
