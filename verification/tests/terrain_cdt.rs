//! Breakline-constrained terrain, triangulated for real.
use std::collections::{HashMap, HashSet};
use arpentry::clip::{clip_to_bounds, proper_pieces};
use arpentry::project::{Place, TileEdges, BUFFER, EXTENT};
use arpentry::terrain::{elevated_mesh, TerrainMesh};
use arpentry::terrain_cdt::{draw, plan, Breakline, Face};
use arpentry::tile_build::geometry::Corner;
use spade::{ConstrainedDelaunayTriangulation, Point2, Triangulation};

#[derive(Clone, Copy)]
struct Bounds {
    west: f64,
    south: f64,
    east: f64,
    north: f64,
}

impl Bounds {
    fn of_tile(z: u32, x: u32, y: u32) -> Bounds {
        let n = f64::from(1u32 << z);
        let lon = |c: u32| f64::from(c) / n * 360.0 - 180.0;
        let lat = |r: u32| f64::from(r) / n * 180.0 - 90.0;
        Bounds { west: lon(x), south: lat(y), east: lon(x + 1), north: lat(y + 1) }
    }

    fn width(&self) -> f64 {
        self.east - self.west
    }

    fn height(&self) -> f64 {
        self.north - self.south
    }

    fn corner(&self, c: (f64, f64)) -> Corner {
        let q = |f: f64| (16384.0 + f * 32768.0).round().clamp(0.0, 65535.0) as u16;
        Corner { x: q((c.0 - self.west) / self.width()), y: q((c.1 - self.south) / self.height()) }
    }

    fn place(&self, x: u16, y: u16) -> (f64, f64) {
        let f = |q: u16| (f64::from(q) - 16384.0) / 32768.0;
        (self.west + f(x) * self.width(), self.south + f(y) * self.height())
    }
}

fn tile() -> Bounds {
    Bounds::of_tile(16, 34000, 23000)
}

/// Clips a segment to the tile proper.
fn clip(a: (f64, f64), b: (f64, f64), t: &Bounds) -> Option<((f64, f64), (f64, f64))> {
    let nano = |deg: f64| (deg * 1e9).round() as i64;
    let place = |c: (f64, f64)| Place { lon: nano(c.0), lat: nano(c.1) };
    let deg = |p: Place| (p.lon as f64 / 1e9, p.lat as f64 / 1e9);
    let edges =
        TileEdges { west: nano(t.west), south: nano(t.south), east: nano(t.east), north: nano(t.north) };
    clip_to_bounds(place(a), place(b), &edges).map(|(p, q)| (deg(p), deg(q)))
}

/// Plans, triangulates and draws one tile. Gives the mesh and its lowest height.
fn constrained_mesh(
    grid: u32,
    b: &Bounds,
    segments: &[((f64, f64), (f64, f64))],
    sample: &dyn Fn(f64, f64) -> f64,
) -> Option<(TerrainMesh, f64)> {
    let lines: Vec<Breakline> = segments
        .iter()
        .filter_map(|s| clip(s.0, s.1, b))
        .map(|s| Breakline { a: b.corner(s.0), b: b.corner(s.1) })
        .collect();
    let p = plan(grid, &lines)?;
    let mut cdt: ConstrainedDelaunayTriangulation<Point2<f64>> =
        ConstrainedDelaunayTriangulation::new();
    let point = |x: u16, y: u16| Point2::new(f64::from(x), f64::from(y));
    let lattice: Vec<_> =
        p.xs.iter().zip(&p.ys).map(|(x, y)| cdt.insert(point(*x, *y)).unwrap()).collect();
    for d in &p.diagonals {
        let (u, v) = (lattice[d.0 as usize], lattice[d.1 as usize]);
        if cdt.can_add_constraint(u, v) {
            cdt.add_constraint(u, v);
        }
    }
    for l in &p.constraints {
        let u = cdt.insert(point(l.a.x, l.a.y)).unwrap();
        let v = cdt.insert(point(l.b.x, l.b.y)).unwrap();
        if u != v {
            cdt.add_constraint_and_split(u, v, |q| q);
        }
    }
    let (mut x, mut y, mut z) = (Vec::new(), Vec::new(), Vec::new());
    let mut lowest = f64::INFINITY;
    for v in cdt.vertices() {
        let at = v.position();
        let qx = at.x.round().clamp(0.0, 65535.0) as u16;
        let qy = at.y.round().clamp(0.0, 65535.0) as u16;
        let (lon, lat) = b.place(qx, qy);
        let e = sample(lon, lat);
        lowest = lowest.min(e);
        x.push(qx);
        y.push(qy);
        z.push((e * 1000.0).round() as i32);
    }
    let faces: Vec<Face> = cdt
        .inner_faces()
        .map(|f| {
            let [a, b, c] = f.vertices().map(|v| v.fix().index() as u32);
            Face { a, b, c }
        })
        .collect();
    let normals = vec![0i8; 2 * x.len()];
    draw(x, y, z, normals, &faces, lowest.is_finite()).map(|m| (m, lowest))
}

#[test]
fn no_constraints_means_no_mesh() {
    assert!(constrained_mesh(16, &tile(), &[], &|_, _| 500.0).is_none());
}

#[test]
fn a_breakline_shorter_than_a_quantum_is_no_constraint() {
    let b = tile();
    let p = (b.west + b.width() * 0.5, b.south + b.height() * 0.5);
    assert!(constrained_mesh(16, &b, &[(p, p)], &|_, _| 500.0).is_none());
}

#[test]
fn lattice_survives_and_breakline_vertices_appear() {
    let b = tile();
    let grid = 16u32;
    let a = (b.west + b.width() * 0.21, b.south + b.height() * 0.33);
    let c = (b.west + b.width() * 0.74, b.south + b.height() * 0.61);
    let (m, _) =
        constrained_mesh(grid, &b, &[(a, c)], &|_, _| 500.0).expect("a constrained mesh");
    let n = (grid + 1) as usize;
    assert!(m.x.len() > n * n, "constraint vertices must be added");
    let step = EXTENT / grid;
    for row in 0..=grid {
        for col in 0..=grid {
            let (qx, qy) = ((BUFFER + col * step) as u16, (BUFFER + row * step) as u16);
            assert!(
                m.x.iter().zip(&m.y).any(|(&x, &y)| x == qx && y == qy),
                "lattice vertex ({qx},{qy}) missing"
            );
        }
    }
    let mut edge_uses: HashMap<(u32, u32), u32> = HashMap::new();
    for t in m.indices.chunks(3) {
        for k in 0..3 {
            let (p, q) = (t[k], t[(k + 1) % 3]);
            *edge_uses.entry((p.min(q), p.max(q))).or_insert(0) += 1;
        }
    }
    assert!(edge_uses.values().all(|&u| u <= 2), "an edge used thrice is a fold");
}

#[test]
fn untouched_cells_keep_the_fixed_diagonal() {
    let b = tile();
    let grid = 8u32;
    let a = (b.west + b.width() * 0.02, b.south + b.height() * 0.03);
    let c = (b.west + b.width() * 0.09, b.south + b.height() * 0.08);
    let field = |lon: f64, lat: f64| (lon * 9000.0).sin() * 40.0 + (lat * 7000.0).cos() * 25.0;
    let (m, _) = constrained_mesh(grid, &b, &[(a, c)], &field).expect("a constrained mesh");
    let (plain, _, _) = elevated_mesh(grid, vec![0; 81], vec![0; 162]);
    let tri_set = |m: &TerrainMesh| -> HashSet<[(u16, u16); 3]> {
        m.indices
            .chunks(3)
            .map(|t| {
                let mut v: Vec<(u16, u16)> =
                    t.iter().map(|&i| (m.x[i as usize], m.y[i as usize])).collect();
                v.sort_unstable();
                [v[0], v[1], v[2]]
            })
            .filter(|v| v.iter().all(|&(x, y)| x >= 32768 && y >= 32768))
            .collect()
    };
    assert!(!tri_set(&m).is_empty());
    assert_eq!(tri_set(&m), tri_set(&plain), "clean cells must keep the fixed diagonal");
}

#[test]
fn crossing_constraints_split_and_borders_are_exact() {
    let b = tile();
    let mid = b.south + b.height() * 0.5;
    let axis = b.west + b.width() * 0.5;
    let cross1 = ((b.west - b.width() * 0.1, mid), (b.east + b.width() * 0.1, mid));
    let cross2 = ((axis, b.south - b.height() * 0.1), (axis, b.north + b.height() * 0.1));
    let (m, _) =
        constrained_mesh(16, &b, &[cross1, cross2], &|_, _| 500.0).expect("a constrained mesh");
    let qy = b.corner((b.west, mid)).y;
    assert!(
        m.x.iter().zip(&m.y).any(|(&x, &y)| x == 16384 && y == qy),
        "west border vertex missing"
    );
    assert!(
        m.x.iter().zip(&m.y).any(|(&x, &y)| x == 49152 && y == qy),
        "east border vertex missing"
    );
}

#[test]
fn a_bench_between_crests_is_held_flat() {
    let b = tile();
    let y0 = b.south + b.height() * 0.50;
    let y1 = b.south + b.height() * 0.525;
    let lines = [
        ((b.west - 0.001, y0), (b.east + 0.001, y0)),
        ((b.west - 0.001, y1), (b.east + 0.001, y1)),
    ];
    let bench = move |_: f64, lat: f64| if lat > y0 && lat < y1 { 490.0 } else { 500.0 };
    let (m, emin) = constrained_mesh(16, &b, &lines, &bench).expect("a constrained mesh");
    assert_eq!(emin, 490.0, "the bench floor must be sampled");
    let (qy0, qy1) = (b.corner((b.west, y0)).y, b.corner((b.west, y1)).y);
    for t in m.indices.chunks(3) {
        let ys: Vec<u16> = t.iter().map(|&i| m.y[i as usize]).collect();
        let below = ys.iter().any(|&y| y < qy0);
        let above = ys.iter().any(|&y| y > qy1);
        let inside = ys.iter().any(|&y| y > qy0 && y < qy1);
        assert!(
            !(below && above && inside),
            "a triangle bridges the bench: ys={ys:?} (crest at {qy0}/{qy1})"
        );
    }
}

#[test]
fn faces_are_turned_round_or_left_out() {
    let x = vec![0, 10, 0, 20];
    let y = vec![0, 0, 10, 0];
    let faces = [
        Face { a: 0, b: 1, c: 2 },
        Face { a: 0, b: 2, c: 1 },
        Face { a: 0, b: 1, c: 3 },
    ];
    let m = draw(x.clone(), y.clone(), vec![0; 4], vec![0; 8], &faces, true).unwrap();
    assert_eq!(m.indices, vec![0, 1, 2, 0, 1, 2]);
    assert!(draw(x.clone(), y.clone(), vec![0; 4], vec![0; 8], &faces[2..], true).is_none());
    assert!(draw(x, y, vec![0; 4], vec![0; 8], &faces, false).is_none());
}

#[test]
fn a_breakline_frees_the_cells_its_box_touches() {
    let c = |x: u16, y: u16| Corner { x, y };
    // Two by two cells; the line lies in the south-west one.
    let line = Breakline { a: c(17000, 17000), b: c(20000, 18000) };
    let p = plan(2, &[line]).unwrap();
    assert_eq!(p.diagonals, vec![(1, 5), (3, 7), (4, 8)]);
    assert_eq!(p.xs.len(), 9);
    // Outside the tile proper nothing is touched.
    let far = Breakline { a: c(0, 0), b: c(16000, 16000) };
    assert_eq!(plan(2, &[far]).unwrap().diagonals.len(), 4);
}

fn at(lon: i64, lat: i64) -> Place {
    Place { lon, lat }
}

fn square(west: i64, south: i64) -> TileEdges {
    TileEdges { west, south, east: west + 100, north: south + 100 }
}

#[test]
fn a_line_is_cut_at_the_edges() {
    let t = square(0, 0);
    assert_eq!(clip_to_bounds(at(10, 20), at(90, 80), &t), Some((at(10, 20), at(90, 80))));
    assert_eq!(clip_to_bounds(at(-100, 50), at(200, 50), &t), Some((at(0, 50), at(100, 50))));
    assert_eq!(clip_to_bounds(at(50, 200), at(50, -1), &t), Some((at(50, 100), at(50, 0))));
    assert_eq!(clip_to_bounds(at(-50, 0), at(100, 150), &t), Some((at(0, 50), at(50, 100))));
    // A third of the way, to the nearest unit.
    assert_eq!(clip_to_bounds(at(-10, 0), at(20, 100), &t), Some((at(0, 33), at(20, 100))));
    // One point is a line too, and a corner can be touched.
    assert_eq!(clip_to_bounds(at(7, 7), at(7, 7), &t), Some((at(7, 7), at(7, 7))));
    assert_eq!(clip_to_bounds(at(-5, 5), at(5, -5), &t), Some((at(0, 0), at(0, 0))));
}

#[test]
fn a_line_outside_the_tile_is_dropped() {
    let t = square(0, 0);
    assert_eq!(clip_to_bounds(at(-1, 0), at(-1, 100), &t), None, "beside the west edge");
    assert_eq!(clip_to_bounds(at(0, 101), at(100, 101), &t), None, "above the north edge");
    assert_eq!(clip_to_bounds(at(-50, 40), at(40, -60), &t), None, "past the corner");
    assert_eq!(clip_to_bounds(at(-50, 50), at(-10, 50), &t), None, "short of the tile");
    assert_eq!(clip_to_bounds(at(101, 7), at(101, 7), &t), None, "one point outside");
}

#[test]
fn neighbours_end_a_line_at_the_same_place() {
    let (left, right, above) = (square(0, 0), square(100, 0), square(0, 100));
    let (a, b) = (at(13, 29), at(187, 71));
    let west = clip_to_bounds(a, b, &left).unwrap();
    let east = clip_to_bounds(a, b, &right).unwrap();
    assert_eq!(west, (a, at(100, 50)));
    assert_eq!(east, (at(100, 50), b));
    let back = clip_to_bounds(b, a, &right).unwrap();
    assert_eq!(back.1, clip_to_bounds(b, a, &left).unwrap().0);
    let (a, b) = (at(20, 70), at(60, 190));
    assert_eq!(clip_to_bounds(a, b, &left).unwrap().1, at(30, 100));
    assert_eq!(clip_to_bounds(a, b, &above).unwrap().0, at(30, 100));
}

#[test]
fn a_line_that_leaves_and_comes_back_is_two_pieces() {
    let t = square(0, 0);
    let line = [at(10, 50), at(50, 50), at(150, 50), at(150, 80), at(50, 80), at(20, 80)];
    assert_eq!(
        proper_pieces(&line, &t),
        vec![vec![at(10, 50), at(50, 50), at(100, 50)], vec![at(100, 80), at(50, 80), at(20, 80)]]
    );
    // Out and back over the same place is one run.
    assert_eq!(
        proper_pieces(&[at(50, 50), at(150, 50), at(50, 50)], &t),
        vec![vec![at(50, 50), at(100, 50), at(50, 50)]]
    );
    assert!(proper_pieces(&[at(5, 5)], &t).is_empty());
    assert!(proper_pieces(&[], &t).is_empty());
    assert!(proper_pieces(&[at(-5, 5), at(-5, 9)], &t).is_empty());
}
