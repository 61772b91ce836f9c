//! Terrain meshes and the drape that mirrors them.
use arpentry::project::EXTENT;
use arpentry::terrain::{
    cell_at, elevated_mesh, encode_octahedral, flat_mesh, grid_for, surface_height, Cell, Frame,
    TerrainMesh,
    TERRAIN_GRID, TERRAIN_GRID_DETAIL,
};

#[derive(Clone, Copy)]
struct Bounds {
    west: f64,
    south: f64,
    east: f64,
    north: f64,
}

impl Bounds {
    fn of_tile(z: u32, x: u32, y: u32) -> Bounds {
        let n = f64::from(1u32 << z);
        let lon = |c: u32| f64::from(c) / n * 360.0 - 180.0;
        let lat = |r: u32| f64::from(r) / n * 180.0 - 90.0;
        Bounds { west: lon(x), south: lat(y), east: lon(x + 1), north: lat(y + 1) }
    }

    fn width(&self) -> f64 {
        self.east - self.west
    }

    fn height(&self) -> f64 {
        self.north - self.south
    }
}

/// The code of a unit normal.
fn code(nx: f64, ny: f64, nz: f64) -> (i8, i8) {
    let q = |c: f64| (c * 1e9).round() as i32;
    encode_octahedral(q(nx), q(ny), q(nz))
}

/// Inverse of [`encode_octahedral`].
fn decode_octahedral(ox: i8, oy: i8) -> (f64, f64, f64) {
    let u = f64::from(ox) / 127.0;
    let v = f64::from(oy) / 127.0;
    let (mut nx, mut ny) = (u, v);
    let nz = 1.0 - u.abs() - v.abs();
    if nz < 0.0 {
        let old = nx;
        nx = (1.0 - ny.abs()) * if old >= 0.0 { 1.0 } else { -1.0 };
        ny = (1.0 - old.abs()) * if ny >= 0.0 { 1.0 } else { -1.0 };
    }
    let len = (nx * nx + ny * ny + nz * nz).sqrt();
    (nx / len, ny / len, nz / len)
}

/// Samples a field over the lattice and its halo and hands the heights and
/// normals to the mesh.
fn elevated(grid: u32, b: &Bounds, field: &dyn Fn(f64, f64) -> f64) -> (TerrainMesh, i32, i32) {
    let n = grid + 1;
    let cell_lon = b.width() / f64::from(grid);
    let cell_lat = b.height() / f64::from(grid);
    let mid = ((b.south + b.north) * 0.5).to_radians();
    let (w, h) = (cell_lon * 111_319.5 * mid.cos(), cell_lat * 111_319.5);
    let mut z = Vec::new();
    let mut normals = Vec::new();
    for row in 0..n {
        for col in 0..n {
            let lon = b.west + f64::from(col) * cell_lon;
            let lat = b.south + f64::from(row) * cell_lat;
            z.push((field(lon, lat) * 1000.0).round() as i32);
            let dx = (field(lon + cell_lon, lat) - field(lon - cell_lon, lat)) / (2.0 * w);
            let dy = (field(lon, lat + cell_lat) - field(lon, lat - cell_lat)) / (2.0 * h);
            let (sl, cl) = lon.to_radians().sin_cos();
            let (sp, cp) = lat.to_radians().sin_cos();
            let nx = cp * cl + dx * sl + dy * sp * cl;
            let ny = cp * sl - dx * cl + dy * sp * sl;
            let nz = sp - dy * cp;
            let len = (nx * nx + ny * ny + nz * nz).sqrt();
            let (ox, oy) = code(nx / len, ny / len, nz / len);
            normals.push(ox);
            normals.push(oy);
        }
    }
    elevated_mesh(grid, z, normals)
}

/// The drawn surface at a point, in metres. Positions go in as parts of a tile
/// and corner heights as micrometres above the first one, so nothing is lost to
/// rounding.
fn drape(b: &Bounds, grid: u32, lon: f64, lat: f64, field: &dyn Fn(f64, f64) -> f64) -> f64 {
    let size = 1i64 << 40;
    let tile = |from: f64, across: f64| (from / across).round() as i64 * size;
    let at = |p: f64, from: f64, across: f64| {
        tile(from, across) + ((p - from) / across * size as f64).round() as i64
    };
    let f = Frame {
        west: tile(b.west, b.width()),
        south: tile(b.south, b.height()),
        width: size,
        height: size,
    };
    let (x, y) = (at(lon, b.west, b.width()), at(lat, b.south, b.height()));
    let c = cell_at(&f, grid, x, y);
    let cell_lon = b.width() / f64::from(grid);
    let cell_lat = b.height() / f64::from(grid);
    let corner = |e: i128, n: i128| {
        field(b.west + (c.col + e) as f64 * cell_lon, b.south + (c.row + n) as f64 * cell_lat)
    };
    let base = corner(0, 0);
    let um = |e: i128, n: i128| ((corner(e, n) - base) * 1e6).round() as i64;
    let h = surface_height(&f, grid, x, y, 0, um(1, 0), um(0, 1), um(1, 1));
    base + h as f64 / size as f64 / size as f64 / 1e6
}

#[test]
fn flat_mesh_dimensions_and_span() {
    let m = flat_mesh(16);
    let n = 17usize;
    assert_eq!(m.x.len(), n * n);
    assert_eq!(m.y.len(), n * n);
    assert_eq!(m.z.len(), n * n);
    assert_eq!(m.normals.len(), n * n * 2);
    assert_eq!(m.indices.len(), 16 * 16 * 6);
    assert_eq!(*m.x.iter().min().unwrap(), 16384);
    assert_eq!(*m.x.iter().max().unwrap(), 49152);
    assert_eq!(*m.y.iter().min().unwrap(), 16384);
    assert_eq!(*m.y.iter().max().unwrap(), 49152);
    assert!(m.z.iter().all(|&z| z == 0));
    assert!(m.indices.iter().all(|&i| (i as usize) < m.x.len()));
}

#[test]
fn grid_one_is_a_single_quad() {
    let m = flat_mesh(1);
    assert_eq!(m.x.len(), 4);
    assert_eq!(m.indices.len(), 6);
}

#[test]
fn a_grid_of_none_is_a_single_quad_too() {
    let m = flat_mesh(0);
    assert_eq!(m.x, vec![16384, 49152, 16384, 49152]);
    assert_eq!(m.y, vec![16384, 16384, 49152, 49152]);
    assert_eq!(m.indices, vec![0, 1, 3, 0, 3, 2]);
    assert!(m.edge_across.is_empty());
}

#[test]
fn elevated_mesh_carries_sampled_elevation() {
    let b = Bounds::of_tile(8, 130, 90);
    let (m, emin, emax) = elevated(16, &b, &|_, _| 1000.0);
    let n = 17usize;
    assert_eq!(m.x.len(), n * n);
    assert_eq!(m.z.len(), n * n);
    assert_eq!(m.normals.len(), n * n * 2);
    assert!(m.z.iter().all(|&z| z == 1_000_000));
    assert_eq!((emin, emax), (1_000_000, 1_000_000));
    assert_eq!(*m.x.iter().min().unwrap(), 16384);
    assert_eq!(*m.x.iter().max().unwrap(), 49152);
    let centre = (n / 2) * n + n / 2;
    let (nx, ny, nz) = decode_octahedral(m.normals[centre * 2], m.normals[centre * 2 + 1]);
    let lon = ((b.west + b.east) * 0.5).to_radians();
    let lat = ((b.south + b.north) * 0.5).to_radians();
    let up = (lat.cos() * lon.cos(), lat.cos() * lon.sin(), lat.sin());
    let dot = nx * up.0 + ny * up.1 + nz * up.2;
    assert!(dot > 0.999, "normal should point up, dot={dot}");
}

#[test]
fn elevated_mesh_normal_tilts_with_slope() {
    let b = Bounds::of_tile(10, 500, 500);
    let (m, lo, hi) = elevated(8, &b, &|lon, _| (lon - b.west) * 100_000.0);
    assert!(m.normals.iter().any(|&c| c != 0));
    assert_eq!(lo, *m.z.iter().min().unwrap());
    assert_eq!(hi, *m.z.iter().max().unwrap());
}

#[test]
fn surface_height_matches_the_mesh_vertices_and_ramp() {
    for grid in [TERRAIN_GRID, TERRAIN_GRID_DETAIL] {
        let b = Bounds::of_tile(14, 8500, 5800);
        let field = |lon: f64, lat: f64| (lon - b.west) * 1.0e5 + (lat - b.south) * 3.0e5;
        let cell_lon = b.width() / f64::from(grid);
        let cell_lat = b.height() / f64::from(grid);
        let (vlon, vlat) = (b.west + 5.0 * cell_lon, b.south + 7.0 * cell_lat);
        let h = drape(&b, grid, vlon, vlat, &field);
        assert!((h - field(vlon, vlat)).abs() < 1e-6);
        for (fx, fy) in [(0.7, 0.2), (0.2, 0.7)] {
            let lon = b.west + (3.0 + fx) * cell_lon;
            let lat = b.south + (3.0 + fy) * cell_lat;
            let got = drape(&b, grid, lon, lat, &field);
            assert!((got - field(lon, lat)).abs() < 1e-6, "grid={grid} fx={fx} fy={fy} got {got}");
        }
    }
}

#[test]
fn surface_height_is_continuous_across_tiles() {
    for grid in [TERRAIN_GRID, TERRAIN_GRID_DETAIL] {
        let west = Bounds::of_tile(14, 8500, 5800);
        let east = Bounds::of_tile(14, 8501, 5800);
        let lon = east.west + 0.3 * (east.width() / f64::from(grid));
        let lat = east.south + 0.4 * (east.height() / f64::from(grid));
        let field = |lo: f64, la: f64| (lo * 12.0).sin() * 100.0 + (la * 9.0).cos() * 60.0;
        let from_east = drape(&east, grid, lon, lat, &field);
        let from_west = drape(&west, grid, lon, lat, &field);
        assert!(
            (from_east - from_west).abs() < 1e-6,
            "grid={grid} east {from_east} west {from_west}"
        );
    }
}

#[test]
fn the_surface_passes_through_its_corners() {
    // One cell, ten parts wide and twenty high: heights come scaled by 200.
    let f = Frame { west: 100, south: -20, width: 10, height: 20 };
    let at = |dx: i64, dy: i64| surface_height(&f, 1, 100 + dx, -20 + dy, 1, 2, 3, 5);
    assert_eq!(at(0, 0), 200);
    assert_eq!(at(9, 0), 200 + 180);
    assert_eq!(at(0, 19), 200 + 380);
    // Below the diagonal and above it.
    assert_eq!(at(7, 4), 200 + 140 + 120);
    assert_eq!(at(2, 14), 200 + 80 + 280);
}

#[test]
fn a_position_is_found_in_the_cells_of_any_tile() {
    let f = Frame { west: 100, south: 0, width: 10, height: 10 };
    assert_eq!(cell_at(&f, 5, 103, 9), Cell { col: 1, row: 4, dx: 5, dy: 5 });
    assert_eq!(cell_at(&f, 0, 103, 9), Cell { col: 0, row: 0, dx: 3, dy: 9 }, "at least one cell");
    let east = Frame { west: 110, ..f };
    assert_eq!(cell_at(&east, 5, 103, 9), Cell { col: -4, row: 4, dx: 5, dy: 5 }, "one tile back");
    let north = Frame { south: 10, ..f };
    assert_eq!(cell_at(&north, 5, 103, 9), Cell { col: 1, row: -1, dx: 5, dy: 5 });
    assert_eq!(cell_at(&f, 5, 100, -1), Cell { col: 0, row: -1, dx: 0, dy: 5 });
}

#[test]
fn a_grid_that_does_not_divide_the_extent_still_spans_the_tile() {
    for m in [flat_mesh(3), elevated_mesh(3, vec![0; 16], vec![0; 32]).0] {
        assert_eq!(&m.x[0..4], &[16384, 27307, 38229, 49152]);
        assert_eq!([m.y[0], m.y[4], m.y[8], m.y[12]], [16384, 27307, 38229, 49152]);
    }
}

#[test]
fn grid_for_switches_at_the_reference_zoom() {
    assert_eq!(grid_for(15, 16), TERRAIN_GRID_DETAIL / 2);
    assert_eq!(grid_for(14, 16), TERRAIN_GRID_DETAIL / 4);
    assert_eq!(grid_for(13, 16), TERRAIN_GRID);
    assert_eq!(grid_for(4, 16), TERRAIN_GRID);
    for z in 0..=16u8 {
        assert_eq!(EXTENT % grid_for(z, 16), 0, "grid must divide the extent");
    }
    assert_eq!(grid_for(16, 16), TERRAIN_GRID_DETAIL);
    assert_eq!(grid_for(16, 14), TERRAIN_GRID_DETAIL);
    assert_eq!(EXTENT % TERRAIN_GRID, 0);
    assert_eq!(EXTENT % TERRAIN_GRID_DETAIL, 0);
}

#[test]
fn normals_have_octahedral_codes() {
    assert_eq!(encode_octahedral(0, 0, 5), (0, 0), "straight up");
    assert_eq!(encode_octahedral(0, 0, -5), (127, 127), "straight down");
    assert_eq!(encode_octahedral(0, 0, 0), (0, 127), "no direction");
    assert_eq!(encode_octahedral(3, 0, 0), (127, 0));
    assert_eq!(encode_octahedral(0, -3, 0), (0, -127));
    // A quarter of the way: 127 / 4 is 31.75, and halves go away from zero.
    assert_eq!(encode_octahedral(1, -1, 2), (32, -32));
    assert_eq!(encode_octahedral(1, 1, 252), (1, 1));
    assert_eq!(encode_octahedral(1, 1, 253), (0, 0));
    // The lower half folds over: (1 - 1/4) and (1 - 2/4) of the way.
    assert_eq!(encode_octahedral(2, -1, -1), (95, -64));
    assert_eq!(encode_octahedral(i32::MIN, i32::MIN, i32::MIN), (-85, -85));
}

#[test]
fn a_code_reads_back_near_its_normal() {
    for (x, y, z) in [(0.6, 0.0, 0.8), (-0.48, 0.6, 0.64), (0.48, -0.6, -0.64), (-0.8, -0.6, 0.0)] {
        let (ox, oy) = code(x, y, z);
        let (nx, ny, nz) = decode_octahedral(ox, oy);
        assert!(nx * x + ny * y + nz * z > 0.9999, "({x}, {y}, {z}) read back as ({nx}, {ny}, {nz})");
    }
}

#[test]
fn a_cell_may_rise_three_thousand_metres() {
    // A quarter of the way up a cell that climbs 3 km to the east.
    let f = Frame { west: 0, south: 0, width: 4, height: 4 };
    let top = 3_000_000_000;
    assert_eq!(surface_height(&f, 1, 1, 0, 0, top, 0, top), 16 * 750_000_000);
}
