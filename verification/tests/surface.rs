//! Road-surface bands.
use arpentry::plane::{direction, miter, Direction, Offset};
use arpentry::project::Place;
use arpentry::synth::disks::{cuts, trim_at_disks, Disk};
use arpentry::synth::structure::Normal;
use arpentry::synth::surface::{
    band, band_width, class_only, empty_mesh, point_at, ribbon, slice_arc, trim_line, BandSection,
    Synth,
};
use arpentry::synth::walkway::claims::Part;
use arpentry::synth::walkway::crossing::Spot;
use arpentry::terrain::TerrainMesh;
use arpentry::tile_build::geometry::Corner;
use arpentry::value::Value;

const DEG_M: f64 = 111_319.5;
const MITER_MAX: f64 = 1.5;
const UP: Normal = Normal { u: 0, v: 0 };

#[derive(Clone, Copy)]
struct Bounds {
    west: f64,
    south: f64,
    east: f64,
    north: f64,
}

impl Bounds {
    fn of_tile(z: u32, x: u32, y: u32) -> Bounds {
        let n = f64::from(1u32 << z);
        let lon = |c: u32| f64::from(c) / n * 360.0 - 180.0;
        let lat = |r: u32| f64::from(r) / n * 180.0 - 90.0;
        Bounds { west: lon(x), south: lat(y), east: lon(x + 1), north: lat(y + 1) }
    }

    fn width(&self) -> f64 {
        self.east - self.west
    }

    fn height(&self) -> f64 {
        self.north - self.south
    }

    fn m_lon(&self) -> f64 {
        DEG_M * ((self.south + self.north) * 0.5).to_radians().cos()
    }

    fn corner(&self, c: (f64, f64)) -> Corner {
        let q = |f: f64| (16384.0 + f * 32768.0).round().clamp(0.0, 65535.0) as u16;
        Corner { x: q((c.0 - self.west) / self.width()), y: q((c.1 - self.south) / self.height()) }
    }
}

/// The vertex pairs of a line, along its mitered perpendiculars.
fn pairs(line: &[(f64, f64)], half: f64, b: &Bounds, z: i32) -> Vec<BandSection> {
    let um = |m: f64| (m * 1e6).round() as i64;
    let dir = |a: (f64, f64), c: (f64, f64)| {
        direction(Offset { east: um((c.0 - a.0) * b.m_lon()), north: um((c.1 - a.1) * DEG_M) })
    };
    let mut out = Vec::new();
    for i in 0..line.len() {
        let before = if i > 0 { dir(line[i - 1], line[i]) } else { None };
        let after = if i + 1 < line.len() { dir(line[i], line[i + 1]) } else { None };
        let Some(left) = miter(before, after, um(half)) else { continue };
        let off = |side: f64| {
            b.corner((
                line[i].0 + left.east as f64 / 1e6 * side / b.m_lon(),
                line[i].1 + left.north as f64 / 1e6 * side / DEG_M,
            ))
        };
        out.push(BandSection { left: off(1.0), right: off(-1.0), left_z: z, right_z: z });
    }
    out
}

fn dist_m(m: &TerrainMesh, i: usize, j: usize, b: &Bounds) -> f64 {
    let dx = (f64::from(m.x[i]) - f64::from(m.x[j])) / 32768.0 * b.width() * b.m_lon();
    let dy = (f64::from(m.y[i]) - f64::from(m.y[j])) / 32768.0 * b.height() * DEG_M;
    dx.hypot(dy)
}

#[test]
fn straight_band_offsets_to_the_half_width() {
    let b = Bounds::of_tile(15, 17000, 11600);
    let cy = b.south + 0.5 * b.height();
    let line = [(b.west + 0.3 * b.width(), cy), (b.west + 0.7 * b.width(), cy)];
    let mut mesh = empty_mesh();
    band(&mut mesh, &pairs(&line, 3.75, &b, 1000), UP);
    assert_eq!(mesh.x.len(), 4);
    assert_eq!(mesh.indices.len(), 6);
    assert!(mesh.z.iter().all(|&z| z == 1000));
    let w = dist_m(&mesh, 0, 1, &b);
    assert!((w - 7.5).abs() < 0.1, "band width {w} != 7.5");
}

#[test]
fn right_angle_miter_is_clamped() {
    let b = Bounds::of_tile(15, 17000, 11600);
    let c = (b.west + 0.5 * b.width(), b.south + 0.5 * b.height());
    let line = [(c.0 - 0.2 * b.width(), c.1), c, (c.0, c.1 + 0.2 * b.height())];
    let mut mesh = empty_mesh();
    band(&mut mesh, &pairs(&line, 3.0, &b, 0), UP);
    assert_eq!(mesh.x.len(), 6);
    assert_eq!(mesh.indices.len(), 12);
    let body = dist_m(&mesh, 0, 1, &b);
    let corner = dist_m(&mesh, 2, 3, &b);
    assert!(corner > body * 1.2, "corner {corner} not mitered vs body {body}");
    assert!(corner <= body * MITER_MAX + 0.1, "corner {corner} beyond the clamp");
}

fn nano(c: (f64, f64)) -> Place {
    Place { lon: (c.0 * 1e9).round() as i64, lat: (c.1 * 1e9).round() as i64 }
}

/// Trims a two-vertex line by disks, in the plane around its first vertex.
fn trim(line: [(f64, f64); 2], disks: &[((f64, f64), f64)], m_lon: f64) -> Vec<Vec<Place>> {
    let spot = |p: (f64, f64)| Spot {
        x: ((p.0 - line[0].0) * m_lon * 1e3).round() as i64,
        y: ((p.1 - line[0].1) * DEG_M * 1e3).round() as i64,
    };
    let spots = line.map(spot);
    let len = ((line[1].0 - line[0].0) * m_lon).hypot((line[1].1 - line[0].1) * DEG_M);
    let arc = [0, (len * 1e6).round() as i64];
    let disks: Vec<Disk> =
        disks.iter().map(|&(c, r)| Disk { centre: spot(c), radius: (r * 1e3).round() as u64 }).collect();
    trim_at_disks(&line.map(nano), &spots, &arc, &disks)
}

#[test]
fn trim_splits_a_through_line_at_the_disk() {
    let cy: f64 = 46.0;
    let m_lon = DEG_M * cy.to_radians().cos();
    let c = (7.0, cy);
    let line = [(c.0 - 100.0 / m_lon, cy), (c.0 + 100.0 / m_lon, cy)];
    let pieces = trim(line, &[(c, 10.0)], m_lon);
    assert_eq!(pieces.len(), 2, "the disk splits the line");
    for p in &pieces {
        for v in p {
            let d = ((v.lon as f64 / 1e9 - c.0) * m_lon).abs();
            assert!(d > 9.9, "piece vertex {d:.2} m inside the trim radius");
        }
    }
    let end = trim(line, &[(line[1], 10.0)], m_lon);
    assert_eq!(end.len(), 1);
    let last = end[0].last().expect("non-empty");
    assert!(((last.lon as f64 / 1e9 - line[1].0) * m_lon).abs() > 9.9);
    assert_eq!(trim(line, &[], m_lon).len(), 1);
    assert!(trim(line, &[(c, 150.0)], m_lon).is_empty());
}

#[test]
fn degenerate_lines_produce_nothing() {
    let b = Bounds::of_tile(15, 17000, 11600);
    let p = (b.west + 0.5 * b.width(), b.south + 0.5 * b.height());
    let mut mesh = empty_mesh();
    band(&mut mesh, &pairs(&[p], 3.0, &b, 0), UP);
    band(&mut mesh, &pairs(&[p, p], 3.0, &b, 0), UP);
    assert!(mesh.indices.is_empty());
    assert!(ribbon(&[vec![nano(p)]], mesh).is_none());
}

fn at(lon: i64) -> Place {
    Place { lon, lat: 0 }
}

fn cut(from: i64, to: i64) -> Part {
    Part { from, to, source: 0 }
}

#[test]
fn cuts_merge_and_short_pieces_are_dropped() {
    let m = 1_000_000i64;
    let pts = [at(0), at(10), at(20)];
    let arc = [0, 10 * m, 20 * m];
    // Out of order and overlapping: 4 to 9 is gone, the half metre behind it too.
    let cuts = vec![cut(9 * m + m / 2, 15 * m), cut(6 * m, 9 * m), cut(4 * m, 7 * m)];
    let out = trim_line(&pts, &arc, &cuts);
    assert_eq!(out, vec![vec![at(0), at(4)], vec![at(15), at(20)]]);
    assert!(trim_line(&pts[..1], &arc[..1], &cuts).is_empty());
    assert!(trim_line(&pts, &[0, 0, 0], &cuts).is_empty());
    assert_eq!(trim_line(&pts, &arc, &vec![]), vec![pts.to_vec()]);
}

#[test]
fn a_slice_keeps_the_vertices_between_its_ends() {
    let pts = [at(0), at(10), at(20), at(40)];
    let arc = [0, 100, 200, 400];
    assert_eq!(slice_arc(&pts, &arc, 50, 300), vec![at(5), at(10), at(20), at(30)]);
    // A cut on a vertex does not repeat it.
    assert_eq!(slice_arc(&pts, &arc, 100, 200), vec![at(10), at(20)]);
    assert_eq!(slice_arc(&pts, &arc, 390, 900), vec![at(39), at(40)]);
}

#[test]
fn only_roads_at_grade_carry_a_band() {
    let road = Synth::Road { deck: false };
    let width = 6.0f64.to_bits();
    let props = vec![
        ("class".to_string(), Value::String("street".to_string())),
        ("width_m".to_string(), Value::Int(9)),
        ("width_m".to_string(), Value::Double(width)),
    ];
    assert_eq!(band_width(15, 15, true, road, &props), Some(width));
    assert_eq!(band_width(14, 15, true, road, &props), None);
    assert_eq!(band_width(15, 15, false, road, &props), None);
    assert_eq!(band_width(15, 15, true, Synth::Road { deck: true }, &props), None);
    assert_eq!(band_width(15, 15, true, Synth::Nothing, &props), None);
    let paint = vec![
        ("width_m".to_string(), Value::Double(width)),
        ("class".to_string(), Value::String("marking".to_string())),
    ];
    assert_eq!(band_width(15, 15, true, road, &paint), None);
    assert_eq!(band_width(15, 15, true, road, &props[..2]), None);
    let kept = class_only(&props);
    assert_eq!(kept.len(), 1);
    assert!(matches!(&kept[0].1, Value::String(s) if s == "street"));
}

#[test]
fn a_band_is_anchored_at_its_first_vertex() {
    let c = |x: u16, y: u16| Corner { x, y };
    let pair = |x: u16| BandSection { left: c(x, 4), right: c(x, 2), left_z: 7, right_z: 8 };
    let mut mesh = empty_mesh();
    band(&mut mesh, &[pair(0), pair(1), pair(2)], Normal { u: 3, v: 4 });
    band(&mut mesh, &[pair(5), pair(6)], UP);
    assert_eq!(mesh.indices[12..18], [6, 7, 9, 6, 9, 8]);
    assert_eq!(mesh.indices[0..6], [0, 1, 3, 0, 3, 2]);
    assert_eq!(&mesh.normals[0..4], &[3, 4, 3, 4]);
    assert_eq!(&mesh.z[0..2], &[7, 8]);
    let (anchor, out) = ribbon(&[vec![], vec![at(9), at(1)]], mesh).unwrap();
    assert_eq!(anchor, at(9));
    assert_eq!(out.x.len(), 10);
    let mut none = empty_mesh();
    band(&mut none, &[pair(0), pair(1)], UP);
    assert!(ribbon(&[vec![]], none).is_none());
}

#[test]
fn a_disk_cuts_the_chord_it_covers() {
    let spot = |x: i64, y: i64| Spot { x, y };
    let m = 1_000_000;
    let pts = [spot(0, 0), spot(100_000, 0), spot(100_000, 100_000)];
    let arc = [0, 100 * m, 200 * m];
    // 6 m off the line with a radius of 10 m: a chord of 16 m.
    let beside = Disk { centre: spot(50_000, 6_000), radius: 10_000 };
    assert_eq!(cuts(&pts, &arc, &[beside]), vec![cut(42 * m, 58 * m)]);
    // On the bend: both pieces lose what lies within the radius.
    let bend = Disk { centre: spot(100_000, 0), radius: 10_000 };
    assert_eq!(cuts(&pts, &arc, &[bend]), vec![cut(90 * m, 100 * m), cut(100 * m, 110 * m)]);
    // Touching, missing, and no disk at all.
    let off = |y: i64, radius: u64| Disk { centre: spot(50_000, y), radius };
    assert!(cuts(&pts, &arc, &[off(-10_000, 10_000), off(-20_000, 10_000), off(0, 0)]).is_empty());
    assert!(cuts(&pts[..1], &arc[..1], &[bend]).is_empty());
}

#[test]
fn an_edge_stands_off_square_to_its_line() {
    let m = 1_000_000;
    let east = direction(Offset { east: 5 * m, north: 0 });
    let north = direction(Offset { east: 0, north: 5 * m });
    let west = direction(Offset { east: -5 * m, north: 0 });
    assert_eq!(direction(Offset { east: 3 * m, north: -4 * m }), Some(Direction { east: 600_000, north: -800_000 }));
    assert_eq!(direction(Offset { east: 0, north: 0 }), None);
    let off = |east: i64, north: i64| Some(Offset { east, north });
    assert_eq!(miter(None, east, 4 * m), off(0, 4 * m), "left of east is north");
    assert_eq!(miter(north, None, 4 * m), off(-4 * m, 0));
    assert_eq!(miter(east, east, 4 * m), off(0, 4 * m));
    let corner = miter(east, north, 4 * m).unwrap();
    assert!((corner.east + 4 * m).abs() < 10 && (corner.north - 4 * m).abs() < 10, "{corner:?}");
    // A bend back on itself is capped, a fold has no edge.
    let sharp = direction(Offset { east: -4 * m, north: 3 * m });
    let capped = miter(east, sharp, 4 * m).unwrap();
    let len = (capped.east as f64).hypot(capped.north as f64) / 1e6;
    assert!((len - 6.0).abs() < 1e-3, "{len}");
    assert_eq!(miter(east, west, 4 * m), None);
    assert_eq!(miter(None, None, 4 * m), None);
}

#[test]
fn a_place_is_found_along_a_measured_line() {
    let pts = [at(0), at(10), at(30)];
    let arc = [0, 100, 200];
    assert_eq!(point_at(&pts, &arc, 50), at(5));
    assert_eq!(point_at(&pts, &arc, 100), at(10));
    assert_eq!(point_at(&pts, &arc, 150), at(20));
    assert_eq!(point_at(&pts, &arc, 900), at(30));
}
