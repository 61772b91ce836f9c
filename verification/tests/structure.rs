//! Decks and bores swept along a road.
use arpentry::project::{Place, TileEdges};
use arpentry::synth::structure::{
    answer_bore, begin_bore, bore_section, crossing_section, deck_section, densify, is_bore,
    on_tile_edge, portal_distance, quad, stamp, trim_to_crossing, Accum, BoreStep, BoxPriors, End,
    Normal, Quad, Rib, Section, Sweep, Vertex,
};
use arpentry::terrain::TerrainMesh;
use arpentry::tile_build::geometry::Corner;

const DECK_THICKNESS_M: f64 = 1.0;
const TUNNEL_HEIGHT_M: f64 = 6.0;
const HALF_WIDTH_M: f64 = 7.0;
const DEG_M: f64 = 111_319.5;

const PRIORS: BoxPriors = BoxPriors {
    deck_thickness: 1_000_000,
    tunnel_height: 6_000_000,
    march: 4_000_000,
    reach: 240_000_000,
    clearance: 500_000,
};

const UP: Normal = Normal { u: 0, v: 0 };
const DOWN: Normal = Normal { u: 127, v: 127 };
const SIDE: Normal = Normal { u: 1, v: 1 };

#[derive(Clone, Copy)]
struct Bounds {
    west: f64,
    south: f64,
    east: f64,
    north: f64,
}

impl Bounds {
    fn of_tile(z: u32, x: u32, y: u32) -> Bounds {
        let n = f64::from(1u32 << z);
        let lon = |c: u32| f64::from(c) / n * 360.0 - 180.0;
        let lat = |r: u32| f64::from(r) / n * 180.0 - 90.0;
        Bounds { west: lon(x), south: lat(y), east: lon(x + 1), north: lat(y + 1) }
    }

    fn width(&self) -> f64 {
        self.east - self.west
    }

    fn height(&self) -> f64 {
        self.north - self.south
    }

    fn mid(&self) -> f64 {
        (self.south + self.north) * 0.5
    }

    fn m_lon(&self) -> f64 {
        DEG_M * self.mid().to_radians().cos()
    }

    fn edges(&self) -> TileEdges {
        TileEdges {
            west: nano(self.west),
            south: nano(self.south),
            east: nano(self.east),
            north: nano(self.north),
        }
    }

    fn corner(&self, lon: f64, lat: f64) -> Corner {
        let q = |f: f64| (16384.0 + f * 32768.0).round().clamp(0.0, 65535.0) as u16;
        Corner { x: q((lon - self.west) / self.width()), y: q((lat - self.south) / self.height()) }
    }

    fn lon_of(&self, x: u16) -> f64 {
        self.west + (f64::from(x) - 16384.0) / 32768.0 * self.width()
    }
}

fn nano(deg: f64) -> i64 {
    (deg * 1e9).round() as i64
}

fn um(m: f64) -> i64 {
    (m * 1e6).round() as i64
}

fn mm(m: f64) -> i32 {
    (m * 1000.0).round() as i32
}

/// Road and ground heights along a west to east line, by longitude.
struct Profile {
    road: f64,
    ground: Vec<(f64, f64)>,
}

impl Profile {
    fn flat(road: f64) -> Profile {
        Profile { road, ground: vec![(-180.0, road), (180.0, road)] }
    }

    fn surface_at(&self, lon: f64) -> f64 {
        let g = &self.ground;
        if lon <= g[0].0 {
            return g[0].1;
        }
        for w in g.windows(2) {
            if lon <= w[1].0 {
                return w[0].1 + (w[1].1 - w[0].1) * (lon - w[0].0) / (w[1].0 - w[0].0);
            }
        }
        g[g.len() - 1].1
    }
}

/// The road flat at 100 m and a hill that pierces it: buried over a plateau in
/// the centre, out of the ground on the flanks.
fn hill_profile(b: &Bounds) -> Profile {
    let n = 201;
    let ground = (0..n)
        .map(|i| {
            let u = f64::from(i) / f64::from(n - 1);
            let d = (u - 0.5).abs();
            let h = if d < 0.05 {
                140.0
            } else if d < 0.10 {
                140.0 - (d - 0.05) / 0.05 * 60.0
            } else {
                80.0
            };
            (b.west + b.width() * u, h)
        })
        .collect();
    Profile { road: 100.0, ground }
}

/// The longitudes of a west to east line across some of the tile's width.
fn sub_line(b: &Bounds, u0: f64, u1: f64) -> (f64, f64) {
    (b.west + u0 * b.width(), b.west + u1 * b.width())
}

fn centre_line(b: &Bounds) -> (f64, f64) {
    sub_line(b, 0.3, 0.7)
}

/// The vertices of a line clipped to the tile proper.
fn vertices(b: &Bounds, line: (f64, f64)) -> Vec<Place> {
    let (w, e) = (line.0.max(b.west), line.1.min(b.east));
    let at = |lon: f64| Place { lon: nano(lon), lat: nano(b.mid()) };
    let pts = [at(w), at(e)];
    densify(&pts, &[((e - w) * b.m_lon() * 1e6).round() as u64])
}

fn rib(b: &Bounds, s: &Section) -> Rib {
    let (lon, lat) = (s.at.lon as f64 / 1e9, s.at.lat as f64 / 1e9);
    let off = |side: f64| {
        b.corner(
            lon + f64::from(s.left_e) / 1e6 * HALF_WIDTH_M * side / b.m_lon(),
            lat + f64::from(s.left_n) / 1e6 * HALF_WIDTH_M * side / DEG_M,
        )
    };
    Rib {
        left: off(1.0),
        right: off(-1.0),
        top: s.top,
        bottom: s.bottom,
        out_left: SIDE,
        out_right: SIDE,
    }
}

fn deck(b: &Bounds, line: (f64, f64), p: &Profile) -> Option<TerrainMesh> {
    let ribs = vertices(b, line)
        .iter()
        .map(|at| rib(b, &deck_section(*at, um(p.road), 0, 1_000_000, &PRIORS)))
        .collect();
    stamp(&[Sweep { ribs, low: None, high: None }], UP, DOWN)
}

fn bore_at(p: &Profile, at: Place) -> Section {
    let ground = p.surface_at(at.lon as f64 / 1e9);
    bore_section(at, um(p.road), um(ground), 0, 1_000_000, &PRIORS)
}

/// Marches out of a buried end, as the sweep asks.
fn march(b: &Bounds, p: &Profile, edge: &Section, outward: f64) -> Section {
    let out = |um: i64| Place {
        lon: edge.at.lon + (outward * um as f64 / 1e6 / b.m_lon() * 1e9).round() as i64,
        lat: edge.at.lat,
    };
    let gaps: Vec<i64> = (1..=PRIORS.reach / PRIORS.march)
        .map(|k| bore_at(p, out(k * PRIORS.march)).gap)
        .collect();
    bore_at(p, out(portal_distance(edge.gap, &gaps, &PRIORS)))
}

fn bore(b: &Bounds, line: (f64, f64), p: &Profile) -> Option<TerrainMesh> {
    let pts = vertices(b, line);
    let s: Vec<Section> = pts.iter().map(|at| bore_at(p, *at)).collect();
    let start_interior = !on_tile_edge(pts[0], &b.edges());
    let end_interior = !on_tile_edge(pts[pts.len() - 1], &b.edges());
    let mut step = begin_bore(s, start_interior, end_interior);
    let bored = loop {
        match step {
            BoreStep::March { end, edge, inner, work } => {
                let outward = if edge.at.lon > inner.at.lon { 1.0 } else { -1.0 };
                step = answer_bore(work, end, Some(march(b, p, &edge, outward)));
            }
            BoreStep::Done { bore } => break bore,
        }
    };
    let Some(bored) = bored else { return stamp(&[], UP, DOWN) };
    let ribs = bored.sections.iter().map(|x| rib(b, x)).collect();
    let face = |capped: bool| if capped { Some(SIDE) } else { None };
    stamp(&[Sweep { ribs, low: face(bored.low), high: face(bored.high) }], UP, DOWN)
}

#[test]
fn bridge_deck_is_a_thin_open_slab_on_the_road_surface() {
    let b = Bounds::of_tile(14, 8500, 5800);
    let mesh = deck(&b, centre_line(&b), &Profile::flat(100.0)).expect("deck");

    let surface = mm(100.0);
    assert!(
        mesh.z.iter().any(|&z| z == surface),
        "expected a deck-top vertex on the road surface"
    );
    assert!(mesh.z.iter().all(|&z| z <= surface), "a bridge has no roof above the road");
    let underside = mm(100.0 - DECK_THICKNESS_M);
    assert!(mesh.z.iter().any(|&z| z == underside), "expected a deck underside vertex");
    assert_eq!(mesh.indices.len() % 6, 0);
    assert!(mesh.indices.iter().all(|&i| (i as usize) < mesh.x.len()));
    assert_eq!(mesh.normals.len(), mesh.x.len() * 2);
    let (lo, hi) =
        mesh.y.iter().fold((u16::MAX, u16::MIN), |(lo, hi), &y| (lo.min(y), hi.max(y)));
    assert!(hi > lo, "deck has no width across the road");
}

#[test]
fn tunnel_bore_has_a_roof_above_the_road_and_a_deck_aligned_floor() {
    let b = Bounds::of_tile(14, 8500, 5800);
    let mesh = bore(&b, sub_line(&b, 0.45, 0.55), &hill_profile(&b)).expect("bore");

    let roof = mm(100.0 + TUNNEL_HEIGHT_M);
    let floor = mm(100.0 - DECK_THICKNESS_M);
    assert!(
        mesh.z.iter().any(|&z| z == roof),
        "expected a roof vertex a bore height above the road"
    );
    assert!(
        mesh.z.iter().any(|&z| z == floor),
        "expected a floor vertex on the deck-underside plane"
    );
    assert!(mesh.z.iter().all(|&z| z <= roof), "nothing above the roof");
    assert!(mesh.z.iter().all(|&z| z >= floor), "nothing below the floor");
}

#[test]
fn bore_is_dropped_over_flat_terrain() {
    let b = Bounds::of_tile(14, 8500, 5800);
    assert!(bore(&b, centre_line(&b), &Profile::flat(100.0)).is_none(), "no bore over flat ground");
}

#[test]
fn stamp_reports_a_dropped_bore_so_the_caller_can_drape() {
    let b = Bounds::of_tile(14, 8500, 5800);
    let mesh = bore(&b, centre_line(&b), &Profile::flat(100.0));
    assert!(!mesh.is_some());
    assert!(mesh.is_none());
}

#[test]
fn bore_caps_its_interior_portals() {
    let b = Bounds::of_tile(14, 8500, 5800);
    let mesh = bore(&b, sub_line(&b, 0.45, 0.55), &hill_profile(&b)).expect("bore");
    assert_eq!(mesh.indices.len() % 24, 12, "expected two portal caps (+12 indices)");
}

#[test]
fn bore_marches_a_buried_end_out_to_the_crossing() {
    let b = Bounds::of_tile(14, 8500, 5800);
    let line = sub_line(&b, 0.45, 0.55);
    let mesh = bore(&b, line, &hill_profile(&b)).expect("bore");

    let lons: Vec<f64> = mesh.x.iter().map(|&q| b.lon_of(q)).collect();
    let mesh_w = lons.iter().cloned().fold(f64::INFINITY, f64::min);
    let mesh_e = lons.iter().cloned().fold(f64::NEG_INFINITY, f64::max);
    assert!(mesh_w < line.0, "west portal must reach back to the crossing");
    assert!(mesh_e > line.1, "east portal must reach out to the crossing");
}

#[test]
fn bore_trims_an_end_that_already_stands_above_ground() {
    let b = Bounds::of_tile(14, 8500, 5800);
    let line = sub_line(&b, 0.50, 0.70);
    let mesh = bore(&b, line, &hill_profile(&b)).expect("bore");

    let mesh_e = mesh.x.iter().map(|&q| b.lon_of(q)).fold(f64::NEG_INFINITY, f64::max);
    let crossing = b.west + 0.60 * b.width();
    assert!(mesh_e < crossing, "bore must stop at the crossing, not run onto the flank");
    assert!(mesh_e < line.1, "bore must not reach the above-ground line end");
}

#[test]
fn bore_leaves_tile_edge_cuts_open() {
    let b = Bounds::of_tile(14, 8500, 5800);
    let n = 201;
    let ground = (0..n)
        .map(|i| {
            let u = f64::from(i) / f64::from(n - 1);
            let h = if u < 0.55 { 130.0 } else { 130.0 - (u - 0.55) / 0.10 * 60.0 };
            (b.west + b.width() * u, h)
        })
        .collect();
    let profile = Profile { road: 100.0, ground };
    let mesh = bore(&b, sub_line(&b, -0.2, 0.52), &profile).expect("bore");
    assert_eq!(mesh.indices.len() % 24, 6, "a tile-edge end stays open, only one cap");
}

#[test]
fn bore_floor_is_independent_of_the_terrain() {
    let b = Bounds::of_tile(14, 8500, 5800);
    let deck = deck(&b, centre_line(&b), &Profile::flat(100.0)).expect("deck");
    let bore = bore(&b, sub_line(&b, 0.45, 0.55), &hill_profile(&b)).expect("bore");
    let deck_floor = *deck.z.iter().min().expect("non-empty");
    let bore_floor = *bore.z.iter().min().expect("non-empty");
    assert_eq!(deck_floor, mm(100.0 - DECK_THICKNESS_M));
    assert_eq!(bore_floor, deck_floor, "bore bottom must align with the deck bottom");
}

fn section(lon: i64, top: i32, gap: i64) -> Section {
    Section {
        at: Place { lon, lat: 0 },
        top,
        bottom: top - 1000,
        gap,
        left_e: 0,
        left_n: 1_000_000,
    }
}

#[test]
fn a_cap_stands_in_proportion_to_the_gaps() {
    let c = crossing_section(&section(0, 100, -3_000_000), &section(400, 200, 1_000_000));
    assert_eq!((c.at.lon, c.top, c.bottom, c.gap), (300, 175, -825, 0));
    let s = vec![section(0, 0, 5), section(10, 0, 2), section(20, 0, -2), section(30, 0, 4)];
    let low = trim_to_crossing(&s, End::Low);
    assert_eq!(low.iter().map(|x| x.at.lon).collect::<Vec<i64>>(), vec![15, 20, 30]);
    let high = trim_to_crossing(&s, End::High);
    assert_eq!(high.iter().map(|x| x.at.lon).collect::<Vec<i64>>(), vec![0, 10, 20, 23]);
    // Nothing buried: nothing to trim to.
    let above = vec![section(0, 0, 1), section(1, 0, 1)];
    assert_eq!(trim_to_crossing(&above, End::Low), above);
    assert!(!is_bore(&above));
}

#[test]
fn a_mouth_stands_at_the_first_sample_above_ground() {
    // 3 m buried, then 1 m buried, then 1 m above: halfway along the second march.
    let d = portal_distance(-3_000_000, &[-1_000_000, 1_000_000, 9_000_000], &PRIORS);
    assert_eq!(d, 4_000_000 + 2_000_000 + 500_000);
    assert_eq!(portal_distance(-1, &[-5, -6], &PRIORS), PRIORS.reach);
}

#[test]
fn a_centerline_is_split_every_eight_metres() {
    let pts = [Place { lon: 0, lat: 0 }, Place { lon: 300, lat: 0 }, Place { lon: 300, lat: 100 }];
    let out = densify(&pts, &[20_000_000, 0]);
    let lons: Vec<i64> = out.iter().map(|p| p.lon).collect();
    assert_eq!(lons, vec![0, 100, 200, 300, 300]);
    assert!(densify(&[], &[]).is_empty());
    let far = densify(&pts, &[u64::MAX, 8_000_000]);
    assert_eq!(far.len(), 4096, "a stretch stops at the cap");
    assert_eq!(densify(&pts, &[8_000_000 * 4094, 24_000_000]).len(), 4096);
    let full = densify(&pts, &[8_000_000 * 4095, 24_000_000]);
    assert_eq!((full.len(), full[4095]), (4096, pts[1]), "a full line takes no further stretch");
}

#[test]
fn a_place_on_the_border_is_a_cut() {
    let t = TileEdges { west: 0, south: 0, east: 1_000_000, north: 2_000_000 };
    assert!(on_tile_edge(Place { lon: 99, lat: 1_000_000 }, &t));
    assert!(!on_tile_edge(Place { lon: 100, lat: 1_000_000 }, &t));
    assert!(on_tile_edge(Place { lon: 500_000, lat: 1_999_801 }, &t));
    assert!(!on_tile_edge(Place { lon: 500_000, lat: 1_999_800 }, &t));
}

#[test]
fn a_box_is_four_faces_and_its_caps() {
    let at = |x: u16| Rib {
        left: Corner { x, y: 10 },
        right: Corner { x, y: 0 },
        top: 5,
        bottom: 1,
        out_left: SIDE,
        out_right: SIDE,
    };
    let open = Sweep { ribs: vec![at(0), at(7)], low: None, high: None };
    let m = stamp(&[open], UP, DOWN).unwrap();
    assert_eq!((m.x.len(), m.indices.len()), (16, 24));
    assert_eq!(&m.indices[6..12], &[4, 5, 6, 4, 6, 7]);
    assert_eq!(&m.x[0..4], &[0, 0, 7, 7]);
    assert_eq!(&m.z[4..8], &[5, 5, 5, 5]);
    assert_eq!(&m.normals[0..2], &[127, 127]);
    let capped = Sweep { ribs: vec![at(0), at(7)], low: Some(UP), high: Some(UP) };
    assert_eq!(stamp(&[capped], UP, DOWN).unwrap().indices.len(), 36);
    assert!(stamp(&[Sweep { ribs: vec![at(0)], low: Some(UP), high: None }], UP, DOWN).is_none());
}

#[test]
fn a_bore_is_resolved_from_its_high_end() {
    let at = |lon: i64, gap: i64| Section {
        at: Place { lon, lat: 0 },
        top: 6_000,
        bottom: -1_000,
        gap,
        left_e: 0,
        left_n: 1_000_000,
    };
    let (a, b, c) = (at(0, -500_000), at(100, -500_000), at(200, 500_000));
    // The high end stands out of the ground and is cut on the crossing, then the
    // buried low end asks for a march.
    let BoreStep::March { end, edge, inner, work } = begin_bore(vec![a, b, c], true, true) else {
        panic!("the low end is buried");
    };
    assert_eq!((end, edge, inner), (End::Low, a, b));
    assert_eq!(work.sections, vec![a, b, crossing_section(&b, &c)]);
    let mouth = at(-50, 0);
    let BoreStep::Done { bore: Some(done) } = answer_bore(work, end, Some(mouth)) else {
        panic!("a bore is left");
    };
    assert_eq!((done.low, done.high), (true, true));
    assert_eq!(done.sections, vec![mouth, a, b, crossing_section(&b, &c)]);
    // At the border a buried end stays open, and marches nowhere.
    let BoreStep::Done { bore: Some(open) } = begin_bore(vec![a, b], false, false) else {
        panic!("nothing to ask");
    };
    assert_eq!((open.sections, open.low, open.high), (vec![a, b], false, false));
    // Nothing buried, nothing bored.
    assert!(matches!(begin_bore(vec![c, c], true, true), BoreStep::Done { bore: None }));
    // A buried high end is asked about first.
    assert!(matches!(begin_bore(vec![c, a], true, true), BoreStep::March { end: End::High, .. }));
}

#[test]
fn a_quad_is_four_vertices_and_a_fan_after_what_is_there() {
    let mut acc = Accum::new();
    // A lone vertex first: a quad need not start from whole quads.
    let first = Vertex { at: Corner { x: 9, y: 8 }, z: 7 };
    assert_eq!(acc.push(first, UP), 0);
    let at = |x: u16, y: u16, z: i32| Vertex { at: Corner { x, y }, z };
    let q = Quad { p0: at(1, 2, 3), p1: at(4, 5, 6), p2: at(7, 8, 9), p3: at(10, 11, 12), normal: SIDE };
    quad(&mut acc, q);
    assert_eq!(acc.x, vec![9, 1, 4, 7, 10]);
    assert_eq!(acc.y, vec![8, 2, 5, 8, 11]);
    assert_eq!(acc.z, vec![7, 3, 6, 9, 12]);
    assert_eq!(acc.normals, vec![0, 0, 1, 1, 1, 1, 1, 1, 1, 1]);
    assert_eq!(acc.indices, vec![1, 2, 3, 1, 3, 4]);
}
