use arpentry::verify::checks::contact::{
    Alongside, Contact, ContactScene, Deck, DeckEnd, KerbEdge, Line, LineVertex, RimEdge,
};
use arpentry::verify::checks::deck::Heading;
use arpentry::verify::checks::Options;
use arpentry::verify::scene::{Probe, RoadMesh};
use arpentry::verify::{Metric, Note, Place};
use std::collections::HashMap;

/// A drawn triangle mesh over the unit tile, its heights in metres.
struct Mesh {
    x: Vec<f64>,
    y: Vec<f64>,
    z: Vec<f64>,
    corners: Vec<usize>,
}

impl Mesh {
    /// Heights of every triangle covering a plan point.
    fn answers(&self, px: f64, py: f64) -> Vec<f64> {
        let mut out = Vec::new();
        for t in self.corners.chunks(3) {
            let (a, b, c) = (t[0], t[1], t[2]);
            let d = (self.y[b] - self.y[c]) * (self.x[a] - self.x[c]) + (self.x[c] - self.x[b]) * (self.y[a] - self.y[c]);
            if d.abs() < 1e-15 {
                continue;
            }
            let u = ((self.y[b] - self.y[c]) * (px - self.x[c]) + (self.x[c] - self.x[b]) * (py - self.y[c])) / d;
            let v = ((self.y[c] - self.y[a]) * (px - self.x[c]) + (self.x[a] - self.x[c]) * (py - self.y[c])) / d;
            let w = 1.0 - u - v;
            if u >= -1e-9 && v >= -1e-9 && w >= -1e-9 {
                out.push(u * self.z[a] + v * self.z[b] + w * self.z[c]);
            }
        }
        out
    }

    fn height(&self, px: f64, py: f64) -> Option<i64> {
        self.answers(px, py).first().map(|h| um(*h))
    }

    fn range(&self, px: f64, py: f64) -> Option<(i64, i64)> {
        let all = self.answers(px, py);
        if all.is_empty() {
            return None;
        }
        let low = all.iter().fold(f64::INFINITY, |a, b| a.min(*b));
        let high = all.iter().fold(f64::NEG_INFINITY, |a, b| a.max(*b));
        Some((um(low), um(high)))
    }
}

fn um(metres: f64) -> i64 {
    (metres * 1e6).round() as i64
}

/// A flat quad over a plan rectangle.
fn plane(x0: f64, x1: f64, y0: f64, y1: f64, h: f64) -> Mesh {
    Mesh { x: vec![x0, x1, x1, x0], y: vec![y0, y0, y1, y1], z: vec![h; 4], corners: vec![0, 1, 2, 0, 2, 3] }
}

/// A drawn road feature and its mesh.
struct Drawn {
    road: RoadMesh,
    mesh: Mesh,
}

fn drawn(class: &str, level: i64, mesh: Mesh) -> Drawn {
    let pavement = level == 0 && (class == "road_surface" || class == "rail_surface");
    let rim = class.ends_with("_casing") || class.ends_with("_rim");
    let fitted = level > 0 && (class == "footway" || class == "path");
    let road = RoadMesh {
        class: class.to_string(),
        level,
        band: String::new(),
        sheet: None,
        pavement,
        rim,
        casing: class.ends_with("_casing"),
        deck: level > 0,
        bore: level < 0,
        fitted,
        rail: class.contains("gauge"),
    };
    Drawn { road, mesh }
}

fn place(px: f64, py: f64) -> Place {
    Place { lon: (px * 1e9) as i64, lat: (py * 1e9) as i64 }
}

/// What the meshes answer at a plan point.
fn probe(all: &[Drawn], terrain: Option<&Mesh>, px: f64, py: f64) -> Probe {
    Probe {
        owned: (0.0..=1.0).contains(&px) && (0.0..=1.0).contains(&py),
        place: place(px, py),
        terrain: terrain.and_then(|t| t.height(px, py)),
        heights: all.iter().map(|d| d.mesh.height(px, py)).collect(),
        ranges: all.iter().map(|d| d.mesh.range(px, py)).collect(),
        spans: all.iter().map(|d| d.mesh.span_near(px, py, APRON_NEAR_M)).collect(),
    }
}

fn roads_of(all: Vec<Drawn>) -> Vec<RoadMesh> {
    all.into_iter().map(|d| d.road).collect()
}

/// Metres per unit of the tile, east and north.
const MX: f64 = 546.0;

const MY: f64 = 304.0;

const APRON_NEAR_M: f64 = 1.0;

const CARRY_LATERAL_M: f64 = 10.0;

const LIP: &str = "contact.kerb_lip";

const UNWALLED: &str = "contact.kerb_unwalled";

fn to_segment(a: (f64, f64), b: (f64, f64), p: (f64, f64)) -> f64 {
    let (dx, dy) = (b.0 - a.0, b.1 - a.1);
    let len2 = dx * dx + dy * dy;
    let t = if len2 > 0.0 { (((p.0 - a.0) * dx + (p.1 - a.1) * dy) / len2).clamp(0.0, 1.0) } else { 0.0 };
    (p.0 - a.0 - t * dx).hypot(p.1 - a.1 - t * dy)
}

impl Mesh {
    fn metric(&self, i: usize) -> (f64, f64) {
        (self.x[i] * MX, self.y[i] * MY)
    }

    /// The heights of the triangles whose edges pass near a point.
    fn span_near(&self, px: f64, py: f64, reach: f64) -> Option<(i64, i64)> {
        let p = (px * MX, py * MY);
        let mut out: Option<(f64, f64)> = None;
        for t in self.corners.chunks(3) {
            let near = (0..3).any(|k| to_segment(self.metric(t[k]), self.metric(t[(k + 1) % 3]), p) <= reach);
            if near {
                for v in t {
                    let z = self.z[*v];
                    out = Some(out.map_or((z, z), |(lo, hi): (f64, f64)| (lo.min(z), hi.max(z))));
                }
            }
        }
        out.map(|(lo, hi)| (um(lo), um(hi)))
    }

    /// The edges no second triangle shares, each with its triangle's third
    /// corner.
    fn boundary(&self) -> Vec<(usize, usize, usize)> {
        let mut all = Vec::new();
        for t in self.corners.chunks(3) {
            for k in 0..3 {
                all.push((t[k], t[(k + 1) % 3], t[(k + 2) % 3]));
            }
        }
        let shares = |e: &(usize, usize, usize)| {
            all.iter().filter(|f| (f.0, f.1) == (e.0, e.1) || (f.0, f.1) == (e.1, e.0)).count()
        };
        all.iter().filter(|e| shares(e) == 1).copied().collect()
    }

    /// The two ends of a slab swept from west to east or south to north: each
    /// a point on its axis and the top there.
    fn ends(&self) -> [(f64, f64, f64); 2] {
        let n = self.x.len();
        let far = |from: (f64, f64)| {
            let mut best = ((0.0, 0.0), -1.0);
            for i in 0..n {
                let d = (self.x[i] - from.0).hypot(self.y[i] - from.1);
                if d > best.1 {
                    best = ((self.x[i], self.y[i]), d);
                }
            }
            best.0
        };
        let centre = (self.x.iter().sum::<f64>() / n as f64, self.y.iter().sum::<f64>() / n as f64);
        let a = far(centre);
        let b = far(a);
        let (ax, ay) = (b.0 - a.0, b.1 - a.1);
        let end = |near: bool| {
            let (mut sx, mut sy, mut top, mut k) = (0.0, 0.0, f64::NEG_INFINITY, 0.0);
            for i in 0..n {
                let t = ((self.x[i] - a.0) * ax + (self.y[i] - a.1) * ay) / (ax * ax + ay * ay);
                if (near && t <= 0.1) || (!near && t >= 0.9) {
                    sx += self.x[i];
                    sy += self.y[i];
                    top = self.z[i].max(top);
                    k += 1.0;
                }
            }
            (sx / k, sy / k, top)
        };
        [end(true), end(false)]
    }
}

fn owns(px: f64, py: f64) -> bool {
    (0.0..=1.0).contains(&px) && (0.0..=1.0).contains(&py)
}

fn axis_of(e: &[(f64, f64, f64); 2]) -> (f64, f64, f64) {
    let (dx, dy) = ((e[1].0 - e[0].0) * MX, (e[1].1 - e[0].1) * MY);
    let len = dx.hypot(dy);
    (dx / len, dy / len, len)
}

fn heading_of(e: &[(f64, f64, f64); 2]) -> Heading {
    let (ux, uy, len) = axis_of(e);
    Heading { east: (ux * len * 1e3).round() as i64, north: (uy * len * 1e3).round() as i64 }
}

/// A tile to be measured.
struct Site {
    terrain: Option<Mesh>,
    roads: Vec<Drawn>,
    lines: Vec<(String, Vec<(f64, f64, f64)>)>,
}

impl Site {
    fn at(&self, px: f64, py: f64) -> Probe {
        probe(&self.roads, self.terrain.as_ref(), px, py)
    }

    fn deck(&self, i: usize) -> Deck {
        let mesh = &self.roads[i].mesh;
        let e = mesh.ends();
        let (ux, uy, len) = axis_of(&e);
        let end = |k: usize, sign: f64| DeckEnd {
            owned: owns(e[k].0, e[k].1),
            place: place(e[k].0, e[k].1),
            top: um(e[k].2),
            ground: self.at(e[k].0, e[k].1),
            march: (1..=10)
                .map(|s| {
                    let d = sign * 2.0 * s as f64;
                    self.at(e[k].0 + ux * d / MX, e[k].1 + uy * d / MY)
                })
                .collect(),
        };
        let steps = (len / 2.0).ceil() as usize;
        let mut points = Vec::new();
        for s in 0..=steps {
            let t = s as f64 / steps as f64;
            let (px, py) = (e[0].0 + (e[1].0 - e[0].0) * t, e[0].1 + (e[1].1 - e[0].1) * t);
            if mesh.span_near(px, py, 2.0).is_some() {
                points.push((px, py, e[0].2 + (e[1].2 - e[0].2) * t));
            }
        }
        let beside = (0..self.roads.len())
            .filter(|j| *j != i && self.roads[*j].road.deck)
            .map(|j| {
                let other = &self.roads[j].mesh;
                Alongside {
                    road: j as u32,
                    heading: heading_of(&other.ends()),
                    tops: points.iter().map(|p| other.span_near(p.0, p.1, CARRY_LATERAL_M).map(|s| s.1)).collect(),
                }
            })
            .collect();
        Deck {
            road: i as u32,
            ends: Some((end(0, -1.0), end(1, 1.0))),
            heading: heading_of(&e),
            length: um(len) as u64,
            axis: points.iter().map(|p| um(p.2)).collect(),
            beside,
        }
    }

    fn kerbs(&self) -> Vec<KerbEdge> {
        let mut out = Vec::new();
        for (i, d) in self.roads.iter().enumerate().filter(|(_, d)| d.road.pavement) {
            for (a, b, opp) in d.mesh.boundary() {
                let m = &d.mesh;
                let (x, y) = ((m.x[a] + m.x[b]) * 0.5, (m.y[a] + m.y[b]) * 0.5);
                let (dx, dy) = (x - m.x[opp], y - m.y[opp]);
                let len = (dx * MX).hypot(dy * MY);
                out.push(KerbEdge {
                    road: i as u32,
                    owned: owns(x, y),
                    place: place(x, y),
                    height: um((m.z[a] + m.z[b]) * 0.5),
                    outside: if len > 0.0 { Some(self.at(x + dx / len, y + dy / len)) } else { None },
                });
            }
        }
        out
    }

    fn rims(&self) -> Vec<RimEdge> {
        let Some(t) = &self.terrain else { return Vec::new() };
        let on_edge = |v: f64| v.abs() < 1e-6 || (v - 1.0).abs() < 1e-6;
        t.boundary()
            .iter()
            .map(|(a, b, _)| {
                let (x, y) = ((t.x[*a] + t.x[*b]) * 0.5, (t.y[*a] + t.y[*b]) * 0.5);
                RimEdge {
                    height: um((t.z[*a] + t.z[*b]) * 0.5),
                    on_tile_edge: on_edge(x) || on_edge(y),
                    at: self.at(x, y),
                }
            })
            .collect()
    }

    fn scene(self) -> ContactScene {
        let lines = self
            .lines
            .iter()
            .map(|(class, points)| Line {
                class: class.clone(),
                level: 0,
                rail: class.contains("gauge"),
                parts: vec![points
                    .iter()
                    .map(|p| LineVertex { height: um(p.2), at: self.at(p.0, p.1) })
                    .collect()],
            })
            .collect();
        ContactScene {
            zoom: 16,
            has_terrain: self.terrain.is_some(),
            decks: (0..self.roads.len()).filter(|i| self.roads[*i].road.deck).map(|i| self.deck(i)).collect(),
            lines,
            kerbs: self.kerbs(),
            rims: self.rims(),
            roads: roads_of(self.roads),
        }
    }
}

/// Metrics by id.
fn run(site: Site) -> HashMap<String, Metric> {
    let opt = Options { spacing: 1_000_000, ..Options::default() };
    let mut c = Contact::new(&opt);
    c.visit(&site.scene());
    c.finish().into_iter().map(|m| (m.id.clone(), m)).collect()
}

fn metres(m: &Metric) -> f64 {
    m.worst_value().unwrap() as f64 / 1e6
}

fn quad(x0: f64, x1: f64, z: f64) -> Mesh {
    plane(x0, x1, 0.0, 1.0, z)
}

/// A vertical wall along `x`, spanning `lo..hi`: only a nearness query can see
/// it.
fn wall(x: f64, lo: f64, hi: f64) -> Mesh {
    Mesh { x: vec![x; 4], y: vec![0.0, 1.0, 1.0, 0.0], z: vec![hi, hi, lo, lo], corners: vec![0, 1, 2, 0, 2, 3] }
}

/// Asphalt over `x < 0.5` at `road_m`, ground starting at the kerb and lying at
/// `ground_m` outside it, and whatever stands between them.
fn kerbed(road_m: f64, ground_m: f64, extra: Vec<Drawn>) -> Site {
    let mut roads = vec![drawn("road_surface", 0, quad(0.0, 0.5, road_m))];
    roads.extend(extra);
    Site { terrain: Some(quad(0.5, 1.0, ground_m)), roads, lines: Vec::new() }
}

fn apron(lo: f64, hi: f64) -> Drawn {
    drawn("road_apron", 0, wall(0.5, lo, hi))
}

#[test]
fn a_kerb_standing_on_nothing_is_caught_as_a_lip() {
    let m = run(kerbed(110.0, 100.0, vec![]));
    let lip = &m[LIP];
    assert!(lip.violations() > 0, "a 10 m drop at the kerb must be caught");
    assert!((metres(lip) - 10.0).abs() < 0.5, "the wall's height, not a ratio: {:?}", lip.worst_value());
    assert!(matches!(lip.worst[0].note, Note::KerbLip { kerb: 110_000_000, ground: 100_000_000 }));
}

#[test]
fn a_road_level_with_the_ground_beside_it_has_no_lip() {
    let m = run(kerbed(100.0, 100.0, vec![]));
    assert!(!m[LIP].dist.is_empty(), "the kerb must actually be walked");
    assert_eq!(m[LIP].violations(), 0, "a flush kerb is not a lip");
    assert_eq!(m[UNWALLED].violations(), 0, "and there is nothing to wall");
}

#[test]
fn a_lip_with_no_apron_over_it_is_unwalled() {
    let m = run(kerbed(110.0, 100.0, vec![]));
    let unwalled = &m[UNWALLED];
    assert!(unwalled.violations() > 0, "an unspanned 10 m gap must be caught");
    assert!((metres(unwalled) - 10.0).abs() < 0.5, "the gap's own height: {:?}", unwalled.worst_value());
    assert!(!unwalled.worst.is_empty(), "a violation must name a place");
}

#[test]
fn an_apron_spanning_the_drop_closes_it() {
    let m = run(kerbed(110.0, 100.0, vec![apron(100.0, 110.0)]));
    assert!(m[LIP].violations() > 0, "the lip is a fact about the model, not a defect");
    assert_eq!(m[UNWALLED].violations(), 0, "the apron spans it, so nothing is unwalled");
}

#[test]
fn an_apron_too_short_for_the_drop_does_not_close_it() {
    let m = run(kerbed(110.0, 100.0, vec![apron(107.0, 110.0)]));
    assert!(m[UNWALLED].violations() > 0, "a partial wall does not close the gap");
}

#[test]
fn a_road_in_a_cutting_is_walled_the_other_way_round() {
    let m = run(kerbed(100.0, 108.0, vec![]));
    assert!(m[UNWALLED].violations() > 0, "a cutting leaves the same open gap");
    let m = run(kerbed(100.0, 108.0, vec![apron(100.0, 108.0)]));
    assert_eq!(m[UNWALLED].violations(), 0, "and the same apron closes it");
}

#[test]
fn a_tile_without_terrain_is_skipped_rather_than_scored_clean() {
    let mut site = kerbed(110.0, 100.0, vec![]);
    site.terrain = None;
    let m = run(site);
    assert!(m[LIP].skipped, "no ground must read as skipped, not as passing");
    assert_eq!(m[LIP].violations(), 0);
}

#[test]
fn buffer_geometry_is_the_neighbours_business() {
    let m = run(Site {
        terrain: Some(quad(0.5, 1.5, 100.0)),
        roads: vec![drawn("road_surface", 0, quad(-0.4, 0.5, 110.0))],
        lines: Vec::new(),
    });
    assert!(m[LIP].violations() > 0, "the interior kerb must be walked");
    for o in &m[LIP].worst {
        let lon = o.place.lon;
        assert!((0..=1_000_000_000).contains(&lon), "offender at {lon} is outside the tile");
    }
}

/// A terrain profile as a strip of quads along `x`.
fn ground_strip(pts: &[(f64, f64)]) -> Mesh {
    let mut m = Mesh { x: Vec::new(), y: Vec::new(), z: Vec::new(), corners: Vec::new() };
    for (i, &(px, pz)) in pts.iter().enumerate() {
        m.x.extend([px, px]);
        m.y.extend([-1.0, 2.0]);
        m.z.extend([pz, pz]);
        if i > 0 {
            let b = (i - 1) * 2;
            m.corners.extend([b, b + 1, b + 3, b, b + 3, b + 2]);
        }
    }
    m
}

/// A slab from `x0..x1` and `y0..y1`, its top running `z0` to `z1`.
fn slab(class: &str, x0: f64, x1: f64, y0: f64, y1: f64, z0: f64, z1: f64) -> Drawn {
    let mut mesh = plane(x0, x1, y0, y1, z0);
    mesh.z = vec![z0, z1, z1, z0];
    drawn(class, 1, mesh)
}

/// A deck with its top running `z0` to `z1`.
fn deck(class: &str, x0: f64, x1: f64, z0: f64, z1: f64) -> Drawn {
    slab(class, x0, x1, 0.4, 0.6, z0, z1)
}

fn with_ground(terrain: Mesh, roads: Vec<Drawn>) -> Site {
    Site { terrain: Some(terrain), roads, lines: Vec::new() }
}

const SEAT: &str = "contact.deck_seat";

fn gorge() -> Mesh {
    ground_strip(&[(0.0, 435.0), (0.30, 435.0), (0.33, 415.0), (0.37, 415.0), (0.40, 435.0), (1.0, 435.0)])
}

#[test]
fn a_deck_that_starts_down_a_wall_is_caught() {
    let m = run(with_ground(gorge(), vec![deck("footway", 0.32, 0.40, 421.0, 435.0)]));
    assert!(m[SEAT].violations() > 0, "an abutment 14 m down a wall must be caught");
    assert!(metres(&m[SEAT]) > 5.0, "the wall above it is metres, not centimetres: {:?}", m[SEAT].worst_value());
    assert!(matches!(m[SEAT].worst[0].note, Note::DeckSeat { low: 421_000_000, high: 435_000_000, .. }));
}

#[test]
fn a_deck_seated_on_its_banks_is_clean() {
    let m = run(with_ground(gorge(), vec![deck("footway", 0.29, 0.41, 435.0, 435.0)]));
    assert_eq!(m[SEAT].violations(), 0, "a level deck bank to bank is not a defect");
}

#[test]
fn a_level_deck_on_a_hillside_does_not_score_the_hillside() {
    let terrain = ground_strip(&[(0.0, 560.0), (0.5, 500.0), (1.0, 440.0)]);
    let m = run(with_ground(terrain, vec![deck("path", 0.48, 0.52, 502.4, 502.4)]));
    assert_eq!(
        m[SEAT].violations(),
        0,
        "a 100 % hillside above a level deck is terrain, not a defect: {:?}",
        m[SEAT].worst_value()
    );
}

const CARRIED: &str = "contact.deck_carried";

fn decks_only(roads: Vec<Drawn>) -> Site {
    Site { terrain: None, roads, lines: Vec::new() }
}

/// A road bridge and, three metres beside it, a footway tagged as a bridge of
/// its own whose far end falls `sink` below the deck.
fn sidewalk(sink: f64) -> Vec<Drawn> {
    vec![
        slab("residential", 0.45, 0.55, 0.4934, 0.5066, 500.0, 500.0),
        slab("footway", 0.45, 0.55, 0.5124, 0.5206, 500.0, 500.0 - sink),
    ]
}

#[test]
fn a_sidewalk_sunk_below_its_road_bridge_is_caught() {
    let m = run(decks_only(sidewalk(4.0)));
    assert!(m[CARRIED].violations() > 0, "a footway 4 m under its bridge must be caught");
    let worst = metres(&m[CARRIED]);
    assert!((worst - 4.0).abs() < 0.5, "the sink in metres: {worst:?}");
    assert!(matches!(&m[CARRIED].worst[0].note, Note::CarriedDeck { carrier, .. } if carrier == "residential"));
}

#[test]
fn a_sidewalk_level_with_its_bridge_is_clean() {
    let m = run(decks_only(sidewalk(0.0)));
    assert_eq!(m[CARRIED].dist.count(), 1, "a carried deck is measured either way");
    assert_eq!(m[CARRIED].violations(), 0, "level with its carrier is not a defect");
}

#[test]
fn a_footbridge_under_a_viaduct_is_not_carried() {
    let mut roads = sidewalk(0.0);
    roads[1] = slab("footway", 0.45, 0.55, 0.5124, 0.5206, 460.0, 460.0);
    let m = run(decks_only(roads));
    assert!(m[CARRIED].skipped, "40 m below is passing under, not riding on");
}

#[test]
fn a_lone_footbridge_is_not_in_the_population() {
    let m = run(decks_only(vec![slab("footway", 0.45, 0.55, 0.5124, 0.5206, 500.0, 496.0)]));
    assert!(m[CARRIED].skipped, "nothing is carrying it: {:?}", m[CARRIED].dist.count());
}

#[test]
fn a_deck_too_far_to_one_side_does_not_carry() {
    let mut roads = sidewalk(4.0);
    roads[0] = slab("residential", 0.45, 0.55, 0.5988, 0.6120, 500.0, 500.0);
    let m = run(decks_only(roads));
    assert!(m[CARRIED].skipped, "a deck 25 m off is a different bridge");
}

#[test]
fn a_footway_crossing_a_bridge_is_not_carried_by_it() {
    let m = run(decks_only(vec![
        slab("residential", 0.45, 0.55, 0.4934, 0.5066, 500.0, 500.0),
        slab("footway", 0.4975, 0.5025, 0.45, 0.55, 500.0, 496.0),
    ]));
    assert!(m[CARRIED].skipped, "crossing a bridge is not riding it");
}

#[test]
fn a_solved_deck_is_not_in_the_population() {
    let terrain = ground_strip(&[(0.0, 435.0), (0.30, 435.0), (0.33, 415.0), (1.0, 415.0)]);
    let m = run(with_ground(terrain, vec![deck("motorway", 0.32, 0.40, 421.0, 435.0)]));
    assert!(m[SEAT].skipped, "no fitted decks here: {:?}", m[SEAT].dist.count());
}

const RAIL: &str = "contact.rail_standoff";

/// Flat ground carrying one at-grade centreline, plus any extra meshes.
fn railed(class: &str, ground_m: f64, line_m: f64, extra: Vec<Drawn>) -> Site {
    Site {
        terrain: Some(quad(0.0, 1.0, ground_m)),
        roads: extra,
        lines: vec![(class.to_string(), vec![(0.3, 0.5, line_m), (0.5, 0.5, line_m), (0.7, 0.5, line_m)])],
    }
}

#[test]
fn a_railway_in_the_air_is_caught() {
    let m = run(railed("narrow_gauge", 800.0, 812.0, vec![]));
    let rail = &m[RAIL];
    assert!(rail.violations() > 0, "a 12 m gap under a railway must be caught");
    assert!((metres(rail) - 12.0).abs() < 0.5, "the height of the air under it: {:?}", rail.worst_value());
    assert!(matches!(rail.worst[0].note, Note::RailStandoff { height: 812_000_000, ground: 800_000_000, .. }));
}

#[test]
fn a_railway_on_its_formation_scores_zero() {
    let m = run(railed("standard_gauge", 800.0, 800.0, vec![]));
    assert!(!m[RAIL].skipped && m[RAIL].dist.count() > 0, "the samples are the proof");
    assert_eq!(m[RAIL].violations(), 0);
}

#[test]
fn paint_riding_a_viaduct_is_not_a_float() {
    let deck = drawn("narrow_gauge", 1, quad(0.0, 1.0, 812.0));
    let m = run(railed("narrow_gauge", 800.0, 812.0, vec![deck]));
    assert!(m[RAIL].skipped, "a deck under the stroke carries it: {:?}", m[RAIL].dist.count());
}

#[test]
fn an_unclassified_railway_is_not_in_the_population() {
    let m = run(railed("unknown", 800.0, 812.0, vec![]));
    assert!(m[RAIL].skipped, "no gauge, no measurement");
}

#[test]
fn a_road_centerline_is_not_measured_as_rail() {
    let m = run(railed("residential", 800.0, 812.0, vec![]));
    assert!(m[RAIL].skipped, "a street is the kerb metric's business");
}

#[test]
fn a_walkway_beside_the_kerb_is_the_ground_there() {
    // The terrain is ten metres down, the walkway band level with the road.
    let walk = drawn("walk_surface", 0, quad(0.5, 0.6, 110.0));
    let m = run(kerbed(110.0, 100.0, vec![walk]));
    assert_eq!(m[LIP].violations(), 0);
    assert!(!m[LIP].dist.is_empty());
}

#[test]
fn a_seat_is_never_deeper_than_the_deck_tilts() {
    // The far end is three metres up, the wall fourteen: the tilt bounds it.
    let m = run(with_ground(gorge(), vec![deck("footway", 0.32, 0.40, 421.0, 424.0)]));
    assert_eq!(m[SEAT].dist.max(), Some(3_000_000));
}
