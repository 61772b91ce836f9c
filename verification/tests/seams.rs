use arpentry::verify::checks::seams::{BorderScene, Borders, SeamReport, Seams, Vertex};
use arpentry::verify::checks::Options;
use arpentry::verify::scene::RoadMesh;
use arpentry::verify::{Invariant, Metric, Note};

const EXTENT: f64 = 32768.0;

/// A tile's border scene and its road features.
struct Tile {
    scene: BorderScene,
    roads: Vec<RoadMesh>,
}

/// Vertices at unit positions, heights in metres.
fn vertices(x: &[f64], y: &[f64], z: &[f64]) -> Vec<Vertex> {
    (0..x.len())
        .map(|i| Vertex {
            x: (x[i] * EXTENT).round() as i64,
            y: (y[i] * EXTENT).round() as i64,
            height: (z[i] * 1e6).round() as i64,
        })
        .collect()
}

/// A tile whose terrain is a strip touching its east and west borders, with
/// the two border heights given.
fn strip(x: u32, west_m: f64, east_m: f64) -> Tile {
    let terrain = vertices(&[0.0, 1.0, 1.0, 0.0], &[0.0, 0.0, 1.0, 1.0], &[west_m, east_m, east_m, west_m]);
    Tile { scene: BorderScene { x, y: 23000, terrain: Some(terrain), meshes: Vec::new() }, roads: Vec::new() }
}

fn report(tiles: &[Tile]) -> SeamReport {
    let mut s = Seams::new(&Options::default());
    for t in tiles {
        s.visit(16, &t.roads, &t.scene);
    }
    s.finish()
}

fn run(tiles: &[Tile]) -> Vec<Metric> {
    report(tiles).metrics
}

fn metric<'a>(m: &'a [Metric], id: &str) -> &'a Metric {
    m.iter().find(|x| x.id == id).expect(id)
}

fn worst(m: &Metric) -> f64 {
    m.worst_value().unwrap() as f64 / 1e6
}

#[test]
fn neighbours_agreeing_on_the_border_report_a_zero_step() {
    let m = run(&[strip(100, 200.0, 250.0), strip(101, 250.0, 300.0)]);
    let step = metric(&m, "seam.terrain_step");
    assert!(!step.dist.is_empty(), "the shared border must have been joined");
    assert_eq!(step.violations(), 0);
    assert_eq!(step.worst_value(), Some(0));
}

#[test]
fn a_disagreement_at_the_border_is_caught_and_placed() {
    let m = run(&[strip(100, 200.0, 250.0), strip(101, 253.5, 300.0)]);
    let step = metric(&m, "seam.terrain_step");
    assert!(step.violations() > 0);
    assert!((worst(step) - 3.5).abs() < 1e-3);
    let o = &step.worst[0];
    assert_eq!(o.zoom, 16);
    let expect = -180.0 + 101.0 * 360.0 / 65536.0;
    let lon = o.place.lon as f64 / 1e9;
    assert!((lon - expect).abs() < 1e-9, "offender at {lon} not {expect}");
    assert!(matches!(o.note, Note::SeamStep { tiles: 2, .. }));
}

#[test]
fn one_tile_alone_proves_nothing_about_a_seam() {
    let m = run(&[strip(100, 200.0, 250.0)]);
    assert!(metric(&m, "seam.terrain_step").skipped);
}

#[test]
fn a_surface_splitting_inside_one_tile_is_not_reported_as_a_seam() {
    let terrain = vertices(
        &[0.0, 1.0, 1.0, 0.0, 0.0],
        &[0.0, 0.0, 1.0, 1.0, 0.0],
        &[200.0, 250.0, 250.0, 200.0, 209.0],
    );
    let t = Tile {
        scene: BorderScene { x: 100, y: 23000, terrain: Some(terrain), meshes: Vec::new() },
        roads: Vec::new(),
    };
    let m = run(&[t]);
    assert!(metric(&m, "seam.terrain_step").skipped, "no neighbour, so no seam");
    let split = metric(&m, "seam.terrain_split");
    assert!(split.violations() > 0, "but the crack must be found");
    assert!((worst(split) - 9.0).abs() < 1e-3);
    assert!(matches!(split.worst[0].note, Note::Split { sheet: None, low: 200_000_000, high: 209_000_000 }));
}

fn split_open() -> Tile {
    let terrain = vertices(
        &[0.0, 1.0, 1.0, 0.0, 1.0, 0.5],
        &[0.0, 0.0, 1.0, 1.0, 1.0, 0.5],
        &[200.0, 250.0, 250.0, 200.0, 253.5, 220.0],
    );
    Tile {
        scene: BorderScene { x: 100, y: 23000, terrain: Some(terrain), meshes: Vec::new() },
        roads: Vec::new(),
    }
}

#[test]
fn a_tiles_own_spread_is_not_charged_to_its_neighbour() {
    let m = run(&[split_open(), strip(101, 250.0, 300.0)]);
    let step = metric(&m, "seam.terrain_step");
    let split = metric(&m, "seam.terrain_split");
    assert_eq!(step.violations(), 0, "worst step was {:?}", step.worst_value());
    assert!(split.violations() > 0, "the crack is still reported, under its own name");
    assert!((worst(split) - 3.5).abs() < 1e-3);
}

#[test]
fn a_split_point_is_counted_as_left_out() {
    let r = report(&[split_open(), strip(101, 250.0, 300.0)]);
    assert_eq!((r.terrain_unusable, r.pavement_unusable), (1, 0));
}

fn surface(sheet: Option<i64>) -> RoadMesh {
    RoadMesh {
        class: "road_surface".to_string(),
        level: 0,
        band: String::new(),
        sheet,
        pavement: true,
        rim: false,
        casing: false,
        deck: false,
        bore: false,
        fitted: false,
        rail: false,
    }
}

/// One tile holding full-tile at-grade slabs, and no terrain.
fn stacked(x: u32, regions: &[(f64, Option<i64>)]) -> Tile {
    Tile {
        scene: BorderScene {
            x,
            y: 23000,
            terrain: None,
            meshes: regions
                .iter()
                .map(|(h, _)| vertices(&[0.0, 1.0, 1.0, 0.0], &[0.0, 0.0, 1.0, 1.0], &[*h; 4]))
                .collect(),
        },
        roads: regions.iter().map(|(_, sheet)| surface(*sheet)).collect(),
    }
}

#[test]
fn two_at_grade_regions_at_one_point_are_reported_as_an_ordering_gap() {
    let m = run(&[stacked(100, &[(480.0, None), (488.8, None)])]);
    let overlap = metric(&m, "order.at_grade_overlap");
    assert!(overlap.violations() > 0);
    assert!((worst(overlap) - 8.8).abs() < 1e-3);
    assert_eq!(overlap.law, Invariant::I3, "this is a vertical-ordering finding");
    assert!(m.iter().all(|x| x.id != "seam.pavement_split"), "not a crack");
    assert_eq!(metric(&m, "seam.pavement_step").violations(), 0);
}

#[test]
fn two_regions_on_different_sheets_are_ordered_and_not_a_gap() {
    let m = run(&[stacked(100, &[(480.0, Some(0)), (488.8, Some(1))])]);
    assert_eq!(metric(&m, "order.at_grade_overlap").violations(), 0);
    let m = run(&[stacked(100, &[(480.0, Some(1)), (488.8, Some(1))])]);
    assert!(metric(&m, "order.at_grade_overlap").violations() > 0);
}

#[test]
fn stacked_asphalt_is_seam_checked_sheet_by_sheet() {
    let a = stacked(100, &[(480.0, Some(0)), (488.8, Some(1))]);
    let b = stacked(101, &[(480.0, Some(0)), (489.5, Some(1))]);
    let m = run(&[a, b]);
    let step = metric(&m, "seam.pavement_step");
    assert!(step.violations() > 0);
    assert!((worst(step) - 0.7).abs() < 1e-3);
    assert_eq!(metric(&m, "order.at_grade_overlap").violations(), 0);
}

#[test]
fn one_surface_each_side_is_one_seam_whatever_its_sheet_number() {
    let a = stacked(100, &[(480.0, Some(0))]);
    let b = stacked(101, &[(480.9, Some(2))]);
    let m = run(&[a, b]);
    let step = metric(&m, "seam.pavement_step");
    assert!(step.violations() > 0);
    assert!((worst(step) - 0.9).abs() < 1e-3);
}

#[test]
fn the_carriageway_seam_is_measured_separately_from_the_ground() {
    let pave = |west: f64, east: f64| {
        vertices(&[0.0, 1.0, 1.0, 0.0], &[0.4, 0.4, 0.6, 0.6], &[west, east, east, west])
    };
    let mut a = strip(100, 200.0, 250.0);
    let mut b = strip(101, 250.0, 300.0);
    a.roads.push(surface(None));
    a.scene.meshes.push(pave(201.0, 251.0));
    b.roads.push(surface(None));
    b.scene.meshes.push(pave(251.9, 301.0));
    let m = run(&[a, b]);
    assert_eq!(metric(&m, "seam.terrain_step").violations(), 0, "the ground still agrees");
    let pav = metric(&m, "seam.pavement_step");
    assert!(pav.violations() > 0, "the asphalt does not");
    assert!((worst(pav) - 0.9).abs() < 1e-3);
}

#[test]
fn a_mesh_without_a_sheet_is_counted() {
    let r = report(&[stacked(100, &[(480.0, Some(0)), (481.0, None), (482.0, None)])]);
    assert_eq!((r.meshes, r.sheetless), (3, 2));
}

#[test]
fn inner_vertices_and_the_buffer_claim_nothing() {
    let mut b = Borders::new();
    let edge = EXTENT as i64;
    let mesh = [
        Vertex { x: 5, y: 5, height: 1 },
        Vertex { x: 0, y: edge + 1, height: 1 },
        Vertex { x: edge, y: 7, height: 1_000 },
        Vertex { x: edge, y: 7, height: 9_000 },
    ];
    b.collect(&mesh, None, 3, 4);
    let m = b.measure(16, 8);
    assert_eq!(m.split.dist.samples, vec![8_000]);
    assert_eq!((m.shared, m.unusable), (0, 0));
}
