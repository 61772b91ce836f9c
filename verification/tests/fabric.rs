use arpentry::verify::checks::fabric::{
    is_closure, is_surface, largest_uncovered, open_step, Fabric, FabricPoint, SPAN_SLOP_UM,
};
use arpentry::verify::checks::Options;
use arpentry::verify::scene::{Probe, RoadMesh};
use arpentry::verify::{Note, Place};

const M: i64 = 1_000_000;

#[test]
fn an_unspanned_step_is_open_end_to_end() {
    let open = largest_uncovered(0, 10 * M, &vec![]);
    assert_eq!(open, 10_000_000 - 2 * SPAN_SLOP_UM);
}

#[test]
fn a_face_covering_the_step_closes_it() {
    let open = largest_uncovered(0, 10 * M, &vec![(-M, 11 * M)]);
    assert_eq!(open, 0);
}

#[test]
fn a_face_covering_half_leaves_the_other_half() {
    let open = largest_uncovered(0, 10 * M, &vec![(-2 * M, 5 * M)]);
    assert_eq!(open, 10_000_000 - SPAN_SLOP_UM - 5_000_000);
}

#[test]
fn two_faces_leaving_a_slot_report_the_slot() {
    let open = largest_uncovered(0, 12 * M, &vec![(0, 4 * M), (8 * M, 12 * M)]);
    assert_eq!(open, 4_000_000);
    let open = largest_uncovered(0, 12 * M, &vec![(8 * M, 12 * M), (0, 4 * M)]);
    assert_eq!(open, 4_000_000, "in whichever order they are drawn");
}

#[test]
fn a_step_inside_the_slop_is_closed() {
    let open = largest_uncovered(0, 2 * SPAN_SLOP_UM as i64, &vec![]);
    assert_eq!(open, 0);
}

#[test]
fn one_more_face_never_opens_a_step() {
    let bare = largest_uncovered(0, 12 * M, &vec![(0, 4 * M)]);
    let faced = largest_uncovered(0, 12 * M, &vec![(0, 4 * M), (6 * M, 7 * M)]);
    assert_eq!(bare, 7_250_000);
    assert_eq!(faced, 4_250_000);
}

fn road(class: &str) -> RoadMesh {
    RoadMesh {
        class: class.to_string(),
        level: 0,
        band: String::new(),
        sheet: None,
        pavement: true,
        rim: false,
        casing: false,
        deck: false,
        bore: false,
        fitted: false,
        rail: false,
    }
}

/// A point where each band answers one height and stands over one span.
fn point(tops: &[i64], spans: Vec<Option<(i64, i64)>>) -> FabricPoint {
    FabricPoint {
        at: Probe {
            owned: true,
            place: Place { lon: 7, lat: 46 },
            terrain: None,
            heights: tops.iter().map(|t| Some(*t)).collect(),
            ranges: tops.iter().map(|t| Some((*t, *t))).collect(),
            spans,
        },
        terrain: None,
        buildings: Vec::new(),
    }
}

#[test]
fn a_rim_closes_nothing_and_only_level_bands_are_measured() {
    assert!(!is_closure(&road("road_rim")));
    assert!(is_closure(&road("road_surface")));
    assert!(is_surface(&road("walk_surface")) && is_surface(&road("path_surface")));
    assert!(!is_surface(&road("road_apron")));
    let mut raised = road("road_surface");
    raised.level = 1;
    assert!(!is_surface(&raised));
}

#[test]
fn terrain_and_buildings_close_a_step_too() {
    let roads = vec![road("road_surface"), road("rail_surface")];
    let mut q = point(&[100 * M, 90 * M], vec![None, None]);
    assert_eq!(open_step(&roads, &q, 90 * M, 100 * M), 8_500_000);
    q.terrain = Some((89 * M, 95 * M));
    assert_eq!(open_step(&roads, &q, 90 * M, 100 * M), 4_250_000);
    q.buildings = vec![(94 * M, 101 * M)];
    assert_eq!(open_step(&roads, &q, 90 * M, 100 * M), 0);
}

#[test]
fn an_open_step_is_measured_once_from_above() {
    let roads = vec![road("road_surface"), road("rail_surface")];
    let open = || point(&[100 * M, 90 * M], vec![None, None]);
    let near = || point(&[93 * M, 90 * M], vec![None, None]);
    let mut c = Fabric::new(&Options::default());
    c.visit(16, &roads, &[vec![open(), near()], vec![open(), near()]]);
    let m = c.finish();
    assert_eq!(m[0].dist.samples, vec![8_500_000, 0]);
    assert_eq!(m[0].violations(), 1);
    assert!(matches!(&m[0].worst[0].note, Note::OpenStep { own, below, upper, .. }
        if *own == 100 * M && *below == 90 * M && upper == "road_surface"));
}

#[test]
fn bands_apart_are_not_a_population() {
    let roads = vec![road("road_surface")];
    let mut c = Fabric::new(&Options::default());
    c.visit(16, &roads, &[vec![point(&[100 * M], vec![None])]]);
    assert!(c.finish()[0].skipped);
}
