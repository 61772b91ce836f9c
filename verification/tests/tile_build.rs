//! Tile assembly, read back from the bytes.
use arpentry::terrain::flat_mesh;
use arpentry::tile_build::dictionary::{Dictionaries, EncoderFeature, EncoderLayer};
use arpentry::tile_build::geometry::{flatten, unzip, Corner, Geometry, Polygon, Ring};
use arpentry::tile_build::size::{tile_fits, try_build_tile_q};
use arpentry::tile_build::decompress as read_back;
use arpentry::tile_build::{build_tile, build_tile_q, compress, encode};
use arpentry::value::{double_of, f64_of, str_of, width_rules_m, Number, Value};

fn decompress(data: &[u8]) -> Vec<u8> {
    let mut out = Vec::new();
    let mut input = data;
    brotli::BrotliDecompress(&mut input, &mut out).unwrap();
    out
}

fn u16_at(b: &[u8], p: usize) -> usize {
    usize::from(u16::from_le_bytes([b[p], b[p + 1]]))
}

fn u32_at(b: &[u8], p: usize) -> usize {
    u32::from_le_bytes([b[p], b[p + 1], b[p + 2], b[p + 3]]) as usize
}

fn i64_at(b: &[u8], p: usize) -> i64 {
    i64::from_le_bytes([
        b[p],
        b[p + 1],
        b[p + 2],
        b[p + 3],
        b[p + 4],
        b[p + 5],
        b[p + 6],
        b[p + 7],
    ])
}

/// Follows the offset stored at a position.
fn follow(b: &[u8], p: usize) -> usize {
    p + u32_at(b, p)
}

/// Where a table keeps a field, by the field's number.
fn field(b: &[u8], table: usize, number: usize) -> Option<usize> {
    let back = i32::from_le_bytes([b[table], b[table + 1], b[table + 2], b[table + 3]]);
    let vtable = (table as i64 - i64::from(back)) as usize;
    let slot = 4 + 2 * number;
    if slot >= u16_at(b, vtable) {
        return None;
    }
    match u16_at(b, vtable + slot) {
        0 => None,
        at => Some(table + at),
    }
}

/// A vector or string field: where its items start, and how many they are.
fn items(b: &[u8], table: usize, number: usize) -> Option<(usize, usize)> {
    field(b, table, number).map(|p| {
        let v = follow(b, p);
        (v + 4, u32_at(b, v))
    })
}

fn text_at(b: &[u8], p: usize) -> String {
    let s = follow(b, p);
    let n = u32_at(b, s);
    String::from_utf8(b[s + 4..s + 4 + n].to_vec()).unwrap()
}

fn text(b: &[u8], table: usize, number: usize) -> Option<String> {
    field(b, table, number).map(|p| text_at(b, p))
}

/// The table a vector of tables holds at an index.
fn nth(b: &[u8], v: (usize, usize), i: usize) -> usize {
    assert!(i < v.1);
    follow(b, v.0 + 4 * i)
}

fn root(b: &[u8]) -> usize {
    follow(b, 0)
}

const LAYERS: usize = 1;
const KEYS: usize = 2;
const VALUES: usize = 3;

fn corner(fx: f64, fy: f64) -> Corner {
    let q = |f: f64| (16384.0 + f * 32768.0).round() as u16;
    Corner { x: q(fx), y: q(fy) }
}

fn closed(points: &[(f64, f64)]) -> Ring {
    Ring { corners: points.iter().map(|p| corner(p.0, p.1)).collect(), closed: true }
}

fn words(s: &str) -> Value {
    Value::String(s.to_string())
}

fn one_point_layer(name: &str, id: u64, properties: Vec<(String, Value)>) -> EncoderLayer {
    EncoderLayer {
        name: name.to_string(),
        features: vec![EncoderFeature { id, geometry: Geometry::Point(corner(0.5, 0.5)), properties }],
    }
}

#[test]
fn arpt_identifier_and_compression() {
    let layers = vec![one_point_layer("water", 1, vec![("class".to_string(), words("lake"))])];
    let raw = encode(None, &layers);
    assert_eq!(&raw[4..8], b"arpt");
    assert_eq!(decompress(&build_tile(None, &layers)), raw);
}

#[test]
fn a_quality_out_of_range_gives_the_bytes_of_the_nearest() {
    let layers = [];
    let at = |quality: i32| build_tile_q(None, &layers, quality);
    assert_eq!(at(-5), at(0));
    assert_eq!(at(99), at(11));
    let data: Vec<u8> = (0..4000u32).map(|i| (i * i % 251) as u8).collect();
    assert_eq!(compress(&data, i32::MIN), compress(&data, 0));
    assert_eq!(compress(&data, i32::MAX), compress(&data, 11));
    assert_ne!(compress(&data, 0), compress(&data, 11));
}

#[test]
fn every_quality_decompresses_to_the_same_tile() {
    let layers = vec![one_point_layer("water", 1, vec![("class".to_string(), words("lake"))])];
    let raw = encode(None, &layers);
    for quality in [-3, 0, 5, 11, 40] {
        let tile = build_tile_q(None, &layers, quality);
        assert_ne!(tile, raw, "a compressed tile is no copy");
        assert_eq!(decompress(&tile), raw);
    }
    let plain = vec![7u8; 4000];
    let packed = compress(&plain, 7);
    assert!(packed.len() < plain.len() / 10);
    assert_eq!(decompress(&packed), plain);
}

#[test]
fn polygon_feature_roundtrips() {
    let poly = Polygon {
        exterior: closed(&[(0.1, 0.1), (0.4, 0.1), (0.4, 0.4), (0.1, 0.1)]),
        interiors: vec![],
    };
    let layers = vec![EncoderLayer {
        name: "land".to_string(),
        features: vec![EncoderFeature {
            id: 42,
            geometry: Geometry::Polygon(poly),
            properties: vec![("class".to_string(), words("forest"))],
        }],
    }];

    let raw = encode(None, &layers);
    let tile = root(&raw);
    assert_eq!(u32_at(&raw, field(&raw, tile, 0).unwrap()), 1);

    let layers_r = items(&raw, tile, LAYERS).expect("layers");
    assert_eq!(layers_r.1, 1);
    let layer = nth(&raw, layers_r, 0);
    assert_eq!(text(&raw, layer, 0).as_deref(), Some("land"));

    let feats = items(&raw, layer, 1).expect("features");
    assert_eq!(feats.1, 1);
    let feat = nth(&raw, feats, 0);
    assert_eq!(i64_at(&raw, field(&raw, feat, 0).unwrap()), 42);
    assert_eq!(raw[field(&raw, feat, 1).unwrap()], 3, "polygon geometry");

    let pg = follow(&raw, field(&raw, feat, 2).expect("polygon geometry"));
    // Open ring: 4 closed corners, 3 stored; single ring, no offsets.
    let xs = items(&raw, pg, 0).unwrap();
    assert_eq!(xs.1, 3);
    let stored: Vec<usize> = (0..3).map(|i| u16_at(&raw, xs.0 + 2 * i)).collect();
    assert_eq!(stored, vec![19661, 29491, 29491]);
    assert!(items(&raw, pg, 3).is_none());
    assert!(items(&raw, pg, 4).is_none());

    // class=forest resolves through the dictionaries.
    let keys = items(&raw, tile, KEYS).expect("keys");
    let values = items(&raw, tile, VALUES).expect("values");
    let props = items(&raw, feat, 3).expect("properties");
    assert_eq!(props.1, 1);
    let (k, v) = (u32_at(&raw, props.0), u32_at(&raw, props.0 + 4));
    assert_eq!(text_at(&raw, keys.0 + 4 * k), "class");
    let value = nth(&raw, values, v);
    assert_eq!(field(&raw, value, 0), None, "the string type is the default");
    assert_eq!(text(&raw, value, 1).as_deref(), Some("forest"));
}

#[test]
fn reserved_keys_come_first() {
    let layers = vec![one_point_layer(
        "poi",
        1,
        vec![
            ("custom".to_string(), Value::Int(7)),
            ("class".to_string(), words("cafe")),
            ("name".to_string(), words("X")),
        ],
    )];
    let raw = encode(None, &layers);
    let keys = items(&raw, root(&raw), KEYS).unwrap();
    assert_eq!(text_at(&raw, keys.0), "class");
    assert_eq!(text_at(&raw, keys.0 + 4), "name");
    assert_eq!(text_at(&raw, keys.0 + 8), "custom");
    // The properties point at the reordered keys, in their own order.
    let layer = nth(&raw, items(&raw, root(&raw), LAYERS).unwrap(), 0);
    let feat = nth(&raw, items(&raw, layer, 1).unwrap(), 0);
    let props = items(&raw, feat, 3).unwrap();
    let pairs: Vec<(usize, usize)> = (0..props.1)
        .map(|i| (u32_at(&raw, props.0 + 8 * i), u32_at(&raw, props.0 + 8 * i + 4)))
        .collect();
    assert_eq!(pairs, vec![(2, 0), (0, 1), (1, 2)]);
}

#[test]
fn value_dedup_across_features() {
    let pt = |fx: f64| Geometry::Point(corner(fx, 0.5));
    let oak = || vec![("class".to_string(), words("oak"))];
    let layers = vec![EncoderLayer {
        name: "tree".to_string(),
        features: vec![
            EncoderFeature { id: 1, geometry: pt(0.3), properties: oak() },
            EncoderFeature { id: 2, geometry: pt(0.6), properties: oak() },
        ],
    }];
    let raw = encode(None, &layers);
    assert_eq!(items(&raw, root(&raw), VALUES).unwrap().1, 1);
    assert_eq!(items(&raw, root(&raw), KEYS).unwrap().1, 1);
}

#[test]
fn multipolygon_has_both_offset_arrays() {
    let sq = |ox: f64, oy: f64| Polygon {
        exterior: closed(&[(ox, oy), (ox + 0.1, oy), (ox + 0.1, oy + 0.1), (ox, oy)]),
        interiors: vec![],
    };
    let layers = vec![EncoderLayer {
        name: "land".to_string(),
        features: vec![EncoderFeature {
            id: 1,
            geometry: Geometry::MultiPolygon(vec![sq(0.1, 0.1), sq(0.5, 0.5)]),
            properties: vec![],
        }],
    }];
    let raw = encode(None, &layers);
    let layer = nth(&raw, items(&raw, root(&raw), LAYERS).unwrap(), 0);
    let feat = nth(&raw, items(&raw, layer, 1).unwrap(), 0);
    let pg = follow(&raw, field(&raw, feat, 2).unwrap());
    assert!(items(&raw, pg, 3).is_some());
    assert!(items(&raw, pg, 4).is_some());
    assert_eq!(items(&raw, pg, 4).unwrap().1, 3);
    let rings = items(&raw, pg, 3).unwrap();
    let stored: Vec<usize> = (0..rings.1).map(|i| u32_at(&raw, rings.0 + 4 * i)).collect();
    assert_eq!(stored, vec![0, 3, 6]);
}

#[test]
fn terrain_layer_encodes_as_mesh_first() {
    let mesh = flat_mesh(4);
    let raw = encode(Some(&mesh), &[]);
    let layers = items(&raw, root(&raw), LAYERS).expect("layers");
    assert_eq!(layers.1, 1);
    let terr = nth(&raw, layers, 0);
    assert_eq!(text(&raw, terr, 0).as_deref(), Some("terrain"));

    let feat = nth(&raw, items(&raw, terr, 1).expect("features"), 0);
    assert_eq!(raw[field(&raw, feat, 1).unwrap()], 4, "mesh geometry");
    assert!(field(&raw, feat, 0).is_none() && field(&raw, feat, 3).is_none());
    let m = follow(&raw, field(&raw, feat, 2).expect("mesh geometry"));
    assert_eq!(items(&raw, m, 0).unwrap().1, 25);
    assert_eq!(items(&raw, m, 2).unwrap().1, 25);
    assert_eq!(items(&raw, m, 3).unwrap().1, 4 * 4 * 6);
    assert_eq!(items(&raw, m, 4).unwrap().1, 50);
}

#[test]
fn terrain_stands_before_every_other_layer() {
    let layers = vec![one_point_layer("water", 3, vec![])];
    let raw = encode(Some(&flat_mesh(1)), &layers);
    let list = items(&raw, root(&raw), LAYERS).unwrap();
    let names: Vec<String> =
        (0..list.1).map(|i| text(&raw, nth(&raw, list, i), 0).unwrap()).collect();
    assert_eq!(names, vec!["terrain", "water"]);
}

#[test]
fn every_type_of_value_reads_back() {
    let big = 1.5e300f64;
    let props = vec![
        ("a".to_string(), Value::Int(-9)),
        ("b".to_string(), Value::Int(0)),
        ("c".to_string(), Value::Double(big.to_bits())),
        ("d".to_string(), Value::Double((-0.0f64).to_bits())),
        ("e".to_string(), Value::Bool(true)),
        ("f".to_string(), Value::Bool(false)),
    ];
    let raw = encode(None, &[one_point_layer("poi", 1, props)]);
    let values = items(&raw, root(&raw), VALUES).unwrap();
    assert_eq!(values.1, 6);
    let kind = |i: usize| raw[field(&raw, nth(&raw, values, i), 0).unwrap()];
    assert_eq!((0..6).map(kind).collect::<Vec<u8>>(), vec![1, 1, 2, 2, 3, 3]);
    let at = |i: usize, number: usize| field(&raw, nth(&raw, values, i), number);
    assert_eq!(i64_at(&raw, at(0, 2).unwrap()), -9);
    assert_eq!(at(1, 2), None);
    assert_eq!(i64_at(&raw, at(2, 3).unwrap()) as u64, big.to_bits());
    assert_eq!(at(3, 3), None, "a zero of either sign is the default");
    assert_eq!(raw[at(4, 4).unwrap()], 1);
    assert_eq!(at(5, 4), None);
}

#[test]
fn empty_geometries_are_left_out() {
    let make = |geometry: Geometry| EncoderFeature { id: 1, geometry, properties: vec![] };
    let layers = vec![EncoderLayer {
        name: "mixed".to_string(),
        features: vec![
            make(Geometry::MultiPoint(vec![])),
            make(Geometry::LineString(vec![corner(0.1, 0.1)])),
            make(Geometry::MultiPolygon(vec![])),
            make(Geometry::Other),
            make(Geometry::LineString(vec![corner(0.1, 0.1), corner(0.2, 0.2)])),
        ],
    }];
    let raw = encode(None, &layers);
    let layer = nth(&raw, items(&raw, root(&raw), LAYERS).unwrap(), 0);
    let feats = items(&raw, layer, 1).unwrap();
    assert_eq!(feats.1, 1);
    assert_eq!(raw[field(&raw, nth(&raw, feats, 0), 1).unwrap()], 2, "line geometry");
}

#[test]
fn several_lines_carry_offsets_and_one_does_not() {
    let a = vec![corner(0.0, 0.0), corner(0.1, 0.0)];
    let b = vec![corner(0.2, 0.0), corner(0.3, 0.0), corner(0.4, 0.0)];
    let one = flatten(&Geometry::LineString(a.clone())).unwrap();
    assert_eq!(one.starts, None);
    let two = flatten(&Geometry::MultiLineString(vec![a, b])).unwrap();
    assert_eq!(two.kind, 2);
    assert_eq!(two.xs.len(), 5);
    assert_eq!(two.starts, Some(vec![0, 2, 5]));
    assert_eq!(two.polygons, None);
}

#[test]
fn a_hole_adds_ring_offsets_only() {
    let hole = closed(&[(0.2, 0.2), (0.3, 0.2), (0.3, 0.3), (0.2, 0.2)]);
    let open = Ring {
        corners: vec![corner(0.0, 0.0), corner(0.9, 0.0), corner(0.9, 0.9), corner(0.0, 0.9)],
        closed: false,
    };
    let flat = flatten(&Geometry::Polygon(Polygon { exterior: open, interiors: vec![hole] }));
    let flat = flat.unwrap();
    assert_eq!(flat.xs.len(), 7);
    assert_eq!(flat.starts, Some(vec![0, 4, 7]));
    assert_eq!(flat.polygons, None);
}

#[test]
fn corners_are_split_into_coordinates() {
    let (xs, ys) = unzip(&[Corner { x: 1, y: 2 }, Corner { x: 3, y: 4 }]);
    assert_eq!((xs, ys), (vec![1, 3], vec![2, 4]));
}

#[test]
fn dictionaries_find_what_they_hold() {
    let layers = vec![one_point_layer(
        "poi",
        1,
        vec![
            ("rank".to_string(), Value::Int(1)),
            ("own".to_string(), Value::Int(1)),
            ("class".to_string(), words("cafe")),
            ("own".to_string(), Value::Bool(true)),
        ],
    )];
    let d = Dictionaries::build(&layers);
    assert_eq!(d.keys.len(), 3);
    assert_eq!((d.keys.find("class"), d.keys.find("rank"), d.keys.find("own")), (
        Some(0),
        Some(1),
        Some(2),
    ));
    assert_eq!(d.keys.find("name"), None);
    assert_eq!(d.values.len(), 3);
    assert_eq!(d.values.find(&Value::Int(1)), Some(0));
    assert_eq!(d.values.find(&words("cafe")), Some(1));
    assert_eq!(d.values.find(&Value::Bool(true)), Some(2));
    assert_eq!(d.values.find(&Value::Bool(false)), None);
    assert_eq!(d.values.find(&Value::Double(1)), None);
    assert_eq!(d.keys.get(2), "own");
    assert!(matches!(d.values.get(0), Value::Int(1)));
}

#[test]
fn properties_are_read_by_their_first_entry() {
    let props = vec![
        ("class".to_string(), words("road")),
        ("class".to_string(), words("rail")),
        ("lanes".to_string(), Value::Int(2)),
        ("width".to_string(), Value::Double(4.5f64.to_bits())),
        ("width_rules".to_string(), Value::Int(3)),
        ("width_rules".to_string(), Value::Double(3.5f64.to_bits())),
    ];
    assert_eq!(str_of(&props, "class"), Some("road"));
    assert_eq!(str_of(&props, "lanes"), None);
    assert_eq!(str_of(&props, "none"), None);
    assert_eq!(f64_of(&props, "lanes"), Some(Number::Int(2)));
    assert_eq!(f64_of(&props, "width"), Some(Number::Double(4.5f64.to_bits())));
    assert_eq!(f64_of(&props, "class"), None);
    assert_eq!(width_rules_m(&props), Some(3.5f64.to_bits()));
    assert_eq!(double_of(&props, "lanes"), None);
}

#[test]
fn a_tile_that_fits_is_built_as_asked() {
    let layers = [one_point_layer("water", 7, vec![("class".to_string(), words("lake"))])];
    let mesh = flat_mesh(16);
    assert!(tile_fits(None, &layers));
    assert!(tile_fits(Some(&mesh), &layers));
    assert_eq!(try_build_tile_q(Some(&mesh), &layers, 5), Some(build_tile_q(Some(&mesh), &layers, 5)));
}

#[test]
fn a_tile_past_the_largest_buffer_is_refused() {
    let layers = [one_point_layer(&"x".repeat(0x2000_0000), 7, Vec::new())];
    assert!(!tile_fits(None, &layers));
    assert_eq!(try_build_tile_q(None, &layers, 0), None);
}

#[test]
fn a_buffer_reads_back_from_its_compressed_form() {
    let data: Vec<u8> = (0..5000u32).map(|i| (i * i % 251) as u8).collect();
    for quality in [0, 5, 11] {
        let packed = compress(&data, quality);
        assert_ne!(packed, data);
        assert_eq!(read_back(&packed), Some(data.clone()));
        assert_eq!(decompress(&packed), data);
    }
    assert_eq!(read_back(&compress(&Vec::new(), 5)), Some(Vec::new()));
}

#[test]
fn a_stream_cut_short_reads_back_as_nothing() {
    let data: Vec<u8> = (0..5000u32).map(|i| (i * i % 251) as u8).collect();
    let mut packed = compress(&data, 7);
    packed.truncate(packed.len() / 2);
    assert_eq!(read_back(&packed), None);
    assert_eq!(read_back(&Vec::new()), None);
}
