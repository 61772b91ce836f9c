//! The tileset index, read back from the bytes.
use arpentry::tileset::{
    build, build_uncompressed, fits, to_fb_geom, Bounds, GeometryType, LayerInfo, TilesetInfo,
};

fn layer(name: &str, kind: GeometryType) -> LayerInfo {
    LayerInfo { name: name.to_string(), geometry_types: vec![kind], min_level: 0, max_level: 8 }
}

fn sample() -> TilesetInfo {
    TilesetInfo {
        name: Some("Natural Earth".to_string()),
        bounds: Bounds {
            west: (-180.0f64).to_bits(),
            south: (-85.0f64).to_bits(),
            east: 180.0f64.to_bits(),
            north: 85.0f64.to_bits(),
        },
        elevation_range: ((-10994.0f64).to_bits(), 8849.0f64.to_bits()),
        min_level: 0,
        max_level: 8,
        root_error: 256000.0f64.to_bits(),
        layers: vec![layer("terrain", GeometryType::Mesh), layer("water", GeometryType::Polygon)],
    }
}

fn decompress(data: &[u8]) -> Vec<u8> {
    let mut out = Vec::new();
    let mut input = data;
    brotli::BrotliDecompress(&mut input, &mut out).expect("brotli decompress");
    out
}

fn u16_at(b: &[u8], p: usize) -> usize {
    usize::from(u16::from_le_bytes([b[p], b[p + 1]]))
}

fn u32_at(b: &[u8], p: usize) -> usize {
    u32::from_le_bytes([b[p], b[p + 1], b[p + 2], b[p + 3]]) as usize
}

fn f64_at(b: &[u8], p: usize) -> f64 {
    f64::from_le_bytes([
        b[p],
        b[p + 1],
        b[p + 2],
        b[p + 3],
        b[p + 4],
        b[p + 5],
        b[p + 6],
        b[p + 7],
    ])
}

fn follow(b: &[u8], p: usize) -> usize {
    p + u32_at(b, p)
}

fn field(b: &[u8], table: usize, number: usize) -> Option<usize> {
    let back = i32::from_le_bytes([b[table], b[table + 1], b[table + 2], b[table + 3]]);
    let vtable = (table as i64 - i64::from(back)) as usize;
    let slot = 4 + 2 * number;
    if slot >= u16_at(b, vtable) {
        return None;
    }
    match u16_at(b, vtable + slot) {
        0 => None,
        at => Some(table + at),
    }
}

fn text(b: &[u8], table: usize, number: usize) -> Option<String> {
    field(b, table, number).map(|p| {
        let s = follow(b, p);
        String::from_utf8(b[s + 4..s + 4 + u32_at(b, s)].to_vec()).unwrap()
    })
}

#[test]
fn has_standard_arpi_identifier() {
    let raw = build_uncompressed(&sample());
    assert_eq!(&raw[4..8], b"arpi");
}

#[test]
fn flatbuffer_reads_back() {
    let raw = build_uncompressed(&sample());
    let ts = follow(&raw, 0);

    assert_eq!(u32_at(&raw, field(&raw, ts, 0).unwrap()), 1);
    assert_eq!(text(&raw, ts, 1).as_deref(), Some("Natural Earth"));
    assert_eq!(field(&raw, ts, 4), None, "level 0 is the default");
    assert_eq!(raw[field(&raw, ts, 5).unwrap()], 8);
    assert_eq!(f64_at(&raw, field(&raw, ts, 6).unwrap()), 256000.0);

    let bounds = field(&raw, ts, 2).expect("bounds present");
    assert_eq!(f64_at(&raw, bounds), -180.0);
    assert_eq!(f64_at(&raw, bounds + 8), -85.0);
    assert_eq!(f64_at(&raw, bounds + 16), 180.0);
    assert_eq!(f64_at(&raw, bounds + 24), 85.0);
    let heights = field(&raw, ts, 3).expect("elevation range present");
    assert_eq!(f64_at(&raw, heights), -10994.0);
    assert_eq!(f64_at(&raw, heights + 8), 8849.0);

    let v = follow(&raw, field(&raw, ts, 7).expect("layers present"));
    assert_eq!(u32_at(&raw, v), 2);
    let first = follow(&raw, v + 4);
    let second = follow(&raw, v + 8);
    assert_eq!(text(&raw, first, 0).as_deref(), Some("terrain"));
    assert_eq!(text(&raw, second, 0).as_deref(), Some("water"));
    let kinds = follow(&raw, field(&raw, second, 1).unwrap());
    assert_eq!((u32_at(&raw, kinds), raw[kinds + 4]), (1, 2));
    assert_eq!(field(&raw, first, 2), None);
    assert_eq!(raw[field(&raw, first, 3).unwrap()], 8);
}

#[test]
fn brotli_roundtrips() {
    let raw = build_uncompressed(&sample());
    let blob = build(&sample());
    assert!(!blob.is_empty());
    assert_eq!(decompress(&blob), raw, "brotli compress/decompress must round-trip");
}

#[test]
fn a_tileset_may_have_no_name() {
    let mut info = sample();
    info.name = None;
    info.min_level = 3;
    info.root_error = 0;
    info.layers = vec![];
    let raw = build_uncompressed(&info);
    let ts = follow(&raw, 0);
    assert_eq!(text(&raw, ts, 1), None);
    assert_eq!(raw[field(&raw, ts, 4).unwrap()], 3);
    assert_eq!(field(&raw, ts, 6), None);
    assert_eq!(u32_at(&raw, follow(&raw, field(&raw, ts, 7).unwrap())), 0);
}

#[test]
fn kinds_have_numbers_of_their_own() {
    let all =
        [GeometryType::Point, GeometryType::Line, GeometryType::Polygon, GeometryType::Mesh];
    let numbers: Vec<u8> = all.iter().map(|g| to_fb_geom(*g)).collect();
    assert_eq!(numbers, vec![0, 1, 2, 3]);
}

#[test]
fn an_index_fits_unless_it_outgrows_a_buffer() {
    let mut info = sample();
    assert!(fits(&info));
    info.name = Some("x".repeat(0x2000_0000));
    assert!(!fits(&info));
}
