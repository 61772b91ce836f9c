//! Whether a tile fits in one buffer.
use vstd::prelude::*;
use crate::terrain::TerrainMesh;
use crate::tile_build::dictionary::{Dictionaries, EncoderFeature, EncoderLayer, Keys, Values};
use crate::tile_build::geometry::{
    all_rings, corner_lists, flat_form, flatten, joined, offsets_fit, offsets_span_the_corners, open_ring, rings_of,
    words_view, Corner, Flat, Geometry, Polygon, Ring,
};
use crate::tile_build::{
    build_tile_q, compressed_near, feature_weight, features_weight, geometry_weight, layer_weight, layers_weight, mesh_of,
    terrain_weight, texts_weight, tile_bytes, tile_weight, value_weight, values_weight, words_weight,
};
use crate::value::Value;
use crate::wire::{decompressed, text_weight, MAX_BUFFER};

verus! {

/// The least weight that is too much.
pub const TOO_MUCH: u64 = 0x8000_0000;

/// A weight as far as it matters: all that fit apart, the rest alike.
pub open spec fn capped(weight: nat) -> u64 {
    if weight < TOO_MUCH {
        weight as u64
    } else {
        TOO_MUCH
    }
}

/// The weights of two parts together.
pub(crate) fn plus(a: u64, b: u64) -> (out: u64)
    requires
        a <= TOO_MUCH,
        b <= TOO_MUCH,
    ensures
        out == capped((a + b) as nat),
{
    if a + b < TOO_MUCH {
        a + b
    } else {
        TOO_MUCH
    }
}

/// The weight of `n` things of `each` bytes, and of what goes with them.
pub(crate) fn times(n: usize, each: u64, rest: u64) -> (out: u64)
    requires
        0 < each <= 0xff,
        rest <= 0xffff,
    ensures
        out == capped((each * n + rest) as nat),
{
    assert(each * n >= n) by (nonlinear_arith)
        requires
            each > 0,
            n >= 0,
    ;
    if n as u128 >= TOO_MUCH as u128 {
        return TOO_MUCH;
    }
    assert(0 <= each * n <= 0xff * 0x8000_0000) by (nonlinear_arith)
        requires
            0 < each <= 0xff,
            0 <= n <= 0x8000_0000,
    ;
    let w: u64 = each * n as u64 + rest;
    if w < TOO_MUCH {
        w
    } else {
        TOO_MUCH
    }
}

pub(crate) fn text_size(s: &String) -> (out: u64)
    ensures
        out == capped(text_weight(s@)),
{
    times(s.as_str().unicode_len(), 4, 16)
}

fn keys_size(keys: &Keys) -> (out: u64)
    ensures
        out == capped(texts_weight(keys@, keys@.len() as int)),
{
    let mut out: u64 = 0;
    let mut i: usize = 0;
    while i < keys.len()
        invariant
            i <= keys@.len(),
            out == capped(texts_weight(keys@, i as int)),
        decreases keys@.len() - i,
    {
        out = plus(out, text_size(keys.get(i)));
        i = i + 1;
    }
    out
}

fn value_size(v: &Value) -> (out: u64)
    ensures
        out == capped(value_weight(v@)),
{
    match v {
        Value::String(s) => plus(text_size(s), times(3, 40, 128)),
        _ => times(3, 40, 128),
    }
}

fn values_size(values: &Values) -> (out: u64)
    ensures
        out == capped(values_weight(values@, values@.len() as int)),
{
    let mut out: u64 = 0;
    let mut i: usize = 0;
    while i < values.len()
        invariant
            i <= values@.len(),
            out == capped(values_weight(values@, i as int)),
        decreases values@.len() - i,
    {
        out = plus(out, value_size(values.get(i)));
        i = i + 1;
    }
    out
}

fn lines_size(lines: &Vec<Vec<Corner>>) -> (out: u64)
    ensures
        out == capped(joined(corner_lists(lines@)).len()),
{
    let mut out: u64 = 0;
    let mut i: usize = 0;
    assert(corner_lists(lines@).take(0) =~= Seq::<Seq<Corner>>::empty());
    while i < lines.len()
        invariant
            i <= lines@.len(),
            out == capped(joined(corner_lists(lines@).take(i as int)).len()),
        decreases lines@.len() - i,
    {
        let ghost all = corner_lists(lines@);
        assert(all.take(i + 1).drop_last() =~= all.take(i as int));
        assert(all.take(i + 1).last() == lines@[i as int]@);
        out = plus(out, times(lines[i].len(), 1, 0));
        i = i + 1;
    }
    assert(corner_lists(lines@).take(lines@.len() as int) =~= corner_lists(lines@));
    out
}

fn ring_size(r: &Ring) -> (out: u64)
    ensures
        out == capped(open_ring(*r).len()),
{
    if r.closed && r.corners.len() > 1 {
        times(r.corners.len() - 1, 1, 0)
    } else {
        times(r.corners.len(), 1, 0)
    }
}

proof fn lemma_joined_push(runs: Seq<Seq<Corner>>, r: Seq<Corner>)
    ensures
        joined(runs.push(r)).len() == joined(runs).len() + r.len(),
{
    assert(runs.push(r).drop_last() =~= runs);
}

proof fn lemma_joined_append(a: Seq<Seq<Corner>>, b: Seq<Seq<Corner>>)
    ensures
        joined(a + b).len() == joined(a).len() + joined(b).len(),
    decreases b.len(),
{
    if b.len() == 0 {
        assert(a + b =~= a);
    } else {
        lemma_joined_append(a, b.drop_last());
        assert((a + b).drop_last() =~= a + b.drop_last());
    }
}

/// The corners and the rings of a polygon.
fn polygon_size(p: &Polygon) -> (out: (u64, u64))
    ensures
        out.0 == capped(joined(rings_of(*p, p.interiors@.len() as int)).len()),
        out.1 == capped(rings_of(*p, p.interiors@.len() as int).len()),
{
    let mut corners: u64 = ring_size(&p.exterior);
    let mut rings: u64 = 1;
    proof {
        lemma_joined_push(Seq::empty(), open_ring(p.exterior));
        assert(Seq::<Seq<Corner>>::empty().push(open_ring(p.exterior)) =~= rings_of(*p, 0));
    }
    let mut i: usize = 0;
    while i < p.interiors.len()
        invariant
            i <= p.interiors@.len(),
            corners == capped(joined(rings_of(*p, i as int)).len()),
            rings == capped(rings_of(*p, i as int).len()),
        decreases p.interiors@.len() - i,
    {
        proof {
            lemma_joined_push(rings_of(*p, i as int), open_ring(p.interiors@[i as int]));
        }
        corners = plus(corners, ring_size(&p.interiors[i]));
        rings = plus(rings, 1);
        i = i + 1;
    }
    (corners, rings)
}

fn polygons_size(v: &Vec<Polygon>) -> (out: (u64, u64))
    ensures
        out.0 == capped(joined(all_rings(v@, v@.len() as int)).len()),
        out.1 == capped(all_rings(v@, v@.len() as int).len()),
{
    let mut corners: u64 = 0;
    let mut rings: u64 = 0;
    let mut i: usize = 0;
    while i < v.len()
        invariant
            i <= v@.len(),
            corners == capped(joined(all_rings(v@, i as int)).len()),
            rings == capped(all_rings(v@, i as int).len()),
        decreases v@.len() - i,
    {
        let (c, r) = polygon_size(&v[i]);
        proof {
            let p = v@[i as int];
            lemma_joined_append(all_rings(v@, i as int), rings_of(p, p.interiors@.len() as int));
        }
        corners = plus(corners, c);
        rings = plus(rings, r);
        i = i + 1;
    }
    (corners, rings)
}

/// Whether a geometry is too long to lay flat. One that is fills a buffer by
/// itself.
fn is_endless(g: &Geometry) -> (yes: bool)
    ensures
        !yes ==> offsets_fit(*g),
        yes ==> flat_form(*g) is Some && geometry_weight(flat_form(*g)->0) >= TOO_MUCH,
{
    match g {
        Geometry::LineString(v) => {
            proof {
                lemma_one_line(v@);
            }
            v.len() as u128 >= TOO_MUCH as u128
        },
        Geometry::MultiLineString(v) => lines_size(v) >= TOO_MUCH,
        Geometry::Polygon(p) => {
            let (corners, rings) = polygon_size(p);
            proof {
                let one = seq![*p];
                assert(all_rings(one, 0) =~= Seq::<Seq<Corner>>::empty());
                assert(all_rings(one, 1) =~= rings_of(*p, p.interiors@.len() as int));
                offsets_span_the_corners(all_rings(one, 1));
            }
            corners > 0 && (corners >= TOO_MUCH || rings >= TOO_MUCH)
        },
        Geometry::MultiPolygon(v) => {
            let (corners, rings) = polygons_size(v);
            proof {
                offsets_span_the_corners(all_rings(v@, v@.len() as int));
            }
            corners > 0 && (corners >= TOO_MUCH || rings >= TOO_MUCH)
        },
        _ => false,
    }
}

proof fn lemma_one_line(line: Seq<Corner>)
    ensures
        joined(seq![line]) == line,
{
    assert(seq![line].drop_last() =~= Seq::<Seq<Corner>>::empty());
    assert(joined(seq![line].drop_last()) =~= Seq::<Corner>::empty());
    assert(joined(seq![line]) =~= line);
}

fn words_size(words: &Option<Vec<u32>>) -> (out: u64)
    ensures
        out == capped(words_weight(words_view(*words))),
{
    match words {
        Some(w) => times(w.len(), 4, 16),
        None => 0,
    }
}

fn feature_size(f: &EncoderFeature) -> (out: u64)
    ensures
        out == capped(feature_weight(*f)),
{
    if is_endless(&f.geometry) {
        return TOO_MUCH;
    }
    match flatten(&f.geometry) {
        None => 0,
        Some(flat) => {
            let flat: Flat = flat;
            let corners: u64 = times(flat.xs.len(), 4, 32);
            let offsets: u64 = plus(words_size(&flat.starts), words_size(&flat.polygons));
            let shape: u64 = plus(plus(corners, offsets), times(5, 40, 128));
            let pairs: u64 = times(f.properties.len(), 80, 168);
            plus(plus(shape, pairs), times(5, 40, 128))
        },
    }
}

fn layer_size(layer: &EncoderLayer) -> (out: u64)
    ensures
        out == capped(layer_weight(*layer)),
{
    let mut out: u64 = 0;
    let mut i: usize = 0;
    while i < layer.features.len()
        invariant
            i <= layer.features@.len(),
            out == capped(features_weight(layer.features@, i as int)),
        decreases layer.features@.len() - i,
    {
        out = plus(out, feature_size(&layer.features[i]));
        i = i + 1;
    }
    let listed: u64 = times(layer.features.len(), 4, 16);
    plus(plus(plus(out, listed), text_size(&layer.name)), times(3, 40, 128))
}

fn terrain_size(mesh: &TerrainMesh) -> (out: u64)
    ensures
        out == capped(terrain_weight(*mesh)),
{
    let plan: u64 = plus(times(mesh.x.len(), 2, 16), times(mesh.y.len(), 2, 16));
    let heights: u64 = plus(plan, times(mesh.z.len(), 4, 16));
    let faces: u64 = plus(heights, times(mesh.indices.len(), 4, 16));
    let shaded: u64 = plus(faces, times(mesh.normals.len(), 1, 16));
    let table: u64 = plus(shaded, times(6, 40, 128));
    plus(table, times(6, 40, 320))
}

/// Whether a tile surely fits in one buffer.
pub fn tile_fits(terrain: Option<&TerrainMesh>, layers: &[EncoderLayer]) -> (yes: bool)
    ensures
        yes == (tile_weight(mesh_of(terrain), layers@) <= MAX_BUFFER),
{
    let dict: Dictionaries = Dictionaries::build(layers);
    let keys: u64 = plus(keys_size(&dict.keys), times(dict.keys.len(), 4, 16));
    let values: u64 = plus(values_size(&dict.values), times(dict.values.len(), 4, 16));
    let ground: u64 = match terrain {
        Some(mesh) => terrain_size(mesh),
        None => 0,
    };
    let mut stacked: u64 = 0;
    let mut i: usize = 0;
    while i < layers.len()
        invariant
            i <= layers@.len(),
            stacked == capped(layers_weight(layers@, i as int)),
        decreases layers@.len() - i,
    {
        stacked = plus(stacked, layer_size(&layers[i]));
        i = i + 1;
    }
    let listed: u64 = times(layers.len(), 4, 20);
    let dictionaries: u64 = plus(keys, values);
    let bodies: u64 = plus(ground, stacked);
    let frame: u64 = plus(listed, times(5, 40, 160));
    plus(plus(dictionaries, bodies), frame) < TOO_MUCH
}

/// Builds a compressed tile where it surely fits in one buffer.
pub fn try_build_tile_q(terrain: Option<&TerrainMesh>, layers: &[EncoderLayer], quality: i32) -> (out: Option<Vec<u8>>)
    ensures
        out is Some <==> tile_weight(mesh_of(terrain), layers@) <= MAX_BUFFER,
        out matches Some(bytes) ==> {
            &&& decompressed(bytes@) == Some(tile_bytes(mesh_of(terrain), layers@))
            &&& bytes@ == compressed_near(tile_bytes(mesh_of(terrain), layers@), quality as int)
        },
{
    if tile_fits(terrain, layers) {
        Some(build_tile_q(terrain, layers, quality))
    } else {
        None
    }
}

} // verus!
