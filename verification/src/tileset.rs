//! The tileset index: what a set of tiles covers and which layers it carries.
//!
//! The caller hands over plain descriptors and gets back the finished,
//! compressed bytes. Coordinates, elevations and the root error are doubles,
//! carried by their bit patterns.
use vstd::prelude::*;

use crate::reader::{
    an_object_is_found_by_its_offset, byte_of, bytes_of, extends, inline_of, lemma_extends_chain,
    lemma_extends_push, lemma_fields, long_of, refs_of, table_at, text_of, value_of, word_of,
};
use crate::tile_build::{field, is_zero, unless};
use crate::tile_build::size::{capped, plus, text_size, times, TOO_MUCH};
use crate::wire::{
    add_bytes, add_refs, add_text, buffer, close_table, compress_at, compressed, decompressed,
    finish, grew, has_room, idle, items_weight, lemma_adds, new_builder, objects, offset_of,
    open_table, placed, push_bits, push_byte, push_inner_bits, push_ref, push_word_field, size_of,
    table_items, text_weight, within, Builder, Field, Item, Object, MAX_BUFFER,
};

verus! {

/// The kinds of geometry a layer may hold.
#[derive(Clone, Copy, Debug, PartialEq, Eq, Structural)]
pub enum GeometryType {
    Point,
    Line,
    Polygon,
    Mesh,
}

/// A longitude and latitude box, as the bits of degrees.
#[derive(Clone, Copy, Debug, PartialEq, Eq, Structural)]
pub struct Bounds {
    pub west: u64,
    pub south: u64,
    pub east: u64,
    pub north: u64,
}

/// Per-layer descriptor for the tileset index.
#[derive(Debug)]
pub struct LayerInfo {
    pub name: String,
    /// Geometry kinds present in this layer.
    pub geometry_types: Vec<GeometryType>,
    /// First level where the layer appears.
    pub min_level: u8,
    /// Last level where the layer appears.
    pub max_level: u8,
}

/// Everything needed to describe a tileset.
#[derive(Debug)]
pub struct TilesetInfo {
    pub name: Option<String>,
    pub bounds: Bounds,
    /// The bits of the least and greatest elevation in metres.
    pub elevation_range: (u64, u64),
    pub min_level: u8,
    pub max_level: u8,
    /// The bits of the geometric error at level 0, in metres.
    pub root_error: u64,
    /// Layer descriptors in decode-priority order.
    pub layers: Vec<LayerInfo>,
}

/// The layout version written into every index.
pub const TILESET_VERSION: u32 = 1;

/// The quality at which an index is compressed.
pub const INDEX_QUALITY: i32 = 11;

/// The number a geometry kind is stored as.
pub open spec fn stored_kind(g: GeometryType) -> u8 {
    match g {
        GeometryType::Point => 0,
        GeometryType::Line => 1,
        GeometryType::Polygon => 2,
        GeometryType::Mesh => 3,
    }
}

/// The number a geometry kind is stored as.
pub fn to_fb_geom(g: GeometryType) -> (n: u8)
    ensures
        n == stored_kind(g),
{
    match g {
        GeometryType::Point => 0,
        GeometryType::Line => 1,
        GeometryType::Polygon => 2,
        GeometryType::Mesh => 3,
    }
}

/// Different kinds are stored as different numbers.
pub proof fn kinds_are_told_apart(a: GeometryType, b: GeometryType)
    ensures
        stored_kind(a) == stored_kind(b) <==> a == b,
{
}

pub open spec fn stored_kinds(kinds: Seq<GeometryType>) -> Seq<u8> {
    kinds.map_values(|g: GeometryType| stored_kind(g))
}

/// The fields of a layer's table.
pub open spec fn layer_items(l: LayerInfo, name: u32, kinds: u32) -> Seq<Item> {
    let refs = Seq::<Item>::empty().push(field(6, Field::Ref(kinds))).push(
        field(4, Field::Ref(name)),
    );
    unless(
        unless(refs, l.max_level == 0, 10, Field::Byte(l.max_level)),
        l.min_level == 0,
        8,
        Field::Byte(l.min_level),
    )
}

/// The buffer after a layer is written.
pub open spec fn layer_log(log: Seq<Object>, l: LayerInfo) -> Seq<Object> {
    let named = log.push(Object::Text(l.name@));
    let kinds = named.push(Object::Bytes(stored_kinds(l.geometry_types@)));
    kinds.push(Object::Table(layer_items(l, offset_of(named), offset_of(kinds))))
}

pub open spec fn layer_weight(l: LayerInfo) -> nat {
    text_weight(l.name@) + (l.geometry_types@.len() + 16) + items_weight(5)
}

fn build_layer(b: &mut Builder, l: &LayerInfo) -> (at: u32)
    requires
        has_room(*old(b), layer_weight(*l)),
    ensures
        grew(*old(b), *final(b), layer_log(objects(*old(b)), *l), layer_weight(*l)),
        at == offset_of(objects(*final(b))),
        at <= size_of(objects(*final(b))),
{
    let ghost b0 = *b;
    let name: u32 = add_text(b, l.name.as_str());
    let ghost b1 = *b;
    proof {
        lemma_adds(b0, b1, Object::Text(l.name@), name);
    }
    let mut kinds: Vec<u8> = Vec::new();
    let mut i: usize = 0;
    while i < l.geometry_types.len()
        invariant
            i <= l.geometry_types.len(),
            kinds.len() == i,
            forall|k: int| 0 <= k < i ==> #[trigger] kinds[k] == stored_kind(l.geometry_types[k]),
        decreases l.geometry_types.len() - i,
    {
        kinds.push(to_fb_geom(l.geometry_types[i]));
        i = i + 1;
    }
    assert(kinds@ =~= stored_kinds(l.geometry_types@));
    let listed: u32 = add_bytes(b, &kinds);
    let ghost b2 = *b;
    proof {
        lemma_adds(b1, b2, Object::Bytes(kinds@), listed);
    }
    let start: u32 = open_table(b);
    push_ref(b, 6, listed);
    push_ref(b, 4, name);
    push_byte(b, 10, l.max_level);
    push_byte(b, 8, l.min_level);
    assert(table_items(*b) == Some(layer_items(*l, name, listed)));
    let at: u32 = close_table(b, start);
    proof {
        lemma_adds(b2, *b, Object::Table(layer_items(*l, name, listed)), at);
    }
    at
}

/// The buffer after the first `n` layers are written.
pub open spec fn layers_log(log: Seq<Object>, layers: Seq<LayerInfo>, n: int) -> Seq<Object>
    decreases n,
{
    if n <= 0 {
        log
    } else {
        layer_log(layers_log(log, layers, n - 1), layers[n - 1])
    }
}

pub open spec fn layers_refs(log: Seq<Object>, layers: Seq<LayerInfo>, n: int) -> Seq<u32>
    decreases n,
{
    if n <= 0 {
        Seq::empty()
    } else {
        layers_refs(log, layers, n - 1).push(offset_of(layers_log(log, layers, n)))
    }
}

pub open spec fn layers_weight(layers: Seq<LayerInfo>, n: int) -> nat
    decreases n,
{
    if n <= 0 {
        0
    } else {
        layers_weight(layers, n - 1) + layer_weight(layers[n - 1])
    }
}

proof fn lemma_layers_weight(layers: Seq<LayerInfo>, i: int, n: int)
    requires
        0 <= i <= n,
    ensures
        layers_weight(layers, i) <= layers_weight(layers, n),
    decreases n,
{
    if i < n {
        lemma_layers_weight(layers, i, n - 1);
    }
}

/// The buffer after the tileset's name is written, where it has one.
pub open spec fn name_log(name: Option<Seq<char>>) -> Seq<Object> {
    match name {
        Some(s) => Seq::empty().push(Object::Text(s)),
        None => Seq::empty(),
    }
}

pub open spec fn name_view(name: Option<String>) -> Option<Seq<char>> {
    match name {
        Some(s) => Some(s@),
        None => None,
    }
}

pub open spec fn inner(bits: u64) -> Item {
    Item { slot: None, value: Field::Long(bits) }
}

/// The fields of the tileset's table. A box or a range stands inline, its last
/// number pushed first; its field points at the first number.
pub open spec fn tileset_items(info: TilesetInfo, name: u32, layers: u32) -> Seq<Item> {
    let error = unless(
        Seq::empty(),
        is_zero(info.root_error),
        16,
        Field::Long(info.root_error),
    );
    let heights = error.push(inner(info.elevation_range.1)).push(
        field(10, Field::Long(info.elevation_range.0)),
    );
    let bounds = heights.push(inner(info.bounds.north)).push(inner(info.bounds.east)).push(
        inner(info.bounds.south),
    ).push(field(8, Field::Long(info.bounds.west)));
    let listed = bounds.push(field(18, Field::Ref(layers)));
    let named = unless(listed, info.name is None, 6, Field::Ref(name));
    let versioned = named.push(field(4, Field::Word(TILESET_VERSION)));
    unless(
        unless(versioned, info.max_level == 0, 14, Field::Byte(info.max_level)),
        info.min_level == 0,
        12,
        Field::Byte(info.min_level),
    )
}

/// All objects of an index, the tileset's table last.
pub open spec fn tileset_log(info: TilesetInfo) -> Seq<Object> {
    let named = name_log(name_view(info.name));
    let n = info.layers@.len() as int;
    let listed = layers_log(named, info.layers@, n).push(
        Object::Refs(layers_refs(named, info.layers@, n)),
    );
    listed.push(Object::Table(tileset_items(info, offset_of(named), offset_of(listed))))
}

/// An upper bound on the bytes of an index before compression.
pub open spec fn tileset_weight(info: TilesetInfo) -> nat {
    let name = match name_view(info.name) {
        Some(s) => text_weight(s),
        None => 0,
    };
    name + layers_weight(info.layers@, info.layers@.len() as int) + (4 * info.layers@.len() + 16)
        + items_weight(13) + 32
}

/// The bytes of an index before compression.
pub open spec fn tileset_bytes(info: TilesetInfo) -> Seq<u8> {
    let log = tileset_log(info);
    buffer(log, offset_of(log), "arpi"@)
}

/// Builds the uncompressed index, with the identifier `arpi` at bytes 4 to 8.
pub fn build_uncompressed(info: &TilesetInfo) -> (out: Vec<u8>)
    requires
        tileset_weight(*info) <= MAX_BUFFER,
    ensures
        out@ == tileset_bytes(*info),
        placed(tileset_log(*info)),
        out.len() >= 8,
        out@.subrange(4, 8) == seq!['a' as u8, 'r' as u8, 'p' as u8, 'i' as u8],
{
    let mut b: Builder = new_builder();
    let ghost b0 = b;
    assert(placed(objects(b0)));
    let name: u32 = match &info.name {
        Some(s) => {
            let at: u32 = add_text(&mut b, s.as_str());
            proof {
                lemma_adds(b0, b, Object::Text(s@), at);
            }
            at
        },
        None => 0,
    };
    let ghost b1 = b;
    let ghost named = name_log(name_view(info.name));
    assert(objects(b1) == named);
    let mut refs: Vec<u32> = Vec::new();
    let mut i: usize = 0;
    while i < info.layers.len()
        invariant
            i <= info.layers.len(),
            idle(b1),
            objects(b1) == named,
            size_of(objects(b1)) + layers_weight(info.layers@, info.layers.len() as int)
                <= MAX_BUFFER,
            grew(
                b1,
                b,
                layers_log(named, info.layers@, i as int),
                layers_weight(info.layers@, i as int),
            ),
            refs@ == layers_refs(named, info.layers@, i as int),
            refs.len() == i,
            within(refs@, objects(b)),
        decreases info.layers.len() - i,
    {
        proof {
            lemma_layers_weight(info.layers@, i + 1, info.layers.len() as int);
        }
        let at: u32 = build_layer(&mut b, &info.layers[i]);
        refs.push(at);
        i = i + 1;
    }
    let ghost b2 = b;
    let layers: u32 = add_refs(&mut b, &refs);
    let ghost b3 = b;
    proof {
        lemma_adds(b2, b3, Object::Refs(refs@), layers);
    }
    let start: u32 = open_table(&mut b);
    if info.root_error != 0 && info.root_error != 0x8000_0000_0000_0000 {
        push_bits(&mut b, 16, info.root_error);
    }
    push_inner_bits(&mut b, info.elevation_range.1);
    push_bits(&mut b, 10, info.elevation_range.0);
    push_inner_bits(&mut b, info.bounds.north);
    push_inner_bits(&mut b, info.bounds.east);
    push_inner_bits(&mut b, info.bounds.south);
    push_bits(&mut b, 8, info.bounds.west);
    push_ref(&mut b, 18, layers);
    if info.name.is_some() {
        push_ref(&mut b, 6, name);
    }
    push_word_field(&mut b, 4, TILESET_VERSION);
    push_byte(&mut b, 14, info.max_level);
    push_byte(&mut b, 12, info.min_level);
    assert(table_items(b) == Some(tileset_items(*info, offset_of(named), layers)));
    let root: u32 = close_table(&mut b, start);
    proof {
        lemma_adds(
            b3,
            b,
            Object::Table(tileset_items(*info, offset_of(named), layers)),
            root,
        );
        assert(objects(b) == tileset_log(*info));
        reveal_strlit("arpi");
    }
    let out: Vec<u8> = finish(b, root, "arpi");
    proof {
        assert forall|k: int| 0 <= k < 4 implies out@.subrange(4, 8)[k]
            == seq!['a' as u8, 'r' as u8, 'p' as u8, 'i' as u8][k] by {
            assert(out[4 + k] as int == "arpi"@[k] as int);
        }
        assert(out@.subrange(4, 8) =~= seq!['a' as u8, 'r' as u8, 'p' as u8, 'i' as u8]);
    }
    out
}

/// Whether an index surely fits in one buffer.
pub fn fits(info: &TilesetInfo) -> (yes: bool)
    ensures
        yes == (tileset_weight(*info) <= MAX_BUFFER),
{
    let name: u64 = match &info.name {
        Some(s) => text_size(s),
        None => 0,
    };
    let mut layers: u64 = 0;
    let mut i: usize = 0;
    while i < info.layers.len()
        invariant
            i <= info.layers@.len(),
            layers == capped(layers_weight(info.layers@, i as int)),
        decreases info.layers@.len() - i,
    {
        let l: &LayerInfo = &info.layers[i];
        let kinds: u64 = times(l.geometry_types.len(), 1, 16);
        layers = plus(layers, plus(plus(text_size(&l.name), kinds), times(5, 40, 128)));
        i = i + 1;
    }
    let listed: u64 = times(info.layers.len(), 4, 16);
    plus(plus(plus(name, layers), listed), times(13, 40, 160)) < TOO_MUCH
}

/// Builds the compressed index of a tileset. The stream decompresses to what
/// [`build_uncompressed`] gives.
pub fn build(info: &TilesetInfo) -> (out: Vec<u8>)
    requires
        tileset_weight(*info) <= MAX_BUFFER,
    ensures
        decompressed(out@) == Some(tileset_bytes(*info)),
        out@ == compressed(tileset_bytes(*info), INDEX_QUALITY),
{
    compress_at(&build_uncompressed(info), INDEX_QUALITY)
}

// ---------------------------------------------------------------------------
// Reading an index back.
// ---------------------------------------------------------------------------

proof fn lemma_layer_extends(log: Seq<Object>, l: LayerInfo)
    ensures
        extends(log, layer_log(log, l)),
        layer_log(log, l).len() == log.len() + 3,
{
    assert(layer_log(log, l).take(log.len() as int) =~= log);
}

proof fn lemma_layers_extend(log: Seq<Object>, layers: Seq<LayerInfo>, i: int, n: int)
    requires
        0 <= i <= n,
    ensures
        extends(layers_log(log, layers, i), layers_log(log, layers, n)),
        extends(log, layers_log(log, layers, n)),
        layers_refs(log, layers, n).len() == n,
        i < n ==> layers_refs(log, layers, n)[i] == offset_of(layers_log(log, layers, i + 1)),
    decreases n,
{
    if n == 0 {
        lemma_extends_push(log, Object::Text(Seq::empty()));
    } else {
        let before = layers_log(log, layers, n - 1);
        lemma_layer_extends(before, layers[n - 1]);
        lemma_layers_extend(log, layers, if i < n {
            i
        } else {
            n - 1
        }, n - 1);
        lemma_extends_chain(log, before, layers_log(log, layers, n));
        lemma_extends_push(layers_log(log, layers, n), Object::Text(Seq::empty()));
        if i < n {
            lemma_extends_chain(layers_log(log, layers, i), before, layers_log(log, layers, n));
        }
    }
}

/// What stands behind every index: its name, its layers, the list of them and
/// its own table, each a later state of the one before.
proof fn lemma_index_states(info: TilesetInfo)
    ensures
        ({
            let log = tileset_log(info);
            let named = name_log(name_view(info.name));
            let written = layers_log(named, info.layers@, info.layers@.len() as int);
            let listed = written.push(
                Object::Refs(layers_refs(named, info.layers@, info.layers@.len() as int)),
            );
            &&& extends(named, log)
            &&& extends(written, log)
            &&& extends(listed, log)
            &&& extends(log, log)
            &&& log.last() == Object::Table(
                tileset_items(info, offset_of(named), offset_of(listed)),
            )
        }),
{
    let log = tileset_log(info);
    let n = info.layers@.len() as int;
    let named = name_log(name_view(info.name));
    let written = layers_log(named, info.layers@, n);
    let listed = written.push(Object::Refs(layers_refs(named, info.layers@, n)));
    lemma_layers_extend(named, info.layers@, 0, n);
    lemma_extends_push(written, listed.last());
    lemma_extends_push(listed, log.last());
    lemma_extends_push(log, log.last());
    lemma_extends_chain(written, listed, log);
    lemma_extends_chain(named, written, log);
}

/// A reader of an index gets the tileset back: its version, its name where it
/// has one, its box, its range of elevations, its levels and its error, of
/// which a zero has no sign, and as many layers as it has.
pub proof fn an_index_reads_back(info: TilesetInfo)
    requires
        placed(tileset_log(info)),
    ensures
        ({
            let log = tileset_log(info);
            let items = table_at(log, offset_of(log));
            &&& tileset_bytes(info) == buffer(log, offset_of(log), "arpi"@)
            &&& word_of(items, 4) == 1
            &&& info.name is None ==> text_of(log, items, 6) is None
            &&& info.name matches Some(s) ==> text_of(log, items, 6) == Some(s@)
            &&& inline_of(items, 8, 0) == Some(info.bounds.west)
            &&& inline_of(items, 8, 1) == Some(info.bounds.south)
            &&& inline_of(items, 8, 2) == Some(info.bounds.east)
            &&& inline_of(items, 8, 3) == Some(info.bounds.north)
            &&& inline_of(items, 10, 0) == Some(info.elevation_range.0)
            &&& inline_of(items, 10, 1) == Some(info.elevation_range.1)
            &&& byte_of(items, 12) == info.min_level
            &&& byte_of(items, 14) == info.max_level
            &&& info.root_error != 0x8000_0000_0000_0000 ==> long_of(items, 16) == info.root_error
            &&& info.root_error == 0x8000_0000_0000_0000 ==> long_of(items, 16) == 0
            &&& refs_of(log, items, 18).len() == info.layers@.len()
        }),
{
    let log = tileset_log(info);
    let n = info.layers@.len() as int;
    let named = name_log(name_view(info.name));
    let listed = layers_log(named, info.layers@, n).push(
        Object::Refs(layers_refs(named, info.layers@, n)),
    );
    lemma_index_states(info);
    an_object_is_found_by_its_offset(log, log);
    an_object_is_found_by_its_offset(listed, log);
    if info.name is Some {
        an_object_is_found_by_its_offset(named, log);
    }
    lemma_layers_extend(named, info.layers@, 0, n);
    lemma_index_fields(info, offset_of(named), offset_of(listed));
}

/// Every field of the tileset's table is read where it was put.
proof fn lemma_index_fields(info: TilesetInfo, name: u32, layers: u32)
    ensures
        ({
            let items = tileset_items(info, name, layers);
            &&& word_of(items, 4) == 1
            &&& value_of(items, 6) == (if info.name is None {
                None
            } else {
                Some(Field::Ref(name))
            })
            &&& inline_of(items, 8, 0) == Some(info.bounds.west)
            &&& inline_of(items, 8, 1) == Some(info.bounds.south)
            &&& inline_of(items, 8, 2) == Some(info.bounds.east)
            &&& inline_of(items, 8, 3) == Some(info.bounds.north)
            &&& inline_of(items, 10, 0) == Some(info.elevation_range.0)
            &&& inline_of(items, 10, 1) == Some(info.elevation_range.1)
            &&& byte_of(items, 12) == info.min_level
            &&& byte_of(items, 14) == info.max_level
            &&& info.root_error != 0x8000_0000_0000_0000 ==> long_of(items, 16) == info.root_error
            &&& info.root_error == 0x8000_0000_0000_0000 ==> long_of(items, 16) == 0
            &&& value_of(items, 18) == Some(Field::Ref(layers))
        }),
{
    lemma_fields();
    let error = unless(
        Seq::empty(),
        is_zero(info.root_error),
        16,
        Field::Long(info.root_error),
    );
    assert(error.len() <= 1);
}

/// A reader of an index gets every layer back, in order: its name, its kinds
/// of geometry and its levels.
pub proof fn every_layer_of_an_index_reads_back(info: TilesetInfo, i: int)
    requires
        placed(tileset_log(info)),
        0 <= i < info.layers@.len(),
    ensures
        ({
            let log = tileset_log(info);
            let l = info.layers@[i];
            let items = table_at(log, refs_of(log, table_at(log, offset_of(log)), 18)[i]);
            &&& text_of(log, items, 4) == Some(l.name@)
            &&& bytes_of(log, items, 6) matches Some(kinds) && {
                &&& kinds.len() == l.geometry_types@.len()
                &&& forall|k: int|
                    0 <= k < kinds.len() ==> #[trigger] kinds[k] == (match l.geometry_types@[k] {
                        GeometryType::Point => 0u8,
                        GeometryType::Line => 1u8,
                        GeometryType::Polygon => 2u8,
                        GeometryType::Mesh => 3u8,
                    })
            }
            &&& byte_of(items, 8) == l.min_level
            &&& byte_of(items, 10) == l.max_level
        }),
{
    let log = tileset_log(info);
    let n = info.layers@.len() as int;
    let l = info.layers@[i];
    let head = name_log(name_view(info.name));
    let all = layers_log(head, info.layers@, n);
    let listed = all.push(Object::Refs(layers_refs(head, info.layers@, n)));
    lemma_index_states(info);
    an_object_is_found_by_its_offset(log, log);
    an_object_is_found_by_its_offset(listed, log);
    lemma_index_fields(info, offset_of(head), offset_of(listed));
    lemma_layers_extend(head, info.layers@, i, n);
    lemma_layers_extend(head, info.layers@, i + 1, n);
    let before = layers_log(head, info.layers@, i);
    let named = before.push(Object::Text(l.name@));
    let kinds = named.push(Object::Bytes(stored_kinds(l.geometry_types@)));
    let own = layers_log(head, info.layers@, i + 1);
    lemma_extends_push(named, kinds.last());
    lemma_extends_push(kinds, own.last());
    lemma_extends_chain(own, all, log);
    lemma_extends_chain(kinds, own, log);
    lemma_extends_chain(named, kinds, log);
    an_object_is_found_by_its_offset(own, log);
    an_object_is_found_by_its_offset(named, log);
    an_object_is_found_by_its_offset(kinds, log);
    lemma_layer_fields(l, offset_of(named), offset_of(kinds));
}

/// Every field of a layer's table is read where it was put.
proof fn lemma_layer_fields(l: LayerInfo, name: u32, kinds: u32)
    ensures
        ({
            let items = layer_items(l, name, kinds);
            &&& value_of(items, 4) == Some(Field::Ref(name))
            &&& value_of(items, 6) == Some(Field::Ref(kinds))
            &&& byte_of(items, 8) == l.min_level
            &&& byte_of(items, 10) == l.max_level
        }),
{
    lemma_fields();
}

} // verus!
