//! Tile assembly: features grouped by layer become one compressed buffer.
//!
//! A tile holds its layers, terrain first, and the key and value dictionaries
//! that the features' properties point into. Tables fill their fields from the
//! largest to the smallest and, within one size, from the last declared to the
//! first; a field at its default is left out.
pub mod dictionary;
pub mod geometry;
pub mod read;
pub mod size;

use vstd::prelude::*;

pub use crate::tile_build::dictionary::{EncoderFeature, EncoderLayer};

use crate::arith::clamp;
use crate::terrain::TerrainMesh;
use crate::tile_build::dictionary::{
    key_list, layer_entries, value_list, Dictionaries, Keys, Values,
};
use crate::tile_build::geometry::{
    flat_form, flatten, offsets_fit, xs_of, ys_of, Flat, FlatView, MESH_GEOMETRY,
};
use crate::value::{Datum, Value};
use crate::wire::{
    add_ints, add_refs, add_shorts, add_signed_bytes, add_text, add_words, buffer,
    close_table, close_vector, compress_at, compressed, decompress_all, decompressed, finish,
    grew, has_room, idle, items_weight, lemma_adds, new_builder, object_weight, objects, offset_of, open_table,
    open_vector, placed, push_bits, push_byte, push_flag, push_long, push_ref, push_signed,
    push_word, push_word_field, size_of, table_items, text_weight,
    vector_items, within, Builder, Field, Item, Object,
    MAX_BUFFER,
};

verus! {

/// The quality at which tiles are compressed unless asked otherwise.
pub const DEFAULT_QUALITY: i32 = 7;

/// The layout version written into every tile.
pub const TILE_VERSION: u32 = 1;

/// An item that fills a field.
pub open spec fn field(slot: u16, value: Field) -> Item {
    Item { slot: Some(slot), value }
}

/// Items with one more field, unless the field is at its default.
pub open spec fn unless(items: Seq<Item>, default: bool, slot: u16, value: Field) -> Seq<Item> {
    if default {
        items
    } else {
        items.push(field(slot, value))
    }
}

/// Whether bits are those of a zero, of either sign.
pub open spec fn is_zero(bits: u64) -> bool {
    bits == 0 || bits == 0x8000_0000_0000_0000
}

/// The fields of a value's table: its type in the first, the value itself in
/// the one for that type.
pub open spec fn value_items(v: Datum, text_at: u32) -> Seq<Item> {
    let none = Seq::<Item>::empty();
    match v {
        Datum::Text(_) => none.push(field(6, Field::Ref(text_at))),
        Datum::Int(i) => unless(none, i == 0, 8, Field::Signed(i)).push(field(4, Field::Byte(1))),
        Datum::Double(d) => unless(none, is_zero(d), 10, Field::Long(d)).push(
            field(4, Field::Byte(2)),
        ),
        Datum::Bool(b) => unless(none, !b, 12, Field::Flag(b)).push(field(4, Field::Byte(3))),
    }
}

/// The buffer after a value is written.
pub open spec fn value_log(log: Seq<Object>, v: Datum) -> Seq<Object> {
    match v {
        Datum::Text(s) => {
            let named = log.push(Object::Text(s));
            named.push(Object::Table(value_items(v, offset_of(named))))
        },
        _ => log.push(Object::Table(value_items(v, 0))),
    }
}

pub open spec fn value_weight(v: Datum) -> nat {
    match v {
        Datum::Text(s) => text_weight(s) + items_weight(3),
        _ => items_weight(3),
    }
}

fn build_value(b: &mut Builder, v: &Value) -> (at: u32)
    requires
        has_room(*old(b), value_weight(v@)),
    ensures
        grew(*old(b), *final(b), value_log(objects(*old(b)), v@), value_weight(v@)),
        at == offset_of(objects(*final(b))),
        at <= size_of(objects(*final(b))),
{
    match v {
        Value::String(s) => {
            let ghost b0 = *b;
            let text_at: u32 = add_text(b, s.as_str());
            let ghost b1 = *b;
            proof {
                lemma_adds(b0, b1, Object::Text(s@), text_at);
            }
            let start: u32 = open_table(b);
            push_ref(b, 6, text_at);
            assert(table_items(*b) == Some(value_items(v@, text_at)));
            let at: u32 = close_table(b, start);
            proof {
                lemma_adds(b1, *b, Object::Table(value_items(v@, text_at)), at);
            }
            at
        },
        Value::Int(i) => {
            let ghost b0 = *b;
            let start: u32 = open_table(b);
            push_signed(b, 8, *i);
            push_byte(b, 4, 1);
            assert(table_items(*b) == Some(value_items(v@, 0)));
            let at: u32 = close_table(b, start);
            proof {
                lemma_adds(b0, *b, Object::Table(value_items(v@, 0)), at);
            }
            at
        },
        Value::Double(d) => {
            let ghost b0 = *b;
            let start: u32 = open_table(b);
            if *d != 0 && *d != 0x8000_0000_0000_0000 {
                push_bits(b, 10, *d);
            }
            push_byte(b, 4, 2);
            assert(table_items(*b) == Some(value_items(v@, 0)));
            let at: u32 = close_table(b, start);
            proof {
                lemma_adds(b0, *b, Object::Table(value_items(v@, 0)), at);
            }
            at
        },
        Value::Bool(flag) => {
            let ghost b0 = *b;
            let start: u32 = open_table(b);
            push_flag(b, 12, *flag);
            push_byte(b, 4, 3);
            assert(table_items(*b) == Some(value_items(v@, 0)));
            let at: u32 = close_table(b, start);
            proof {
                lemma_adds(b0, *b, Object::Table(value_items(v@, 0)), at);
            }
            at
        },
    }
}

/// The buffer after the first `n` strings are written.
pub open spec fn texts_log(log: Seq<Object>, texts: Seq<Seq<char>>, n: int) -> Seq<Object>
    decreases n,
{
    if n <= 0 {
        log
    } else {
        texts_log(log, texts, n - 1).push(Object::Text(texts[n - 1]))
    }
}

pub open spec fn texts_refs(log: Seq<Object>, texts: Seq<Seq<char>>, n: int) -> Seq<u32>
    decreases n,
{
    if n <= 0 {
        Seq::empty()
    } else {
        texts_refs(log, texts, n - 1).push(offset_of(texts_log(log, texts, n)))
    }
}

pub open spec fn texts_weight(texts: Seq<Seq<char>>, n: int) -> nat
    decreases n,
{
    if n <= 0 {
        0
    } else {
        texts_weight(texts, n - 1) + text_weight(texts[n - 1])
    }
}

proof fn lemma_texts_weight(texts: Seq<Seq<char>>, i: int, n: int)
    requires
        0 <= i <= n,
    ensures
        texts_weight(texts, i) <= texts_weight(texts, n),
    decreases n,
{
    if i < n {
        lemma_texts_weight(texts, i, n - 1);
    }
}

fn build_texts(b: &mut Builder, keys: &Keys) -> (refs: Vec<u32>)
    requires
        has_room(*old(b), texts_weight(keys@, keys@.len() as int)),
    ensures
        grew(
            *old(b),
            *final(b),
            texts_log(objects(*old(b)), keys@, keys@.len() as int),
            texts_weight(keys@, keys@.len() as int),
        ),
        refs@ == texts_refs(objects(*old(b)), keys@, keys@.len() as int),
        within(refs@, objects(*final(b))),
{
    let ghost b0 = *b;
    let mut refs: Vec<u32> = Vec::new();
    let mut i: usize = 0;
    while i < keys.len()
        invariant
            i <= keys@.len(),
            has_room(b0, texts_weight(keys@, keys@.len() as int)),
            grew(b0, *b, texts_log(objects(b0), keys@, i as int), texts_weight(keys@, i as int)),
            refs@ == texts_refs(objects(b0), keys@, i as int),
            within(refs@, objects(*b)),
        decreases keys@.len() - i,
    {
        let ghost b1 = *b;
        proof {
            lemma_texts_weight(keys@, i + 1, keys@.len() as int);
        }
        let at: u32 = add_text(b, keys.get(i).as_str());
        proof {
            lemma_adds(b1, *b, Object::Text(keys@[i as int]), at);
        }
        refs.push(at);
        i = i + 1;
    }
    refs
}

/// The buffer after the first `n` values are written.
pub open spec fn values_log(log: Seq<Object>, values: Seq<Datum>, n: int) -> Seq<Object>
    decreases n,
{
    if n <= 0 {
        log
    } else {
        value_log(values_log(log, values, n - 1), values[n - 1])
    }
}

pub open spec fn values_refs(log: Seq<Object>, values: Seq<Datum>, n: int) -> Seq<u32>
    decreases n,
{
    if n <= 0 {
        Seq::empty()
    } else {
        values_refs(log, values, n - 1).push(offset_of(values_log(log, values, n)))
    }
}

pub open spec fn values_weight(values: Seq<Datum>, n: int) -> nat
    decreases n,
{
    if n <= 0 {
        0
    } else {
        values_weight(values, n - 1) + value_weight(values[n - 1])
    }
}

proof fn lemma_values_weight(values: Seq<Datum>, i: int, n: int)
    requires
        0 <= i <= n,
    ensures
        values_weight(values, i) <= values_weight(values, n),
    decreases n,
{
    if i < n {
        lemma_values_weight(values, i, n - 1);
    }
}

fn build_values(b: &mut Builder, values: &Values) -> (refs: Vec<u32>)
    requires
        has_room(*old(b), values_weight(values@, values@.len() as int)),
    ensures
        grew(
            *old(b),
            *final(b),
            values_log(objects(*old(b)), values@, values@.len() as int),
            values_weight(values@, values@.len() as int),
        ),
        refs@ == values_refs(objects(*old(b)), values@, values@.len() as int),
        within(refs@, objects(*final(b))),
{
    let ghost b0 = *b;
    let mut refs: Vec<u32> = Vec::new();
    let mut i: usize = 0;
    while i < values.len()
        invariant
            i <= values@.len(),
            has_room(b0, values_weight(values@, values@.len() as int)),
            grew(
                b0,
                *b,
                values_log(objects(b0), values@, i as int),
                values_weight(values@, i as int),
            ),
            refs@ == values_refs(objects(b0), values@, i as int),
            within(refs@, objects(*b)),
        decreases values@.len() - i,
    {
        proof {
            lemma_values_weight(values@, i + 1, values@.len() as int);
        }
        let at: u32 = build_value(b, values.get(i));
        refs.push(at);
        i = i + 1;
    }
    refs
}

/// The buffer after offsets are written, where there are any to write.
pub open spec fn words_log(log: Seq<Object>, words: Option<Seq<u32>>) -> Seq<Object> {
    match words {
        Some(w) => log.push(Object::Words(w)),
        None => log,
    }
}

pub open spec fn words_weight(words: Option<Seq<u32>>) -> nat {
    match words {
        Some(w) => object_weight(Object::Words(w)),
        None => 0,
    }
}

/// The buffer after a geometry laid flat is written.
pub open spec fn geometry_log(log: Seq<Object>, f: FlatView) -> Seq<Object> {
    let x = log.push(Object::Shorts(xs_of(f.corners)));
    let y = x.push(Object::Shorts(ys_of(f.corners)));
    let starts = words_log(y, f.starts);
    let polygons = words_log(starts, f.polygons);
    let none = Seq::<Item>::empty();
    let items = unless(none, f.polygons is None, 12, Field::Ref(offset_of(polygons)));
    polygons.push(
        Object::Table(
            unless(items, f.starts is None, 10, Field::Ref(offset_of(starts))).push(
                field(6, Field::Ref(offset_of(y))),
            ).push(field(4, Field::Ref(offset_of(x)))),
        ),
    )
}

pub open spec fn geometry_weight(f: FlatView) -> nat {
    2 * (2 * f.corners.len() + 16) + words_weight(f.starts) + words_weight(f.polygons)
        + items_weight(5)
}

fn build_words(b: &mut Builder, words: &Option<Vec<u32>>) -> (at: u32)
    requires
        has_room(*old(b), words_weight(crate::tile_build::geometry::words_view(*words))),
    ensures
        grew(
            *old(b),
            *final(b),
            words_log(objects(*old(b)), crate::tile_build::geometry::words_view(*words)),
            words_weight(crate::tile_build::geometry::words_view(*words)),
        ),
        words is Some ==> at == offset_of(objects(*final(b))) && at <= size_of(objects(*final(b))),
{
    match words {
        Some(w) => {
            let ghost b0 = *b;
            let at: u32 = add_words(b, w);
            proof {
                lemma_adds(b0, *b, Object::Words(w@), at);
            }
            at
        },
        None => 0,
    }
}

fn build_flat(b: &mut Builder, f: &Flat, Ghost(view): Ghost<FlatView>) -> (at: u32)
    requires
        f.shows(view),
        has_room(*old(b), geometry_weight(view)),
    ensures
        grew(*old(b), *final(b), geometry_log(objects(*old(b)), view), geometry_weight(view)),
        at == offset_of(objects(*final(b))),
        at <= size_of(objects(*final(b))),
{
    let ghost b0 = *b;
    proof {
        assert(f.xs@.len() == view.corners.len());
        assert(f.ys@.len() == view.corners.len());
    }
    let x: u32 = add_shorts(b, &f.xs);
    let ghost b1 = *b;
    proof {
        lemma_adds(b0, b1, Object::Shorts(f.xs@), x);
    }
    let y: u32 = add_shorts(b, &f.ys);
    let ghost b2 = *b;
    proof {
        lemma_adds(b1, b2, Object::Shorts(f.ys@), y);
    }
    let starts: u32 = build_words(b, &f.starts);
    let polygons: u32 = build_words(b, &f.polygons);
    let ghost b4 = *b;
    let start: u32 = open_table(b);
    if f.polygons.is_some() {
        push_ref(b, 12, polygons);
    }
    if f.starts.is_some() {
        push_ref(b, 10, starts);
    }
    push_ref(b, 6, y);
    push_ref(b, 4, x);
    let ghost items = table_items(*b)->0;
    let at: u32 = close_table(b, start);
    proof {
        lemma_adds(b4, *b, Object::Table(items), at);
    }
    at
}

/// The dictionary positions of the first `n` properties.
pub open spec fn pairs_of(
    props: Seq<(String, Value)>,
    keys: Seq<Seq<char>>,
    values: Seq<Datum>,
    n: int,
) -> Seq<(u32, u32)>
    decreases n,
{
    if n <= 0 {
        Seq::empty()
    } else {
        let before = pairs_of(props, keys, values, n - 1);
        let key = props[n - 1].0@;
        let value = props[n - 1].1@;
        if keys.contains(key) && values.contains(value) {
            before.push((keys.index_of(key) as u32, values.index_of(value) as u32))
        } else {
            before
        }
    }
}

proof fn lemma_pairs_len(
    props: Seq<(String, Value)>,
    keys: Seq<Seq<char>>,
    values: Seq<Datum>,
    n: int,
)
    requires
        0 <= n,
    ensures
        pairs_of(props, keys, values, n).len() <= n,
    decreases n,
{
    if n > 0 {
        lemma_pairs_len(props, keys, values, n - 1);
    }
}

/// The pushes that write the last `n` pairs, from the last to the first. A
/// pair's key comes before its value, so it is pushed after it.
pub open spec fn pair_items(pairs: Seq<(u32, u32)>, n: int) -> Seq<Item>
    decreases n,
{
    if n <= 0 {
        Seq::empty()
    } else {
        let pair = pairs[pairs.len() - n];
        pair_items(pairs, n - 1).push(Item { slot: None, value: Field::Word(pair.1) }).push(
            Item { slot: None, value: Field::Word(pair.0) },
        )
    }
}

/// The vector of a feature's properties.
pub open spec fn pairs_object(pairs: Seq<(u32, u32)>) -> Object {
    Object::Pushed { len: pairs.len() as u32, items: pair_items(pairs, pairs.len() as int) }
}

fn resolve(props: &Vec<(String, Value)>, dict: &Dictionaries) -> (pairs: Vec<(u32, u32)>)
    requires
        dict.well_formed(),
        dict.keys@.len() <= u32::MAX,
        dict.values@.len() <= u32::MAX,
    ensures
        pairs@ == pairs_of(props@, dict.keys@, dict.values@, props.len() as int),
{
    let mut pairs: Vec<(u32, u32)> = Vec::new();
    let mut i: usize = 0;
    while i < props.len()
        invariant
            i <= props.len(),
            dict.well_formed(),
            dict.keys@.len() <= u32::MAX,
            dict.values@.len() <= u32::MAX,
            pairs@ == pairs_of(props@, dict.keys@, dict.values@, i as int),
        decreases props.len() - i,
    {
        let key: Option<usize> = dict.keys.find(props[i].0.as_str());
        let value: Option<usize> = dict.values.find(&props[i].1);
        if let (Some(k), Some(v)) = (key, value) {
            pairs.push((k as u32, v as u32));
        }
        i = i + 1;
    }
    pairs
}

fn build_pairs(b: &mut Builder, pairs: &Vec<(u32, u32)>) -> (at: u32)
    requires
        has_room(*old(b), items_weight(2 * pairs@.len() + 1)),
    ensures
        grew(
            *old(b),
            *final(b),
            objects(*old(b)).push(pairs_object(pairs@)),
            items_weight(2 * pairs@.len() + 1),
        ),
        at == offset_of(objects(*final(b))),
        at <= size_of(objects(*final(b))),
{
    let ghost b0 = *b;
    let n: usize = pairs.len();
    open_vector(b, 2 * n);
    let mut i: usize = 0;
    while i < n
        invariant
            i <= n,
            n == pairs.len(),
            objects(*b) == objects(b0),
            has_room(b0, items_weight(2 * pairs@.len() + 1)),
            vector_items(*b) == Some(pair_items(pairs@, i as int)),
            table_items(*b) is None,
            pair_items(pairs@, i as int).len() == 2 * i,
        decreases n - i,
    {
        let pair: (u32, u32) = pairs[n - 1 - i];
        push_word(b, pair.1);
        push_word(b, pair.0);
        i = i + 1;
    }
    let at: u32 = close_vector(b, n as u32);
    proof {
        lemma_adds(b0, *b, pairs_object(pairs@), at);
    }
    at
}

/// The buffer after a feature is written, when its geometry has a flat form.
pub open spec fn feature_log(
    log: Seq<Object>,
    f: EncoderFeature,
    keys: Seq<Seq<char>>,
    values: Seq<Datum>,
) -> Seq<Object> {
    match flat_form(f.geometry) {
        None => log,
        Some(view) => {
            let shape = geometry_log(log, view);
            let props = f.properties@;
            let pairs = shape.push(
                pairs_object(pairs_of(props, keys, values, props.len() as int)),
            );
            pairs.push(
                Object::Table(
                    feature_items(f.id, offset_of(pairs), offset_of(shape), view.kind),
                ),
            )
        },
    }
}

/// The fields of a feature's table: its id, properties, geometry and the
/// geometry's kind.
pub open spec fn feature_items(id: u64, pairs: u32, shape: u32, kind: u8) -> Seq<Item> {
    unless(Seq::empty(), id == 0, 4, Field::Long(id)).push(field(10, Field::Ref(pairs))).push(
        field(8, Field::Ref(shape)),
    ).push(field(6, Field::Byte(kind)))
}

pub open spec fn feature_weight(f: EncoderFeature) -> nat {
    match flat_form(f.geometry) {
        None => 0,
        Some(view) => geometry_weight(view) + items_weight(2 * f.properties@.len() + 1)
            + items_weight(5),
    }
}

fn build_feature(b: &mut Builder, f: &EncoderFeature, dict: &Dictionaries) -> (at: Option<u32>)
    requires
        dict.well_formed(),
        dict.keys@.len() <= u32::MAX,
        dict.values@.len() <= u32::MAX,
        has_room(*old(b), feature_weight(*f)),
    ensures
        grew(
            *old(b),
            *final(b),
            feature_log(objects(*old(b)), *f, dict.keys@, dict.values@),
            feature_weight(*f),
        ),
        at is Some <==> flat_form(f.geometry) is Some,
        at matches Some(o) ==> o == offset_of(objects(*final(b))) && o <= size_of(
            objects(*final(b)),
        ),
{
    proof {
        lemma_offsets_fit(*f);
    }
    let flat: Flat = match flatten(&f.geometry) {
        Some(flat) => flat,
        None => {
            return None;
        },
    };
    let ghost view = flat_form(f.geometry)->0;
    let shape: u32 = build_flat(b, &flat, Ghost(view));
    let pairs: Vec<(u32, u32)> = resolve(&f.properties, dict);
    proof {
        lemma_pairs_len(f.properties@, dict.keys@, dict.values@, f.properties@.len() as int);
        lemma_kind(f.geometry);
    }
    let props: u32 = build_pairs(b, &pairs);
    let ghost b2 = *b;
    let start: u32 = open_table(b);
    push_long(b, 4, f.id);
    push_ref(b, 10, props);
    push_ref(b, 8, shape);
    push_byte(b, 6, flat.kind);
    assert(table_items(*b) == Some(feature_items(f.id, props, shape, view.kind)));
    let at: u32 = close_table(b, start);
    proof {
        lemma_adds(
            b2,
            *b,
            Object::Table(feature_items(f.id, props, shape, view.kind)),
            at,
        );
    }
    Some(at)
}

proof fn lemma_kind(g: geometry::Geometry)
    ensures
        flat_form(g) matches Some(f) ==> f.kind != 0,
{
}

/// The buffer after the first `n` features are written.
pub open spec fn features_log(
    log: Seq<Object>,
    features: Seq<EncoderFeature>,
    keys: Seq<Seq<char>>,
    values: Seq<Datum>,
    n: int,
) -> Seq<Object>
    decreases n,
{
    if n <= 0 {
        log
    } else {
        feature_log(
            features_log(log, features, keys, values, n - 1),
            features[n - 1],
            keys,
            values,
        )
    }
}

/// The offsets of those of the first `n` features that are written.
pub open spec fn features_refs(
    log: Seq<Object>,
    features: Seq<EncoderFeature>,
    keys: Seq<Seq<char>>,
    values: Seq<Datum>,
    n: int,
) -> Seq<u32>
    decreases n,
{
    if n <= 0 {
        Seq::empty()
    } else {
        let before = features_refs(log, features, keys, values, n - 1);
        if flat_form(features[n - 1].geometry) is Some {
            before.push(offset_of(features_log(log, features, keys, values, n)))
        } else {
            before
        }
    }
}

pub open spec fn features_weight(features: Seq<EncoderFeature>, n: int) -> nat
    decreases n,
{
    if n <= 0 {
        0
    } else {
        features_weight(features, n - 1) + feature_weight(features[n - 1])
    }
}

proof fn lemma_features_weight(features: Seq<EncoderFeature>, i: int, n: int)
    requires
        0 <= i <= n,
    ensures
        features_weight(features, i) <= features_weight(features, n),
    decreases n,
{
    if i < n {
        lemma_features_weight(features, i, n - 1);
    }
}

/// The buffer after a layer is written.
pub open spec fn layer_log(
    log: Seq<Object>,
    layer: EncoderLayer,
    keys: Seq<Seq<char>>,
    values: Seq<Datum>,
) -> Seq<Object> {
    let features = layer.features@;
    let n = features.len() as int;
    let written = features_log(log, features, keys, values, n);
    let listed = written.push(Object::Refs(features_refs(log, features, keys, values, n)));
    let named = listed.push(Object::Text(layer.name@));
    named.push(Object::Table(layer_items(offset_of(listed), offset_of(named))))
}

pub open spec fn layer_items(features: u32, name: u32) -> Seq<Item> {
    seq![field(6, Field::Ref(features)), field(4, Field::Ref(name))]
}

pub open spec fn layer_weight(layer: EncoderLayer) -> nat {
    features_weight(layer.features@, layer.features@.len() as int) + (4 * layer.features@.len()
        + 16) + text_weight(layer.name@) + items_weight(3)
}

fn build_layer_table(b: &mut Builder, features: u32, name: u32) -> (at: u32)
    requires
        has_room(*old(b), items_weight(3)),
        features <= size_of(objects(*old(b))),
        name <= size_of(objects(*old(b))),
    ensures
        grew(
            *old(b),
            *final(b),
            objects(*old(b)).push(Object::Table(layer_items(features, name))),
            items_weight(3),
        ),
        at == offset_of(objects(*final(b))),
        at <= size_of(objects(*final(b))),
{
    let ghost b0 = *b;
    let start: u32 = open_table(b);
    push_ref(b, 6, features);
    push_ref(b, 4, name);
    assert(table_items(*b)->0 =~= layer_items(features, name));
    let at: u32 = close_table(b, start);
    proof {
        lemma_adds(b0, *b, Object::Table(layer_items(features, name)), at);
    }
    at
}

/// What fits in a buffer has offsets that fit in 32 bits.
proof fn lemma_offsets_fit(f: EncoderFeature)
    requires
        feature_weight(f) <= MAX_BUFFER,
    ensures
        offsets_fit(f.geometry),
{
    match f.geometry {
        geometry::Geometry::LineString(v) => {
            let lines = seq![v@];
            assert(lines.drop_last() =~= Seq::<Seq<geometry::Corner>>::empty());
            assert(geometry::joined(lines.drop_last()) =~= Seq::<geometry::Corner>::empty());
            assert(geometry::joined(lines) =~= v@);
        },
        geometry::Geometry::Polygon(p) => lemma_rings_fit(seq![p]),
        geometry::Geometry::MultiPolygon(v) => lemma_rings_fit(v@),
        _ => {},
    }
}

proof fn lemma_rings_fit(polygons: Seq<geometry::Polygon>)
    requires
        geometry::flat_polygons(polygons) matches Some(view) ==> geometry_weight(view)
            <= MAX_BUFFER,
    ensures
        geometry::rings_fit(polygons),
{
    let rings = geometry::all_rings(polygons, polygons.len() as int);
    geometry::offsets_span_the_corners(rings);
}

fn build_layer(b: &mut Builder, layer: &EncoderLayer, dict: &Dictionaries) -> (at: u32)
    requires
        dict.well_formed(),
        dict.keys@.len() <= u32::MAX,
        dict.values@.len() <= u32::MAX,
        has_room(*old(b), layer_weight(*layer)),
    ensures
        grew(
            *old(b),
            *final(b),
            layer_log(objects(*old(b)), *layer, dict.keys@, dict.values@),
            layer_weight(*layer),
        ),
        at == offset_of(objects(*final(b))),
        at <= size_of(objects(*final(b))),
{
    let ghost b0 = *b;
    let ghost log = objects(b0);
    let ghost features = layer.features@;
    let mut refs: Vec<u32> = Vec::new();
    let mut i: usize = 0;
    while i < layer.features.len()
        invariant
            i <= layer.features.len(),
            features == layer.features@,
            log == objects(b0),
            dict.well_formed(),
            dict.keys@.len() <= u32::MAX,
            dict.values@.len() <= u32::MAX,
            has_room(b0, layer_weight(*layer)),
            grew(
                b0,
                *b,
                features_log(log, features, dict.keys@, dict.values@, i as int),
                features_weight(features, i as int),
            ),
            refs@ == features_refs(log, features, dict.keys@, dict.values@, i as int),
            refs.len() <= i,
            within(refs@, objects(*b)),
        decreases layer.features.len() - i,
    {
        proof {
            lemma_features_weight(features, i + 1, features.len() as int);
        }
        if let Some(at) = build_feature(b, &layer.features[i], dict) {
            refs.push(at);
        }
        i = i + 1;
    }
    let ghost b1 = *b;
    let listed: u32 = add_refs(b, &refs);
    let ghost b2 = *b;
    proof {
        lemma_adds(b1, b2, Object::Refs(refs@), listed);
    }
    let named: u32 = add_text(b, layer.name.as_str());
    proof {
        lemma_adds(b2, *b, Object::Text(layer.name@), named);
    }
    build_layer_table(b, listed, named)
}

/// The buffer after the first `n` layers are written.
pub open spec fn layers_log(
    log: Seq<Object>,
    layers: Seq<EncoderLayer>,
    keys: Seq<Seq<char>>,
    values: Seq<Datum>,
    n: int,
) -> Seq<Object>
    decreases n,
{
    if n <= 0 {
        log
    } else {
        layer_log(layers_log(log, layers, keys, values, n - 1), layers[n - 1], keys, values)
    }
}

pub open spec fn layers_refs(
    log: Seq<Object>,
    layers: Seq<EncoderLayer>,
    keys: Seq<Seq<char>>,
    values: Seq<Datum>,
    n: int,
) -> Seq<u32>
    decreases n,
{
    if n <= 0 {
        Seq::empty()
    } else {
        layers_refs(log, layers, keys, values, n - 1).push(
            offset_of(layers_log(log, layers, keys, values, n)),
        )
    }
}

pub open spec fn layers_weight(layers: Seq<EncoderLayer>, n: int) -> nat
    decreases n,
{
    if n <= 0 {
        0
    } else {
        layers_weight(layers, n - 1) + layer_weight(layers[n - 1])
    }
}

proof fn lemma_layers_weight(layers: Seq<EncoderLayer>, i: int, n: int)
    requires
        0 <= i <= n,
    ensures
        layers_weight(layers, i) <= layers_weight(layers, n),
    decreases n,
{
    if i < n {
        lemma_layers_weight(layers, i, n - 1);
    }
}

/// The buffer after a mesh is written.
pub open spec fn mesh_log(log: Seq<Object>, mesh: TerrainMesh) -> Seq<Object> {
    let x = log.push(Object::Shorts(mesh.x@));
    let y = x.push(Object::Shorts(mesh.y@));
    let z = y.push(Object::Ints(mesh.z@));
    let indices = z.push(Object::Words(mesh.indices@));
    let normals = indices.push(Object::SignedBytes(mesh.normals@));
    normals.push(
        Object::Table(
            seq![
                field(12, Field::Ref(offset_of(normals))),
                field(10, Field::Ref(offset_of(indices))),
                field(8, Field::Ref(offset_of(z))),
                field(6, Field::Ref(offset_of(y))),
                field(4, Field::Ref(offset_of(x))),
            ],
        ),
    )
}

pub open spec fn mesh_weight(mesh: TerrainMesh) -> nat {
    (2 * mesh.x@.len() + 16) + (2 * mesh.y@.len() + 16) + (4 * mesh.z@.len() + 16) + (4
        * mesh.indices@.len() + 16) + (mesh.normals@.len() + 16) + items_weight(6)
}

fn build_mesh(b: &mut Builder, mesh: &TerrainMesh) -> (at: u32)
    requires
        has_room(*old(b), mesh_weight(*mesh)),
    ensures
        grew(*old(b), *final(b), mesh_log(objects(*old(b)), *mesh), mesh_weight(*mesh)),
        at == offset_of(objects(*final(b))),
        at <= size_of(objects(*final(b))),
{
    let ghost b0 = *b;
    let x: u32 = add_shorts(b, &mesh.x);
    let ghost b1 = *b;
    let y: u32 = add_shorts(b, &mesh.y);
    let ghost b2 = *b;
    let z: u32 = add_ints(b, &mesh.z);
    let ghost b3 = *b;
    let indices: u32 = add_words(b, &mesh.indices);
    let ghost b4 = *b;
    let normals: u32 = add_signed_bytes(b, &mesh.normals);
    let ghost b5 = *b;
    proof {
        lemma_adds(b0, b1, Object::Shorts(mesh.x@), x);
        lemma_adds(b1, b2, Object::Shorts(mesh.y@), y);
        lemma_adds(b2, b3, Object::Ints(mesh.z@), z);
        lemma_adds(b3, b4, Object::Words(mesh.indices@), indices);
        lemma_adds(b4, b5, Object::SignedBytes(mesh.normals@), normals);
    }
    let start: u32 = open_table(b);
    push_ref(b, 12, normals);
    push_ref(b, 10, indices);
    push_ref(b, 8, z);
    push_ref(b, 6, y);
    push_ref(b, 4, x);
    let ghost items = table_items(*b)->0;
    assert(items =~= seq![
        field(12, Field::Ref(normals)),
        field(10, Field::Ref(indices)),
        field(8, Field::Ref(z)),
        field(6, Field::Ref(y)),
        field(4, Field::Ref(x)),
    ]);
    let at: u32 = close_table(b, start);
    proof {
        lemma_adds(b5, *b, Object::Table(items), at);
    }
    at
}

/// The buffer after the terrain layer is written: one feature without an id or
/// properties, whose geometry is the mesh.
pub open spec fn terrain_log(log: Seq<Object>, mesh: TerrainMesh) -> Seq<Object> {
    let shape = mesh_log(log, mesh);
    let feature = shape.push(
        Object::Table(
            seq![field(8, Field::Ref(offset_of(shape))), field(6, Field::Byte(MESH_GEOMETRY))],
        ),
    );
    let listed = feature.push(Object::Refs(seq![offset_of(feature)]));
    let named = listed.push(Object::Text("terrain"@));
    named.push(Object::Table(layer_items(offset_of(listed), offset_of(named))))
}

pub open spec fn terrain_weight(mesh: TerrainMesh) -> nat {
    mesh_weight(mesh) + items_weight(3) + 20 + 44 + items_weight(3)
}

fn build_terrain_layer(b: &mut Builder, mesh: &TerrainMesh) -> (at: u32)
    requires
        has_room(*old(b), terrain_weight(*mesh)),
    ensures
        grew(*old(b), *final(b), terrain_log(objects(*old(b)), *mesh), terrain_weight(*mesh)),
        at == offset_of(objects(*final(b))),
        at <= size_of(objects(*final(b))),
{
    let shape: u32 = build_mesh(b, mesh);
    let ghost b1 = *b;
    let start: u32 = open_table(b);
    push_ref(b, 8, shape);
    push_byte(b, 6, MESH_GEOMETRY);
    let ghost items = table_items(*b)->0;
    assert(items =~= seq![field(8, Field::Ref(shape)), field(6, Field::Byte(MESH_GEOMETRY))]);
    let feature: u32 = close_table(b, start);
    let ghost b2 = *b;
    proof {
        lemma_adds(b1, b2, Object::Table(items), feature);
    }
    let refs: Vec<u32> = vec![feature];
    assert(refs@ =~= seq![feature]);
    let listed: u32 = add_refs(b, &refs);
    let ghost b3 = *b;
    proof {
        lemma_adds(b2, b3, Object::Refs(refs@), listed);
        reveal_strlit("terrain");
    }
    let named: u32 = add_text(b, "terrain");
    proof {
        lemma_adds(b3, *b, Object::Text("terrain"@), named);
    }
    build_layer_table(b, listed, named)
}

/// The buffer once the dictionaries are written.
pub open spec fn dictionaries_log(keys: Seq<Seq<char>>, values: Seq<Datum>) -> Seq<Object> {
    let none = Seq::<Object>::empty();
    let texts = texts_log(none, keys, keys.len() as int);
    let listed = texts.push(Object::Refs(texts_refs(none, keys, keys.len() as int)));
    values_log(listed, values, values.len() as int).push(
        Object::Refs(values_refs(listed, values, values.len() as int)),
    )
}

/// The offset of the key dictionary.
pub open spec fn keys_at(keys: Seq<Seq<char>>) -> u32 {
    let none = Seq::<Object>::empty();
    offset_of(
        texts_log(none, keys, keys.len() as int).push(
            Object::Refs(texts_refs(none, keys, keys.len() as int)),
        ),
    )
}

/// The buffer once the terrain layer is written, where there is one.
pub open spec fn ground_log(log: Seq<Object>, terrain: Option<TerrainMesh>) -> Seq<Object> {
    match terrain {
        Some(mesh) => terrain_log(log, mesh),
        None => log,
    }
}

/// The offsets of all layers, the terrain first.
pub open spec fn all_layer_refs(
    terrain: Option<TerrainMesh>,
    layers: Seq<EncoderLayer>,
    keys: Seq<Seq<char>>,
    values: Seq<Datum>,
) -> Seq<u32> {
    let ground = ground_log(dictionaries_log(keys, values), terrain);
    let first = if terrain is Some {
        seq![offset_of(ground)]
    } else {
        Seq::empty()
    };
    first + layers_refs(ground, layers, keys, values, layers.len() as int)
}

/// The fields of the tile's table.
pub open spec fn tile_items(layers: u32, keys: u32, values: u32) -> Seq<Item> {
    seq![
        field(10, Field::Ref(values)),
        field(8, Field::Ref(keys)),
        field(6, Field::Ref(layers)),
        field(4, Field::Word(TILE_VERSION)),
    ]
}

/// All objects of a tile, the tile's table last.
pub open spec fn tile_log(terrain: Option<TerrainMesh>, layers: Seq<EncoderLayer>) -> Seq<Object> {
    let all = layer_entries(layers, layers.len() as int);
    let keys = key_list(all);
    let values = value_list(all);
    let listed = dictionaries_log(keys, values);
    let written = layers_log(
        ground_log(listed, terrain),
        layers,
        keys,
        values,
        layers.len() as int,
    );
    let stacked = written.push(Object::Refs(all_layer_refs(terrain, layers, keys, values)));
    stacked.push(
        Object::Table(tile_items(offset_of(stacked), keys_at(keys), offset_of(listed))),
    )
}

/// An upper bound on the bytes of a tile before compression.
pub open spec fn tile_weight(terrain: Option<TerrainMesh>, layers: Seq<EncoderLayer>) -> nat {
    let all = layer_entries(layers, layers.len() as int);
    let keys = key_list(all);
    let values = value_list(all);
    let ground = match terrain {
        Some(mesh) => terrain_weight(mesh),
        None => 0,
    };
    texts_weight(keys, keys.len() as int) + (4 * keys.len() + 16) + values_weight(
        values,
        values.len() as int,
    ) + (4 * values.len() + 16) + ground + layers_weight(layers, layers.len() as int) + (4 * (
    layers.len() + 1) + 16) + items_weight(5) + 32
}

/// The bytes of a tile before compression.
pub open spec fn tile_bytes(terrain: Option<TerrainMesh>, layers: Seq<EncoderLayer>) -> Seq<u8> {
    let log = tile_log(terrain, layers);
    buffer(log, offset_of(log), "arpt"@)
}

pub open spec fn mesh_of(terrain: Option<&TerrainMesh>) -> Option<TerrainMesh> {
    match terrain {
        Some(mesh) => Some(*mesh),
        None => None,
    }
}

/// Builds the uncompressed tile, with the identifier `arpt`.
pub fn encode(terrain: Option<&TerrainMesh>, layers: &[EncoderLayer]) -> (out: Vec<u8>)
    requires
        tile_weight(mesh_of(terrain), layers@) <= MAX_BUFFER,
    ensures
        out@ == tile_bytes(mesh_of(terrain), layers@),
        placed(tile_log(mesh_of(terrain), layers@)),
        out.len() >= 8,
        out@.subrange(4, 8) == seq!['a' as u8, 'r' as u8, 'p' as u8, 't' as u8],
{
    let dict: Dictionaries = Dictionaries::build(layers);
    let mut b: Builder = new_builder();
    let ghost b0 = b;
    let ghost keys = dict.keys@;
    let ghost values = dict.values@;
    assert(placed(objects(b0)));
    let key_refs: Vec<u32> = build_texts(&mut b, &dict.keys);
    let ghost b1 = b;
    proof {
        lemma_refs_len(objects(b0), keys, keys.len() as int);
    }
    let keys_vec: u32 = add_refs(&mut b, &key_refs);
    let ghost b2 = b;
    proof {
        lemma_adds(b1, b2, Object::Refs(key_refs@), keys_vec);
    }
    let value_refs: Vec<u32> = build_values(&mut b, &dict.values);
    let ghost b3 = b;
    proof {
        lemma_value_refs_len(objects(b2), values, values.len() as int);
    }
    let values_vec: u32 = add_refs(&mut b, &value_refs);
    let ghost b4 = b;
    proof {
        lemma_adds(b3, b4, Object::Refs(value_refs@), values_vec);
        assert(objects(b4) == dictionaries_log(keys, values));
    }
    let mut layer_refs: Vec<u32> = Vec::new();
    if let Some(mesh) = terrain {
        let at: u32 = build_terrain_layer(&mut b, mesh);
        layer_refs.push(at);
    }
    let ghost b5 = b;
    let ghost first = layer_refs@;
    let ghost ground = ground_log(objects(b4), mesh_of(terrain));
    let ghost ground_weight: nat = match mesh_of(terrain) {
        Some(mesh) => terrain_weight(mesh),
        None => 0,
    };
    assert(first =~= if terrain is Some {
        seq![offset_of(ground)]
    } else {
        Seq::empty()
    });
    assert(objects(b5) == ground);
    let mut i: usize = 0;
    assert(layer_refs@ =~= first + layers_refs(ground, layers@, keys, values, 0));
    while i < layers.len()
        invariant
            i <= layers.len(),
            dict.well_formed(),
            dict.keys@ == keys,
            dict.values@ == values,
            keys.len() <= u32::MAX,
            values.len() <= u32::MAX,
            first.len() <= 1,
            idle(b5),
            size_of(objects(b5)) + layers_weight(layers@, layers.len() as int) <= MAX_BUFFER,
            grew(
                b5,
                b,
                layers_log(ground, layers@, keys, values, i as int),
                layers_weight(layers@, i as int),
            ),
            objects(b5) == ground,
            layer_refs@ == first + layers_refs(ground, layers@, keys, values, i as int),
            layer_refs.len() == first.len() + i,
            within(layer_refs@, objects(b)),
        decreases layers.len() - i,
    {
        proof {
            lemma_layers_weight(layers@, i + 1, layers.len() as int);
        }
        let at: u32 = build_layer(&mut b, &layers[i], &dict);
        layer_refs.push(at);
        assert(layer_refs@ =~= first + layers_refs(ground, layers@, keys, values, i + 1));
        i = i + 1;
    }
    let ghost b6 = b;
    let layers_vec: u32 = add_refs(&mut b, &layer_refs);
    let ghost b7 = b;
    proof {
        lemma_adds(b6, b7, Object::Refs(layer_refs@), layers_vec);
    }
    let start: u32 = open_table(&mut b);
    push_ref(&mut b, 10, values_vec);
    push_ref(&mut b, 8, keys_vec);
    push_ref(&mut b, 6, layers_vec);
    push_word_field(&mut b, 4, TILE_VERSION);
    assert(table_items(b)->0 =~= tile_items(layers_vec, keys_vec, values_vec));
    let tile: u32 = close_table(&mut b, start);
    proof {
        lemma_adds(b7, b, Object::Table(tile_items(layers_vec, keys_vec, values_vec)), tile);
        assert(objects(b) == tile_log(mesh_of(terrain), layers@));
        reveal_strlit("arpt");
    }
    let out: Vec<u8> = finish(b, tile, "arpt");
    proof {
        assert forall|k: int| 0 <= k < 4 implies out@.subrange(4, 8)[k]
            == seq!['a' as u8, 'r' as u8, 'p' as u8, 't' as u8][k] by {
            assert(out[4 + k] as int == "arpt"@[k] as int);
        }
        assert(out@.subrange(4, 8) =~= seq!['a' as u8, 'r' as u8, 'p' as u8, 't' as u8]);
    }
    out
}

proof fn lemma_refs_len(log: Seq<Object>, texts: Seq<Seq<char>>, n: int)
    requires
        0 <= n,
    ensures
        texts_refs(log, texts, n).len() == n,
        16 * n <= texts_weight(texts, n),
    decreases n,
{
    if n > 0 {
        lemma_refs_len(log, texts, n - 1);
    }
}

proof fn lemma_value_refs_len(log: Seq<Object>, values: Seq<Datum>, n: int)
    requires
        0 <= n,
    ensures
        values_refs(log, values, n).len() == n,
        16 * n <= values_weight(values, n),
    decreases n,
{
    if n > 0 {
        lemma_value_refs_len(log, values, n - 1);
    }
}

/// The stream of a buffer at the quality from 0 to 11 nearest to one asked for.
pub open spec fn compressed_near(data: Seq<u8>, quality: int) -> Seq<u8> {
    compressed(data, clamp(quality, 0, 11) as i32)
}

/// A quality out of range gives the very bytes of the nearest one in range.
pub proof fn a_quality_out_of_range_is_the_nearest(data: Seq<u8>, quality: int)
    ensures
        quality <= 0 ==> compressed_near(data, quality) == compressed(data, 0),
        quality >= 11 ==> compressed_near(data, quality) == compressed(data, 11),
        0 <= quality <= 11 ==> compressed_near(data, quality) == compressed(data, quality as i32),
{
}

/// Compresses a buffer at a quality brought into the range 0 to 11.
pub fn compress(data: &Vec<u8>, quality: i32) -> (out: Vec<u8>)
    ensures
        out@ == compressed_near(data@, quality as int),
        decompressed(out@) == Some(data@),
{
    let q: i32 = if quality < 0 {
        0
    } else if quality > 11 {
        11
    } else {
        quality
    };
    compress_at(data, q)
}

/// Reads back what [`compress`] made: the buffer, or nothing when the stream
/// is not a whole compressed one.
pub fn decompress(stream: &Vec<u8>) -> (out: Option<Vec<u8>>)
    ensures
        match out {
            Some(data) => decompressed(stream@) == Some(data@),
            None => decompressed(stream@) is None,
        },
{
    decompress_all(stream)
}

/// Builds a compressed tile at a given quality. The stream decompresses to
/// what [`encode`] gives.
pub fn build_tile_q(
    terrain: Option<&TerrainMesh>,
    layers: &[EncoderLayer],
    quality: i32,
) -> (out: Vec<u8>)
    requires
        tile_weight(mesh_of(terrain), layers@) <= MAX_BUFFER,
    ensures
        decompressed(out@) == Some(tile_bytes(mesh_of(terrain), layers@)),
        out@ == compressed_near(tile_bytes(mesh_of(terrain), layers@), quality as int),
{
    compress(&encode(terrain, layers), quality)
}

/// Builds a compressed tile from features grouped by layer. A terrain mesh,
/// where there is one, becomes the first layer.
pub fn build_tile(terrain: Option<&TerrainMesh>, layers: &[EncoderLayer]) -> (out: Vec<u8>)
    requires
        tile_weight(mesh_of(terrain), layers@) <= MAX_BUFFER,
    ensures
        decompressed(out@) == Some(tile_bytes(mesh_of(terrain), layers@)),
        out@ == compressed(tile_bytes(mesh_of(terrain), layers@), DEFAULT_QUALITY),
{
    build_tile_q(terrain, layers, DEFAULT_QUALITY)
}

} // verus!
