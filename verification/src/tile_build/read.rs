//! Reading a tile back: what a reader of the written buffer finds is what was
//! given to be written.
use vstd::prelude::*;

use crate::reader::{
    an_object_is_found_by_its_offset, byte_of, extends, flag_of, ints_of, lemma_extends_chain,
    lemma_extends_push, lemma_fields, long_of, pushed_len, pushed_word, referred, refs_of, shorts_of,
    signed_bytes_of, signed_of, table_at, table_of, text_at, text_of, value_of, word_of, words_of,
};
use crate::terrain::TerrainMesh;
use crate::tile_build::dictionary::{
    entries, every_property_resolves, feature_entries, key_list, layer_entries, value_list,
    EncoderFeature, EncoderLayer,
};
use crate::tile_build::geometry::{flat_form, xs_of, ys_of, FlatView};
use crate::tile_build::{
    all_layer_refs, dictionaries_log, feature_items, feature_log, feature_weight, features_log,
    features_refs, features_weight, field, geometry_log, ground_log, keys_at, layer_items,
    layer_log, layer_weight, layers_log, layers_refs, layers_weight, lemma_features_weight,
    lemma_layers_weight, lemma_refs_len, lemma_value_refs_len, mesh_log, pair_items, pairs_object,
    pairs_of, terrain_log, texts_log, texts_refs, tile_bytes, tile_items, tile_log, tile_weight, unless,
    value_items, value_log, values_log, values_refs, words_log,
};
use crate::value::{Datum, Value};
use crate::wire::{buffer, offset_of, placed, Field, Item, Object, MAX_BUFFER};

verus! {

/// The table of a tile.
pub open spec fn root(log: Seq<Object>) -> Seq<Item> {
    table_at(log, offset_of(log))
}

/// The value at an offset: its type in the first field, the value in the field
/// for that type.
pub open spec fn value_read(log: Seq<Object>, at: u32) -> Option<Datum> {
    let items = table_at(log, at);
    if byte_of(items, 4) == 0 {
        match text_of(log, items, 6) {
            Some(s) => Some(Datum::Text(s)),
            None => None,
        }
    } else if byte_of(items, 4) == 1 {
        Some(Datum::Int(signed_of(items, 8)))
    } else if byte_of(items, 4) == 2 {
        Some(Datum::Double(long_of(items, 10)))
    } else {
        Some(Datum::Bool(flag_of(items, 12)))
    }
}

/// A value as it reads back: a zero has lost its sign.
pub open spec fn unsigned_zero(d: Datum) -> Datum {
    if d == Datum::Double(0x8000_0000_0000_0000) {
        Datum::Double(0)
    } else {
        d
    }
}

/// The table of the `l`-th layer.
pub open spec fn layer_read(log: Seq<Object>, l: int) -> Seq<Item> {
    table_at(log, refs_of(log, root(log), 6)[l])
}

/// The table of the `f`-th feature of the `l`-th layer.
pub open spec fn feature_read(log: Seq<Object>, l: int, f: int) -> Seq<Item> {
    table_at(log, refs_of(log, layer_read(log, l), 6)[f])
}

/// The key of a feature's `k`-th property.
pub open spec fn key_read(log: Seq<Object>, feature: Seq<Item>, k: int) -> Option<Seq<char>> {
    match pushed_word(referred(log, feature, 10), 2 * k) {
        Some(i) => text_at(log, refs_of(log, root(log), 8)[i as int]),
        None => None,
    }
}

/// The value of a feature's `k`-th property.
pub open spec fn property_read(log: Seq<Object>, feature: Seq<Item>, k: int) -> Option<Datum> {
    match pushed_word(referred(log, feature, 10), 2 * k + 1) {
        Some(i) => value_read(log, refs_of(log, root(log), 10)[i as int]),
        None => None,
    }
}

/// How many of the first `n` features are written.
pub open spec fn written(features: Seq<EncoderFeature>, n: int) -> int
    decreases n,
{
    if n <= 0 {
        0
    } else {
        written(features, n - 1) + if flat_form(features[n - 1].geometry) is Some {
            1int
        } else {
            0
        }
    }
}

/// How many layers stand before the first that was given.
pub open spec fn ground_layers(terrain: Option<TerrainMesh>) -> int {
    if terrain is Some {
        1
    } else {
        0
    }
}

// ---------------------------------------------------------------------------
// A buffer only grows.
// ---------------------------------------------------------------------------

proof fn lemma_value_extends(log: Seq<Object>, v: Datum)
    ensures
        extends(log, value_log(log, v)),
{
    assert(value_log(log, v).take(log.len() as int) =~= log);
}

proof fn lemma_texts_extend(log: Seq<Object>, texts: Seq<Seq<char>>, i: int, n: int)
    requires
        0 <= i <= n,
    ensures
        extends(texts_log(log, texts, i), texts_log(log, texts, n)),
        extends(log, texts_log(log, texts, n)),
        texts_refs(log, texts, n).len() == n,
        i < n ==> texts_refs(log, texts, n)[i] == offset_of(texts_log(log, texts, i + 1)),
    decreases n,
{
    lemma_extends_push(texts_log(log, texts, n), Object::Text(Seq::empty()));
    if n > 0 {
        let before = texts_log(log, texts, n - 1);
        lemma_extends_push(before, Object::Text(texts[n - 1]));
        lemma_texts_extend(log, texts, if i < n {
            i
        } else {
            n - 1
        }, n - 1);
        lemma_extends_chain(log, before, texts_log(log, texts, n));
        if i < n {
            lemma_extends_chain(texts_log(log, texts, i), before, texts_log(log, texts, n));
        }
    }
}

proof fn lemma_values_extend(log: Seq<Object>, values: Seq<Datum>, i: int, n: int)
    requires
        0 <= i <= n,
    ensures
        extends(values_log(log, values, i), values_log(log, values, n)),
        extends(log, values_log(log, values, n)),
        values_refs(log, values, n).len() == n,
        i < n ==> values_refs(log, values, n)[i] == offset_of(values_log(log, values, i + 1)),
    decreases n,
{
    lemma_extends_push(values_log(log, values, n), Object::Text(Seq::empty()));
    if n > 0 {
        let before = values_log(log, values, n - 1);
        lemma_value_extends(before, values[n - 1]);
        lemma_values_extend(log, values, if i < n {
            i
        } else {
            n - 1
        }, n - 1);
        lemma_extends_chain(log, before, values_log(log, values, n));
        if i < n {
            lemma_extends_chain(values_log(log, values, i), before, values_log(log, values, n));
        }
    }
}

proof fn lemma_geometry_extends(log: Seq<Object>, f: FlatView)
    ensures
        extends(log, geometry_log(log, f)),
        geometry_log(log, f).len() > 0,
{
    assert(geometry_log(log, f).take(log.len() as int) =~= log);
}

proof fn lemma_feature_extends(
    log: Seq<Object>,
    f: EncoderFeature,
    keys: Seq<Seq<char>>,
    values: Seq<Datum>,
)
    ensures
        extends(log, feature_log(log, f, keys, values)),
{
    lemma_extends_push(log, Object::Text(Seq::empty()));
    if let Some(view) = flat_form(f.geometry) {
        lemma_geometry_extends(log, view);
        let shape = geometry_log(log, view);
        let all = feature_log(log, f, keys, values);
        assert(extends(shape, all)) by {
            assert(all.take(shape.len() as int) =~= shape);
        }
        lemma_extends_chain(log, shape, all);
    }
}

proof fn lemma_features_extend(
    log: Seq<Object>,
    features: Seq<EncoderFeature>,
    keys: Seq<Seq<char>>,
    values: Seq<Datum>,
    i: int,
    n: int,
)
    requires
        0 <= i <= n,
    ensures
        extends(
            features_log(log, features, keys, values, i),
            features_log(log, features, keys, values, n),
        ),
        extends(log, features_log(log, features, keys, values, n)),
        features_refs(log, features, keys, values, n).len() == written(features, n),
        0 <= written(features, i) <= written(features, n),
        i < n && flat_form(features[i].geometry) is Some ==> {
            &&& written(features, i) < written(features, n)
            &&& features_refs(log, features, keys, values, n)[written(features, i)] == offset_of(
                features_log(log, features, keys, values, i + 1),
            )
        },
    decreases n,
{
    lemma_extends_push(features_log(log, features, keys, values, n), Object::Text(Seq::empty()));
    if n > 0 {
        let before = features_log(log, features, keys, values, n - 1);
        let after = features_log(log, features, keys, values, n);
        lemma_feature_extends(before, features[n - 1], keys, values);
        lemma_features_extend(log, features, keys, values, if i < n {
            i
        } else {
            n - 1
        }, n - 1);
        lemma_extends_chain(log, before, after);
        if i < n {
            lemma_extends_chain(features_log(log, features, keys, values, i), before, after);
        }
    }
}

proof fn lemma_layer_extends(
    log: Seq<Object>,
    layer: EncoderLayer,
    keys: Seq<Seq<char>>,
    values: Seq<Datum>,
)
    ensures
        ({
            let n = layer.features@.len() as int;
            let all = layer_log(log, layer, keys, values);
            let done = features_log(log, layer.features@, keys, values, n);
            &&& extends(log, all)
            &&& extends(done, all)
        }),
{
    let n = layer.features@.len() as int;
    let done = features_log(log, layer.features@, keys, values, n);
    let all = layer_log(log, layer, keys, values);
    lemma_features_extend(log, layer.features@, keys, values, 0, n);
    assert(extends(done, all)) by {
        assert(all.take(done.len() as int) =~= done);
    }
    lemma_extends_chain(log, done, all);
}

proof fn lemma_layers_extend(
    log: Seq<Object>,
    layers: Seq<EncoderLayer>,
    keys: Seq<Seq<char>>,
    values: Seq<Datum>,
    i: int,
    n: int,
)
    requires
        0 <= i <= n,
    ensures
        extends(
            layers_log(log, layers, keys, values, i),
            layers_log(log, layers, keys, values, n),
        ),
        extends(log, layers_log(log, layers, keys, values, n)),
        layers_refs(log, layers, keys, values, n).len() == n,
        i < n ==> layers_refs(log, layers, keys, values, n)[i] == offset_of(
            layers_log(log, layers, keys, values, i + 1),
        ),
    decreases n,
{
    lemma_extends_push(layers_log(log, layers, keys, values, n), Object::Text(Seq::empty()));
    if n > 0 {
        let before = layers_log(log, layers, keys, values, n - 1);
        let after = layers_log(log, layers, keys, values, n);
        lemma_layer_extends(before, layers[n - 1], keys, values);
        lemma_layers_extend(log, layers, keys, values, if i < n {
            i
        } else {
            n - 1
        }, n - 1);
        lemma_extends_chain(log, before, after);
        if i < n {
            lemma_extends_chain(layers_log(log, layers, keys, values, i), before, after);
        }
    }
}

/// The states a tile passes through, each a later one of that before, and what
/// its table refers to.
proof fn lemma_tile_states(terrain: Option<TerrainMesh>, layers: Seq<EncoderLayer>)
    requires
        placed(tile_log(terrain, layers)),
    ensures
        ({
            let log = tile_log(terrain, layers);
            let all = layer_entries(layers, layers.len() as int);
            let keys = key_list(all);
            let values = value_list(all);
            let none = Seq::<Object>::empty();
            let texts = texts_log(none, keys, keys.len() as int);
            let key_refs = texts_refs(none, keys, keys.len() as int);
            let named = texts.push(Object::Refs(key_refs));
            let valued = values_log(named, values, values.len() as int);
            let listed = dictionaries_log(keys, values);
            let ground = ground_log(listed, terrain);
            let done = layers_log(ground, layers, keys, values, layers.len() as int);
            &&& extends(texts, log)
            &&& extends(valued, log)
            &&& extends(ground, log)
            &&& extends(done, log)
            &&& word_of(root(log), 4) == 1
            &&& refs_of(log, root(log), 6) == all_layer_refs(terrain, layers, keys, values)
            &&& refs_of(log, root(log), 8) == key_refs
            &&& refs_of(log, root(log), 10) == values_refs(named, values, values.len() as int)
        }),
{
    let log = tile_log(terrain, layers);
    let all = layer_entries(layers, layers.len() as int);
    let keys = key_list(all);
    let values = value_list(all);
    let none = Seq::<Object>::empty();
    let texts = texts_log(none, keys, keys.len() as int);
    let key_refs = texts_refs(none, keys, keys.len() as int);
    let named = texts.push(Object::Refs(key_refs));
    let valued = values_log(named, values, values.len() as int);
    let listed = dictionaries_log(keys, values);
    let ground = ground_log(listed, terrain);
    let done = layers_log(ground, layers, keys, values, layers.len() as int);
    let stacked = done.push(Object::Refs(all_layer_refs(terrain, layers, keys, values)));
    lemma_extends_push(log, log.last());
    lemma_extends_push(stacked, log.last());
    lemma_extends_push(done, stacked.last());
    lemma_extends_chain(done, stacked, log);
    lemma_layers_extend(ground, layers, keys, values, 0, layers.len() as int);
    lemma_extends_chain(ground, done, log);
    lemma_ground_extends(listed, terrain);
    lemma_extends_chain(listed, ground, log);
    lemma_extends_push(valued, listed.last());
    lemma_extends_chain(valued, listed, log);
    lemma_values_extend(named, values, 0, values.len() as int);
    lemma_extends_chain(named, valued, log);
    lemma_extends_push(texts, named.last());
    lemma_extends_chain(texts, named, log);
    an_object_is_found_by_its_offset(log, log);
    an_object_is_found_by_its_offset(stacked, log);
    an_object_is_found_by_its_offset(named, log);
    an_object_is_found_by_its_offset(listed, log);
    lemma_tile_fields(offset_of(stacked), keys_at(keys), offset_of(listed));
}

proof fn lemma_tile_fields(layers: u32, keys: u32, values: u32)
    ensures
        word_of(tile_items(layers, keys, values), 4) == 1,
        value_of(tile_items(layers, keys, values), 6) == Some(Field::Ref(layers)),
        value_of(tile_items(layers, keys, values), 8) == Some(Field::Ref(keys)),
        value_of(tile_items(layers, keys, values), 10) == Some(Field::Ref(values)),
{
    lemma_fields();
    assert(tile_items(layers, keys, values) =~= Seq::<Item>::empty().push(
        field(10, Field::Ref(values)),
    ).push(field(8, Field::Ref(keys))).push(field(6, Field::Ref(layers))).push(
        field(4, Field::Word(1)),
    ));
}

proof fn lemma_ground_extends(log: Seq<Object>, terrain: Option<TerrainMesh>)
    ensures
        extends(log, ground_log(log, terrain)),
{
    assert(ground_log(log, terrain).take(log.len() as int) =~= log);
}

// ---------------------------------------------------------------------------
// What is read back.
// ---------------------------------------------------------------------------

/// A tile's bytes hold its objects with the tile's table as the root. It reads
/// as the first version, with every layer that was given and the terrain's
/// before them, where there is one.
pub proof fn a_tile_reads_back(terrain: Option<TerrainMesh>, layers: Seq<EncoderLayer>)
    requires
        placed(tile_log(terrain, layers)),
    ensures
        ({
            let log = tile_log(terrain, layers);
            &&& tile_bytes(terrain, layers) == buffer(log, offset_of(log), "arpt"@)
            &&& word_of(root(log), 4) == 1
            &&& refs_of(log, root(log), 6).len() == layers.len() + if terrain is Some {
                1int
            } else {
                0
            }
        }),
{
    let all = layer_entries(layers, layers.len() as int);
    let keys = key_list(all);
    let values = value_list(all);
    lemma_tile_states(terrain, layers);
    lemma_layers_extend(
        ground_log(dictionaries_log(keys, values), terrain),
        layers,
        keys,
        values,
        0,
        layers.len() as int,
    );
}

/// The terrain of a tile reads back as its first layer, named so: one feature
/// with neither id nor properties, whose geometry is the mesh.
pub proof fn the_terrain_reads_back(mesh: TerrainMesh, layers: Seq<EncoderLayer>)
    requires
        placed(tile_log(Some(mesh), layers)),
    ensures
        ({
            let log = tile_log(Some(mesh), layers);
            let feature = feature_read(log, 0, 0);
            let shape = table_of(log, feature, 8);
            &&& text_of(log, layer_read(log, 0), 4) == Some("terrain"@)
            &&& refs_of(log, layer_read(log, 0), 6).len() == 1
            &&& long_of(feature, 4) == 0
            &&& byte_of(feature, 6) == 4
            &&& referred(log, feature, 10) is None
            &&& shorts_of(log, shape, 4) == Some(mesh.x@)
            &&& shorts_of(log, shape, 6) == Some(mesh.y@)
            &&& ints_of(log, shape, 8) == Some(mesh.z@)
            &&& words_of(log, shape, 10) == Some(mesh.indices@)
            &&& signed_bytes_of(log, shape, 12) == Some(mesh.normals@)
        }),
{
    let log = tile_log(Some(mesh), layers);
    let all = layer_entries(layers, layers.len() as int);
    let keys = key_list(all);
    let values = value_list(all);
    lemma_tile_states(Some(mesh), layers);
    let listed = dictionaries_log(keys, values);
    lemma_terrain_read(listed, mesh, log);
    assert(all_layer_refs(Some(mesh), layers, keys, values)[0] == offset_of(
        terrain_log(listed, mesh),
    ));
}

/// The terrain's layer, found in any later state of its buffer.
proof fn lemma_terrain_read(log: Seq<Object>, mesh: TerrainMesh, full: Seq<Object>)
    requires
        placed(full),
        extends(terrain_log(log, mesh), full),
    ensures
        ({
            let layer = table_at(full, offset_of(terrain_log(log, mesh)));
            let feature = table_at(full, refs_of(full, layer, 6)[0]);
            let shape = table_of(full, feature, 8);
            &&& text_of(full, layer, 4) == Some("terrain"@)
            &&& refs_of(full, layer, 6).len() == 1
            &&& long_of(feature, 4) == 0
            &&& byte_of(feature, 6) == 4
            &&& referred(full, feature, 10) is None
            &&& shorts_of(full, shape, 4) == Some(mesh.x@)
            &&& shorts_of(full, shape, 6) == Some(mesh.y@)
            &&& ints_of(full, shape, 8) == Some(mesh.z@)
            &&& words_of(full, shape, 10) == Some(mesh.indices@)
            &&& signed_bytes_of(full, shape, 12) == Some(mesh.normals@)
        }),
{
    let x = log.push(Object::Shorts(mesh.x@));
    let y = x.push(Object::Shorts(mesh.y@));
    let z = y.push(Object::Ints(mesh.z@));
    let indices = z.push(Object::Words(mesh.indices@));
    let normals = indices.push(Object::SignedBytes(mesh.normals@));
    let shape = mesh_log(log, mesh);
    let feature = shape.push(
        Object::Table(
            seq![field(8, Field::Ref(offset_of(shape))), field(6, Field::Byte(4))],
        ),
    );
    let listed = feature.push(Object::Refs(seq![offset_of(feature)]));
    let named = listed.push(Object::Text("terrain"@));
    let layer = terrain_log(log, mesh);
    assert(layer =~= named.push(Object::Table(layer_items(offset_of(listed), offset_of(named)))));
    lemma_extends_push(named, layer.last());
    lemma_extends_push(listed, named.last());
    lemma_extends_push(feature, listed.last());
    lemma_extends_push(shape, feature.last());
    lemma_extends_push(normals, shape.last());
    lemma_extends_push(indices, normals.last());
    lemma_extends_push(z, indices.last());
    lemma_extends_push(y, z.last());
    lemma_extends_push(x, y.last());
    lemma_extends_chain(named, layer, full);
    lemma_extends_chain(listed, named, full);
    lemma_extends_chain(feature, listed, full);
    lemma_extends_chain(shape, feature, full);
    lemma_extends_chain(normals, shape, full);
    lemma_extends_chain(indices, normals, full);
    lemma_extends_chain(z, indices, full);
    lemma_extends_chain(y, z, full);
    lemma_extends_chain(x, y, full);
    an_object_is_found_by_its_offset(layer, full);
    an_object_is_found_by_its_offset(named, full);
    an_object_is_found_by_its_offset(listed, full);
    an_object_is_found_by_its_offset(feature, full);
    an_object_is_found_by_its_offset(shape, full);
    an_object_is_found_by_its_offset(normals, full);
    an_object_is_found_by_its_offset(indices, full);
    an_object_is_found_by_its_offset(z, full);
    an_object_is_found_by_its_offset(y, full);
    an_object_is_found_by_its_offset(x, full);
    lemma_layer_fields(offset_of(listed), offset_of(named));
    lemma_terrain_fields(offset_of(shape));
    lemma_mesh_fields(
        offset_of(x),
        offset_of(y),
        offset_of(z),
        offset_of(indices),
        offset_of(normals),
    );
}

proof fn lemma_layer_fields(features: u32, name: u32)
    ensures
        value_of(layer_items(features, name), 6) == Some(Field::Ref(features)),
        value_of(layer_items(features, name), 4) == Some(Field::Ref(name)),
{
    lemma_fields();
    assert(layer_items(features, name) =~= Seq::<Item>::empty().push(
        field(6, Field::Ref(features)),
    ).push(field(4, Field::Ref(name))));
}

proof fn lemma_terrain_fields(shape: u32)
    ensures
        ({
            let items = seq![field(8, Field::Ref(shape)), field(6, Field::Byte(4))];
            &&& value_of(items, 4) is None
            &&& value_of(items, 6) == Some(Field::Byte(4))
            &&& value_of(items, 8) == Some(Field::Ref(shape))
            &&& value_of(items, 10) is None
        }),
{
    lemma_fields();
    assert(seq![field(8, Field::Ref(shape)), field(6, Field::Byte(4))] =~= Seq::<Item>::empty().push(
        field(8, Field::Ref(shape)),
    ).push(field(6, Field::Byte(4))));
}

proof fn lemma_mesh_fields(x: u32, y: u32, z: u32, indices: u32, normals: u32)
    ensures
        ({
            let items = seq![
                field(12, Field::Ref(normals)),
                field(10, Field::Ref(indices)),
                field(8, Field::Ref(z)),
                field(6, Field::Ref(y)),
                field(4, Field::Ref(x)),
            ];
            &&& value_of(items, 4) == Some(Field::Ref(x))
            &&& value_of(items, 6) == Some(Field::Ref(y))
            &&& value_of(items, 8) == Some(Field::Ref(z))
            &&& value_of(items, 10) == Some(Field::Ref(indices))
            &&& value_of(items, 12) == Some(Field::Ref(normals))
        }),
{
    lemma_fields();
    assert(seq![
        field(12, Field::Ref(normals)),
        field(10, Field::Ref(indices)),
        field(8, Field::Ref(z)),
        field(6, Field::Ref(y)),
        field(4, Field::Ref(x)),
    ] =~= Seq::<Item>::empty().push(field(12, Field::Ref(normals))).push(
        field(10, Field::Ref(indices)),
    ).push(field(8, Field::Ref(z))).push(field(6, Field::Ref(y))).push(field(4, Field::Ref(x))));
}

/// Where a layer was written, and what its table refers to.
proof fn lemma_layer_read(
    terrain: Option<TerrainMesh>,
    layers: Seq<EncoderLayer>,
    l: int,
)
    requires
        placed(tile_log(terrain, layers)),
        0 <= l < layers.len(),
    ensures
        ({
            let log = tile_log(terrain, layers);
            let all = layer_entries(layers, layers.len() as int);
            let keys = key_list(all);
            let values = value_list(all);
            let ground = ground_log(dictionaries_log(keys, values), terrain);
            let before = layers_log(ground, layers, keys, values, l);
            let features = layers[l].features@;
            let items = layer_read(log, ground_layers(terrain) + l);
            &&& text_of(log, items, 4) == Some(layers[l].name@)
            &&& refs_of(log, items, 6) == features_refs(
                before,
                features,
                keys,
                values,
                features.len() as int,
            )
            &&& extends(features_log(before, features, keys, values, features.len() as int), log)
        }),
{
    let log = tile_log(terrain, layers);
    let n = layers.len() as int;
    let all = layer_entries(layers, n);
    let keys = key_list(all);
    let values = value_list(all);
    let ground = ground_log(dictionaries_log(keys, values), terrain);
    let before = layers_log(ground, layers, keys, values, l);
    let own = layers_log(ground, layers, keys, values, l + 1);
    let features = layers[l].features@;
    let done = features_log(before, features, keys, values, features.len() as int);
    let listed = done.push(
        Object::Refs(features_refs(before, features, keys, values, features.len() as int)),
    );
    let named = listed.push(Object::Text(layers[l].name@));
    lemma_tile_states(terrain, layers);
    lemma_layers_extend(ground, layers, keys, values, l, n);
    lemma_layers_extend(ground, layers, keys, values, l + 1, n);
    let refs = all_layer_refs(terrain, layers, keys, values);
    assert(refs[ground_layers(terrain) + l] == offset_of(own));
    lemma_extends_chain(own, layers_log(ground, layers, keys, values, n), log);
    lemma_extends_push(named, own.last());
    lemma_extends_push(listed, named.last());
    lemma_extends_push(done, listed.last());
    lemma_extends_chain(named, own, log);
    lemma_extends_chain(listed, named, log);
    lemma_extends_chain(done, listed, log);
    an_object_is_found_by_its_offset(own, log);
    an_object_is_found_by_its_offset(named, log);
    an_object_is_found_by_its_offset(listed, log);
    lemma_layer_fields(offset_of(listed), offset_of(named));
}

/// Every layer reads back under its own name, in the order it was given, after
/// the terrain's, with as many features as have a form to be written in.
pub proof fn every_layer_reads_back(
    terrain: Option<TerrainMesh>,
    layers: Seq<EncoderLayer>,
    l: int,
)
    requires
        placed(tile_log(terrain, layers)),
        0 <= l < layers.len(),
    ensures
        ({
            let log = tile_log(terrain, layers);
            let items = layer_read(log, ground_layers(terrain) + l);
            &&& text_of(log, items, 4) == Some(layers[l].name@)
            &&& refs_of(log, items, 6).len() == written(
                layers[l].features@,
                layers[l].features@.len() as int,
            )
        }),
{
    let all = layer_entries(layers, layers.len() as int);
    let keys = key_list(all);
    let values = value_list(all);
    let ground = ground_log(dictionaries_log(keys, values), terrain);
    let before = layers_log(ground, layers, keys, values, l);
    let features = layers[l].features@;
    lemma_layer_read(terrain, layers, l);
    lemma_features_extend(before, features, keys, values, 0, features.len() as int);
}

/// A feature reads back from any later state of its buffer: its id, the kind
/// of its geometry and the geometry itself, and where its properties stand.
proof fn lemma_feature_read(
    log: Seq<Object>,
    f: EncoderFeature,
    keys: Seq<Seq<char>>,
    values: Seq<Datum>,
    full: Seq<Object>,
)
    requires
        placed(full),
        flat_form(f.geometry) is Some,
        extends(feature_log(log, f, keys, values), full),
    ensures
        ({
            let view = flat_form(f.geometry)->0;
            let items = table_at(full, offset_of(feature_log(log, f, keys, values)));
            let shape = table_of(full, items, 8);
            &&& long_of(items, 4) == f.id
            &&& byte_of(items, 6) == view.kind
            &&& shorts_of(full, shape, 4) == Some(xs_of(view.corners))
            &&& shorts_of(full, shape, 6) == Some(ys_of(view.corners))
            &&& words_of(full, shape, 10) == view.starts
            &&& words_of(full, shape, 12) == view.polygons
            &&& referred(full, items, 10) == Some(
                pairs_object(pairs_of(f.properties@, keys, values, f.properties@.len() as int)),
            )
        }),
{
    let view = flat_form(f.geometry)->0;
    let shape = geometry_log(log, view);
    let props = f.properties@;
    let pairs = shape.push(pairs_object(pairs_of(props, keys, values, props.len() as int)));
    let own = feature_log(log, f, keys, values);
    lemma_geometry_extends(log, view);
    lemma_extends_push(pairs, own.last());
    lemma_extends_push(shape, pairs.last());
    lemma_extends_chain(pairs, own, full);
    lemma_extends_chain(shape, pairs, full);
    an_object_is_found_by_its_offset(own, full);
    an_object_is_found_by_its_offset(pairs, full);
    an_object_is_found_by_its_offset(shape, full);
    lemma_feature_fields(f.id, offset_of(pairs), offset_of(shape), view.kind);
    lemma_shape_read(log, view, full);
}

proof fn lemma_feature_fields(id: u64, pairs: u32, shape: u32, kind: u8)
    ensures
        ({
            let items = feature_items(id, pairs, shape, kind);
            &&& long_of(items, 4) == id
            &&& byte_of(items, 6) == kind
            &&& value_of(items, 8) == Some(Field::Ref(shape))
            &&& value_of(items, 10) == Some(Field::Ref(pairs))
        }),
{
    lemma_fields();
}

proof fn lemma_shape_read(log: Seq<Object>, f: FlatView, full: Seq<Object>)
    requires
        placed(full),
        extends(geometry_log(log, f), full),
    ensures
        ({
            let items = match geometry_log(log, f).last() {
                Object::Table(items) => items,
                _ => Seq::empty(),
            };
            &&& geometry_log(log, f).last() is Table
            &&& shorts_of(full, items, 4) == Some(xs_of(f.corners))
            &&& shorts_of(full, items, 6) == Some(ys_of(f.corners))
            &&& words_of(full, items, 10) == f.starts
            &&& words_of(full, items, 12) == f.polygons
        }),
{
    let x = log.push(Object::Shorts(xs_of(f.corners)));
    let y = x.push(Object::Shorts(ys_of(f.corners)));
    let starts = words_log(y, f.starts);
    let polygons = words_log(starts, f.polygons);
    let own = geometry_log(log, f);
    lemma_extends_push(polygons, own.last());
    lemma_extends_push(starts, polygons.last());
    lemma_extends_push(y, starts.last());
    lemma_extends_push(x, y.last());
    lemma_extends_chain(polygons, own, full);
    lemma_extends_chain(starts, polygons, full);
    lemma_extends_chain(y, starts, full);
    lemma_extends_chain(x, y, full);
    an_object_is_found_by_its_offset(x, full);
    an_object_is_found_by_its_offset(y, full);
    an_object_is_found_by_its_offset(starts, full);
    an_object_is_found_by_its_offset(polygons, full);
    lemma_shape_fields(
        f.starts is None,
        f.polygons is None,
        offset_of(x),
        offset_of(y),
        offset_of(starts),
        offset_of(polygons),
    );
}

proof fn lemma_shape_fields(alone: bool, single: bool, x: u32, y: u32, starts: u32, polygons: u32)
    ensures
        ({
            let items = unless(
                unless(Seq::empty(), single, 12, Field::Ref(polygons)),
                alone,
                10,
                Field::Ref(starts),
            ).push(field(6, Field::Ref(y))).push(field(4, Field::Ref(x)));
            &&& value_of(items, 4) == Some(Field::Ref(x))
            &&& value_of(items, 6) == Some(Field::Ref(y))
            &&& value_of(items, 10) == (if alone {
                None
            } else {
                Some(Field::Ref(starts))
            })
            &&& value_of(items, 12) == (if single {
                None
            } else {
                Some(Field::Ref(polygons))
            })
        }),
{
    lemma_fields();
}

/// Every feature with a form reads back in its layer, in the order it was
/// given: its id, the kind of its geometry, every corner of it in order, and
/// where its lines, rings and polygons begin.
pub proof fn every_feature_reads_back(
    terrain: Option<TerrainMesh>,
    layers: Seq<EncoderLayer>,
    l: int,
    f: int,
)
    requires
        placed(tile_log(terrain, layers)),
        0 <= l < layers.len(),
        0 <= f < layers[l].features@.len(),
        flat_form(layers[l].features@[f].geometry) is Some,
    ensures
        ({
            let log = tile_log(terrain, layers);
            let given = layers[l].features@[f];
            let view = flat_form(given.geometry)->0;
            let items = feature_read(
                log,
                ground_layers(terrain) + l,
                written(layers[l].features@, f),
            );
            let shape = table_of(log, items, 8);
            &&& long_of(items, 4) == given.id
            &&& byte_of(items, 6) == view.kind
            &&& shorts_of(log, shape, 4) matches Some(xs) && xs.len() == view.corners.len()
                && forall|k: int| 0 <= k < xs.len() ==> #[trigger] xs[k] == view.corners[k].x
            &&& shorts_of(log, shape, 6) matches Some(ys) && ys.len() == view.corners.len()
                && forall|k: int| 0 <= k < ys.len() ==> #[trigger] ys[k] == view.corners[k].y
            &&& words_of(log, shape, 10) == view.starts
            &&& words_of(log, shape, 12) == view.polygons
        }),
{
    lemma_feature_found(terrain, layers, l, f);
}

/// A written feature is found where its layer lists it.
proof fn lemma_feature_found(
    terrain: Option<TerrainMesh>,
    layers: Seq<EncoderLayer>,
    l: int,
    f: int,
)
    requires
        placed(tile_log(terrain, layers)),
        0 <= l < layers.len(),
        0 <= f < layers[l].features@.len(),
        flat_form(layers[l].features@[f].geometry) is Some,
    ensures
        ({
            let log = tile_log(terrain, layers);
            let all = layer_entries(layers, layers.len() as int);
            let given = layers[l].features@[f];
            let view = flat_form(given.geometry)->0;
            let items = feature_read(
                log,
                ground_layers(terrain) + l,
                written(layers[l].features@, f),
            );
            let shape = table_of(log, items, 8);
            &&& long_of(items, 4) == given.id
            &&& byte_of(items, 6) == view.kind
            &&& shorts_of(log, shape, 4) == Some(xs_of(view.corners))
            &&& shorts_of(log, shape, 6) == Some(ys_of(view.corners))
            &&& words_of(log, shape, 10) == view.starts
            &&& words_of(log, shape, 12) == view.polygons
            &&& referred(log, items, 10) == Some(
                pairs_object(
                    pairs_of(
                        given.properties@,
                        key_list(all),
                        value_list(all),
                        given.properties@.len() as int,
                    ),
                ),
            )
        }),
{
    let log = tile_log(terrain, layers);
    let all = layer_entries(layers, layers.len() as int);
    let keys = key_list(all);
    let values = value_list(all);
    let ground = ground_log(dictionaries_log(keys, values), terrain);
    let before = layers_log(ground, layers, keys, values, l);
    let features = layers[l].features@;
    let n = features.len() as int;
    lemma_layer_read(terrain, layers, l);
    lemma_features_extend(before, features, keys, values, f, n);
    lemma_features_extend(before, features, keys, values, f + 1, n);
    lemma_extends_chain(
        features_log(before, features, keys, values, f + 1),
        features_log(before, features, keys, values, n),
        log,
    );
    lemma_feature_read(
        features_log(before, features, keys, values, f),
        features[f],
        keys,
        values,
        log,
    );
}

// ---------------------------------------------------------------------------
// Properties.
// ---------------------------------------------------------------------------

proof fn lemma_value_read(log: Seq<Object>, v: Datum, full: Seq<Object>)
    requires
        placed(full),
        extends(value_log(log, v), full),
    ensures
        value_read(full, offset_of(value_log(log, v))) == Some(unsigned_zero(v)),
{
    let own = value_log(log, v);
    an_object_is_found_by_its_offset(own, full);
    if let Datum::Text(s) = v {
        let named = log.push(Object::Text(s));
        lemma_extends_push(named, own.last());
        lemma_extends_chain(named, own, full);
        an_object_is_found_by_its_offset(named, full);
        lemma_value_fields(v, offset_of(named));
    } else {
        lemma_value_fields(v, 0);
    }
}

proof fn lemma_value_fields(v: Datum, at: u32)
    ensures
        ({
            let items = value_items(v, at);
            match v {
                Datum::Text(_) => byte_of(items, 4) == 0 && value_of(items, 6) == Some(Field::Ref(at)),
                Datum::Int(i) => byte_of(items, 4) == 1 && signed_of(items, 8) == i,
                Datum::Double(d) => {
                    &&& byte_of(items, 4) == 2
                    &&& long_of(items, 10) == if d == 0x8000_0000_0000_0000 {
                        0
                    } else {
                        d
                    }
                },
                Datum::Bool(b) => byte_of(items, 4) == 3 && flag_of(items, 12) == b,
            }
        }),
{
    lemma_fields();
}

/// The dictionaries are found by their positions.
proof fn lemma_dictionaries_read(
    terrain: Option<TerrainMesh>,
    layers: Seq<EncoderLayer>,
    i: int,
    j: int,
)
    requires
        placed(tile_log(terrain, layers)),
        0 <= i < key_list(layer_entries(layers, layers.len() as int)).len(),
        0 <= j < value_list(layer_entries(layers, layers.len() as int)).len(),
    ensures
        ({
            let log = tile_log(terrain, layers);
            let all = layer_entries(layers, layers.len() as int);
            &&& text_at(log, refs_of(log, root(log), 8)[i]) == Some(key_list(all)[i])
            &&& value_read(log, refs_of(log, root(log), 10)[j]) == Some(
                unsigned_zero(value_list(all)[j]),
            )
        }),
{
    let log = tile_log(terrain, layers);
    let all = layer_entries(layers, layers.len() as int);
    let keys = key_list(all);
    let values = value_list(all);
    let none = Seq::<Object>::empty();
    let n = keys.len() as int;
    let m = values.len() as int;
    let named = texts_log(none, keys, n).push(Object::Refs(texts_refs(none, keys, n)));
    lemma_tile_states(terrain, layers);
    lemma_texts_extend(none, keys, i, n);
    lemma_texts_extend(none, keys, i + 1, n);
    lemma_extends_chain(texts_log(none, keys, i + 1), texts_log(none, keys, n), log);
    an_object_is_found_by_its_offset(texts_log(none, keys, i + 1), log);
    lemma_values_extend(named, values, j, m);
    lemma_values_extend(named, values, j + 1, m);
    lemma_extends_chain(values_log(named, values, j + 1), values_log(named, values, m), log);
    lemma_value_read(values_log(named, values, j), values[j], log);
}

proof fn lemma_entries(props: Seq<(String, Value)>, k: int, n: int)
    requires
        0 <= k < n <= props.len(),
    ensures
        entries(props, n).len() == n,
        entries(props, n)[k] == (props[k].0@, props[k].1@),
    decreases n,
{
    if n > 1 {
        lemma_entries(props, if k < n - 1 {
            k
        } else {
            0
        }, n - 1);
    } else {
        assert(entries(props, 0).len() == 0);
    }
}

proof fn lemma_feature_entries(features: Seq<EncoderFeature>, f: int, k: int, n: int)
    requires
        0 <= f < n <= features.len(),
        0 <= k < features[f].properties@.len(),
    ensures
        feature_entries(features, n).contains(
            (features[f].properties@[k].0@, features[f].properties@[k].1@),
        ),
    decreases n,
{
    let e = (features[f].properties@[k].0@, features[f].properties@[k].1@);
    let props = features[n - 1].properties@;
    let before = feature_entries(features, n - 1);
    let own = entries(props, props.len() as int);
    if f == n - 1 {
        lemma_entries(props, k, props.len() as int);
        assert((before + own)[before.len() + k] == e);
    } else {
        lemma_feature_entries(features, f, k, n - 1);
        let at = choose|at: int| 0 <= at < before.len() && before[at] == e;
        assert((before + own)[at] == e);
    }
}

proof fn lemma_layer_entries(layers: Seq<EncoderLayer>, l: int, f: int, k: int, n: int)
    requires
        0 <= l < n <= layers.len(),
        0 <= f < layers[l].features@.len(),
        0 <= k < layers[l].features@[f].properties@.len(),
    ensures
        layer_entries(layers, n).contains(
            (
                layers[l].features@[f].properties@[k].0@,
                layers[l].features@[f].properties@[k].1@,
            ),
        ),
    decreases n,
{
    let p = layers[l].features@[f].properties@[k];
    let e = (p.0@, p.1@);
    let features = layers[n - 1].features@;
    let before = layer_entries(layers, n - 1);
    let own = feature_entries(features, features.len() as int);
    if l == n - 1 {
        lemma_feature_entries(features, f, k, features.len() as int);
        let at = choose|at: int| 0 <= at < own.len() && own[at] == e;
        assert((before + own)[before.len() + at] == e);
    } else {
        lemma_layer_entries(layers, l, f, k, n - 1);
        let at = choose|at: int| 0 <= at < before.len() && before[at] == e;
        assert((before + own)[at] == e);
    }
}

/// Properties that all stand in the dictionaries are all listed.
proof fn lemma_pairs(
    props: Seq<(String, Value)>,
    keys: Seq<Seq<char>>,
    values: Seq<Datum>,
    n: int,
)
    requires
        0 <= n <= props.len(),
        forall|k: int| 0 <= k < n ==> keys.contains((#[trigger] props[k]).0@) && values.contains(props[k].1@),
    ensures
        pairs_of(props, keys, values, n).len() == n,
        forall|k: int|
            0 <= k < n ==> #[trigger] pairs_of(props, keys, values, n)[k] == (
                keys.index_of(props[k].0@) as u32,
                values.index_of(props[k].1@) as u32,
            ),
    decreases n,
{
    if n > 0 {
        lemma_pairs(props, keys, values, n - 1);
        assert(keys.contains(props[n - 1].0@));
    }
}

/// A pair is found where it was pushed.
proof fn lemma_pair_items(pairs: Seq<(u32, u32)>, n: int, k: int)
    requires
        0 <= k < n <= pairs.len(),
    ensures
        pair_items(pairs, n).len() == 2 * n,
        ({
            let items = pair_items(pairs, n);
            let p = pairs[pairs.len() - n + k];
            &&& items[items.len() - 1 - 2 * k].value == Field::Word(p.0)
            &&& items[items.len() - 2 - 2 * k].value == Field::Word(p.1)
        }),
    decreases n,
{
    if n > 1 {
        lemma_pair_items(pairs, n - 1, if k > 0 {
            k - 1
        } else {
            0
        });
    } else {
        assert(pair_items(pairs, 0).len() == 0);
    }
}

/// Every property of a written feature reads back, in the order it was given:
/// its key and its value, of which a zero has no sign.
pub proof fn every_property_reads_back(
    terrain: Option<TerrainMesh>,
    layers: Seq<EncoderLayer>,
    l: int,
    f: int,
    k: int,
)
    requires
        placed(tile_log(terrain, layers)),
        tile_weight(terrain, layers) <= MAX_BUFFER,
        0 <= l < layers.len(),
        0 <= f < layers[l].features@.len(),
        flat_form(layers[l].features@[f].geometry) is Some,
        0 <= k < layers[l].features@[f].properties@.len(),
    ensures
        ({
            let log = tile_log(terrain, layers);
            let given = layers[l].features@[f].properties@;
            let items = feature_read(
                log,
                ground_layers(terrain) + l,
                written(layers[l].features@, f),
            );
            &&& pushed_len(referred(log, items, 10)) == given.len()
            &&& key_read(log, items, k) == Some(given[k].0@)
            &&& given[k].1@ != Datum::Double(0x8000_0000_0000_0000) ==> property_read(log, items, k)
                == Some(given[k].1@)
            &&& given[k].1@ == Datum::Double(0x8000_0000_0000_0000) ==> property_read(log, items, k)
                == Some(Datum::Double(0))
        }),
{
    let all = layer_entries(layers, layers.len() as int);
    let keys = key_list(all);
    let values = value_list(all);
    let props = layers[l].features@[f].properties@;
    let n = props.len() as int;
    assert forall|i: int| 0 <= i < n implies keys.contains((#[trigger] props[i]).0@) && values.contains(
        props[i].1@,
    ) by {
        lemma_layer_entries(layers, l, f, i, layers.len() as int);
        every_property_resolves(all, (props[i].0@, props[i].1@));
    }
    assert(keys.contains(props[k].0@));
    let key = keys.index_of(props[k].0@);
    let value = values.index_of(props[k].1@);
    assert(keys[key] == props[k].0@ && 0 <= key < keys.len());
    assert(values[value] == props[k].1@ && 0 <= value < values.len());
    let pairs = pairs_of(props, keys, values, n);
    lemma_pairs(props, keys, values, n);
    lemma_pair_items(pairs, n, k);
    lemma_feature_found(terrain, layers, l, f);
    lemma_dictionaries_read(terrain, layers, key, value);
    lemma_counts_fit(terrain, layers, l, f);
    assert(pairs[k] == (key as u32, value as u32));
}

/// What fits in a buffer is counted in 32 bits.
proof fn lemma_counts_fit(
    terrain: Option<TerrainMesh>,
    layers: Seq<EncoderLayer>,
    l: int,
    f: int,
)
    requires
        tile_weight(terrain, layers) <= MAX_BUFFER,
        0 <= l < layers.len(),
        0 <= f < layers[l].features@.len(),
        flat_form(layers[l].features@[f].geometry) is Some,
    ensures
        layers[l].features@[f].properties@.len() <= u32::MAX,
        key_list(layer_entries(layers, layers.len() as int)).len() <= u32::MAX,
        value_list(layer_entries(layers, layers.len() as int)).len() <= u32::MAX,
{
    let all = layer_entries(layers, layers.len() as int);
    let none = Seq::<Object>::empty();
    let features = layers[l].features@;
    lemma_refs_len(none, key_list(all), key_list(all).len() as int);
    lemma_value_refs_len(none, value_list(all), value_list(all).len() as int);
    lemma_layers_weight(layers, l + 1, layers.len() as int);
    lemma_features_weight(features, f + 1, features.len() as int);
    assert(layers_weight(layers, l + 1) >= layer_weight(layers[l]));
    assert(features_weight(features, f + 1) >= feature_weight(features[f]));
}

} // verus!
