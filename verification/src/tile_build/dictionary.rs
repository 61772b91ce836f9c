//! The key and value dictionaries of one tile.
//!
//! Features name their properties by position: every key and every value in
//! use stands in its dictionary once. Keys with a fixed meaning come first, in
//! a fixed order; the others, and all values, keep the order of first use.
use std::collections::HashMap;

use vstd::hash_map::StringHashMap;
use vstd::prelude::*;
use vstd::std_specs::hash::*;

use crate::value::{Datum, Value};

verus! {

broadcast use group_hash_axioms;

/// A feature ready to encode: quantized geometry and its properties.
#[derive(Debug)]
pub struct EncoderFeature {
    pub id: u64,
    pub geometry: crate::tile_build::geometry::Geometry,
    pub properties: Vec<(String, Value)>,
}

/// A named layer of features, which keep their order.
#[derive(Debug)]
pub struct EncoderLayer {
    pub name: String,
    pub features: Vec<EncoderFeature>,
}

/// The reserved property keys, in their mandated order.
pub open spec fn reserved_keys() -> Seq<Seq<char>> {
    seq!["class"@, "subclass"@, "name"@, "height"@, "min_height"@, "level"@, "rank"@]
}

fn reserved_key(i: usize) -> (key: &'static str)
    requires
        i < 7,
    ensures
        key@ == reserved_keys()[i as int],
{
    match i {
        0 => "class",
        1 => "subclass",
        2 => "name",
        3 => "height",
        4 => "min_height",
        5 => "level",
        _ => "rank",
    }
}

/// What the first `n` items hold, each once, in the order of first use.
pub open spec fn distinct<T>(s: Seq<T>, n: int) -> Seq<T>
    decreases n,
{
    if n <= 0 {
        Seq::empty()
    } else {
        let before = distinct(s, n - 1);
        if before.contains(s[n - 1]) {
            before
        } else {
            before.push(s[n - 1])
        }
    }
}

/// The keys and values of the first `n` properties.
pub open spec fn entries(props: Seq<(String, Value)>, n: int) -> Seq<(Seq<char>, Datum)>
    decreases n,
{
    if n <= 0 {
        Seq::empty()
    } else {
        entries(props, n - 1).push((props[n - 1].0@, props[n - 1].1@))
    }
}

/// The properties of the first `n` features, one after the other.
pub open spec fn feature_entries(features: Seq<EncoderFeature>, n: int) -> Seq<(Seq<char>, Datum)>
    decreases n,
{
    if n <= 0 {
        Seq::empty()
    } else {
        let props = features[n - 1].properties@;
        feature_entries(features, n - 1) + entries(props, props.len() as int)
    }
}

/// The properties of the first `n` layers, one after the other.
pub open spec fn layer_entries(layers: Seq<EncoderLayer>, n: int) -> Seq<(Seq<char>, Datum)>
    decreases n,
{
    if n <= 0 {
        Seq::empty()
    } else {
        let features = layers[n - 1].features@;
        layer_entries(layers, n - 1) + feature_entries(features, features.len() as int)
    }
}

pub open spec fn keys_of(all: Seq<(Seq<char>, Datum)>) -> Seq<Seq<char>> {
    all.map_values(|e: (Seq<char>, Datum)| e.0)
}

pub open spec fn data_of(all: Seq<(Seq<char>, Datum)>) -> Seq<Datum> {
    all.map_values(|e: (Seq<char>, Datum)| e.1)
}

/// The keys in use, in the order of first use.
pub open spec fn used_keys(all: Seq<(Seq<char>, Datum)>) -> Seq<Seq<char>> {
    distinct(keys_of(all), all.len() as int)
}

/// The values in use, in the order of first use.
pub open spec fn value_list(all: Seq<(Seq<char>, Datum)>) -> Seq<Datum> {
    distinct(data_of(all), all.len() as int)
}

/// Those of the first `n` reserved keys that are in use.
pub open spec fn reserved_used(used: Seq<Seq<char>>, n: int) -> Seq<Seq<char>>
    decreases n,
{
    if n <= 0 {
        Seq::empty()
    } else if used.contains(reserved_keys()[n - 1]) {
        reserved_used(used, n - 1).push(reserved_keys()[n - 1])
    } else {
        reserved_used(used, n - 1)
    }
}

/// Those of the first `n` keys in use that are not reserved.
pub open spec fn user_keys(used: Seq<Seq<char>>, n: int) -> Seq<Seq<char>>
    decreases n,
{
    if n <= 0 {
        Seq::empty()
    } else if reserved_keys().contains(used[n - 1]) {
        user_keys(used, n - 1)
    } else {
        user_keys(used, n - 1).push(used[n - 1])
    }
}

/// The key dictionary: the reserved keys in use, then the others.
pub open spec fn key_list(all: Seq<(Seq<char>, Datum)>) -> Seq<Seq<char>> {
    let used = used_keys(all);
    reserved_used(used, 7) + user_keys(used, used.len() as int)
}

/// Strings without repetition, each with its position.
pub struct Keys {
    keys: Vec<String>,
    index: StringHashMap<usize>,
}

impl View for Keys {
    type V = Seq<Seq<char>>;

    closed spec fn view(&self) -> Seq<Seq<char>> {
        self.keys@.map_values(|k: String| k@)
    }
}

impl Keys {
    /// Each key stands once, and the index gives its position.
    pub closed spec fn well_formed(&self) -> bool {
        &&& forall|k: Seq<char>|
            #![trigger self.index@.contains_key(k)]
            self.index@.contains_key(k) ==> self.index@[k] < self.keys.len()
                && self.keys[self.index@[k] as int]@ == k
        &&& forall|i: int|
            0 <= i < self.keys.len() ==> self.index@.contains_key((#[trigger] self.keys[i])@)
                && self.index@[self.keys[i]@] == i
    }

    pub fn new() -> (out: Keys)
        ensures
            out.well_formed(),
            out@ == Seq::<Seq<char>>::empty(),
    {
        let out: Keys = Keys { keys: Vec::new(), index: StringHashMap::new() };
        assert(out@ =~= Seq::<Seq<char>>::empty());
        out
    }

    pub fn len(&self) -> (n: usize)
        ensures
            n == self@.len(),
    {
        self.keys.len()
    }

    pub fn get(&self, i: usize) -> (key: &String)
        requires
            i < self@.len(),
        ensures
            key@ == self@[i as int],
    {
        &self.keys[i]
    }

    /// Whether a key is in the dictionary.
    pub fn has(&self, key: &str) -> (yes: bool)
        requires
            self.well_formed(),
        ensures
            yes == self@.contains(key@),
    {
        let yes: bool = self.index.contains_key(key);
        proof {
            if yes {
                assert(self@[self.index@[key@] as int] == key@);
            } else if self@.contains(key@) {
                let i = choose|i: int| 0 <= i < self@.len() && self@[i] == key@;
                assert(self.keys[i]@ == key@);
            }
        }
        yes
    }

    /// The position of a key.
    pub fn find(&self, key: &str) -> (at: Option<usize>)
        requires
            self.well_formed(),
        ensures
            at matches Some(i) ==> i == self@.index_of(key@) && i < self@.len(),
            at is None <==> !self@.contains(key@),
    {
        match self.index.get(key) {
            Some(i) => {
                proof {
                    assert(self@[*i as int] == key@);
                    let k = self@.index_of(key@);
                    assert(self.keys[k]@ == key@);
                }
                Some(*i)
            },
            None => {
                proof {
                    if self@.contains(key@) {
                        let i = choose|i: int| 0 <= i < self@.len() && self@[i] == key@;
                        assert(self.keys[i]@ == key@);
                    }
                }
                None
            },
        }
    }

    /// Adds a key unless it stands here already.
    pub fn add(&mut self, key: &str)
        requires
            old(self).well_formed(),
        ensures
            final(self).well_formed(),
            final(self)@ == if old(self)@.contains(key@) {
                old(self)@
            } else {
                old(self)@.push(key@)
            },
    {
        if self.has(key) {
            return ;
        }
        let at: usize = self.keys.len();
        self.index.insert(key.to_owned(), at);
        self.keys.push(key.to_owned());
        proof {
            assert(self@ =~= old(self)@.push(key@));
            assert forall|i: int| 0 <= i < self.keys.len() implies self.index@.contains_key(
                (#[trigger] self.keys[i])@,
            ) && self.index@[self.keys[i]@] == i by {
                if i < at {
                    assert(self.keys[i] == old(self).keys[i]);
                    if self.keys[i]@ == key@ {
                        assert(old(self)@[i] == key@);
                    }
                }
            }
            assert forall|k: Seq<char>|
                #![trigger self.index@.contains_key(k)]
                self.index@.contains_key(k) implies self.index@[k] < self.keys.len()
                && self.keys[self.index@[k] as int]@ == k by {
                if k != key@ {
                    assert(old(self).index@.contains_key(k));
                    assert(self.keys[self.index@[k] as int] == old(self).keys[self.index@[k] as int]);
                }
            }
        }
    }
}

/// Values without repetition, each with its position.
pub struct Values {
    values: Vec<Value>,
    texts: StringHashMap<usize>,
    ints: HashMap<i64, usize>,
    doubles: HashMap<u64, usize>,
    yes: Option<usize>,
    no: Option<usize>,
}

impl View for Values {
    type V = Seq<Datum>;

    closed spec fn view(&self) -> Seq<Datum> {
        self.values@.map_values(|v: Value| v@)
    }
}

impl Values {
    /// Where the index says a value stands.
    closed spec fn place(&self, d: Datum) -> Option<usize> {
        match d {
            Datum::Text(s) => if self.texts@.contains_key(s) {
                Some(self.texts@[s])
            } else {
                None
            },
            Datum::Int(i) => if self.ints@.contains_key(i) {
                Some(self.ints@[i])
            } else {
                None
            },
            Datum::Double(b) => if self.doubles@.contains_key(b) {
                Some(self.doubles@[b])
            } else {
                None
            },
            Datum::Bool(b) => if b {
                self.yes
            } else {
                self.no
            },
        }
    }

    /// Each value stands once, and the index gives its position.
    pub closed spec fn well_formed(&self) -> bool {
        &&& forall|d: Datum|
            (#[trigger] self.place(d)) matches Some(i) ==> i < self.values.len()
                && self.values[i as int]@ == d
        &&& forall|i: int|
            0 <= i < self.values.len() ==> self.place((#[trigger] self.values[i])@) == Some(
                i as usize,
            )
    }

    pub fn new() -> (out: Values)
        ensures
            out.well_formed(),
            out@ == Seq::<Datum>::empty(),
    {
        let out: Values = Values {
            values: Vec::new(),
            texts: StringHashMap::new(),
            ints: HashMap::new(),
            doubles: HashMap::new(),
            yes: None,
            no: None,
        };
        assert(out@ =~= Seq::<Datum>::empty());
        out
    }

    pub fn len(&self) -> (n: usize)
        ensures
            n == self@.len(),
    {
        self.values.len()
    }

    pub fn get(&self, i: usize) -> (value: &Value)
        requires
            i < self@.len(),
        ensures
            value@ == self@[i as int],
    {
        &self.values[i]
    }

    fn place_of(&self, v: &Value) -> (at: Option<usize>)
        ensures
            at == self.place(v@),
    {
        match v {
            Value::String(s) => match self.texts.get(s.as_str()) {
                Some(i) => Some(*i),
                None => None,
            },
            Value::Int(n) => match self.ints.get(n) {
                Some(i) => Some(*i),
                None => None,
            },
            Value::Double(b) => match self.doubles.get(b) {
                Some(i) => Some(*i),
                None => None,
            },
            Value::Bool(b) => if *b {
                self.yes
            } else {
                self.no
            },
        }
    }

    /// The position of a value.
    pub fn find(&self, v: &Value) -> (at: Option<usize>)
        requires
            self.well_formed(),
        ensures
            at matches Some(i) ==> i == self@.index_of(v@) && i < self@.len(),
            at is None <==> !self@.contains(v@),
    {
        let at: Option<usize> = self.place_of(v);
        proof {
            assert(self.place(v@) == at);
            if at is Some {
                assert(self@[at->0 as int] == v@);
                let k = self@.index_of(v@);
                assert(self.values[k]@ == v@);
            } else if self@.contains(v@) {
                let i = choose|i: int| 0 <= i < self@.len() && self@[i] == v@;
                assert(self.values[i]@ == v@);
            }
        }
        at
    }

    /// Adds a value unless it stands here already.
    pub fn add(&mut self, v: &Value)
        requires
            old(self).well_formed(),
        ensures
            final(self).well_formed(),
            final(self)@ == if old(self)@.contains(v@) {
                old(self)@
            } else {
                old(self)@.push(v@)
            },
    {
        if self.find(v).is_some() {
            return ;
        }
        let at: usize = self.values.len();
        match v {
            Value::String(s) => {
                self.texts.insert(s.clone(), at);
            },
            Value::Int(n) => {
                self.ints.insert(*n, at);
            },
            Value::Double(b) => {
                self.doubles.insert(*b, at);
            },
            Value::Bool(b) => if *b {
                self.yes = Some(at);
            } else {
                self.no = Some(at);
            },
        }
        self.values.push(v.duplicate());
        proof {
            assert(self@ =~= old(self)@.push(v@));
            assert forall|d: Datum| #[trigger] self.place(d) == if d == v@ {
                Some(at)
            } else {
                old(self).place(d)
            } by {}
            assert forall|d: Datum|
                (#[trigger] self.place(d)) matches Some(i) ==> i < self.values.len()
                    && self.values[i as int]@ == d by {
                if d != v@ {
                    assert(old(self).place(d) == self.place(d));
                    if self.place(d) is Some {
                        let i = self.place(d)->0;
                        assert(self.values[i as int] == old(self).values[i as int]);
                    }
                }
            }
            assert forall|i: int| 0 <= i < self.values.len() implies self.place(
                (#[trigger] self.values[i])@,
            ) == Some(i as usize) by {
                if i < at {
                    assert(self.values[i] == old(self).values[i]);
                    if self.values[i]@ == v@ {
                        assert(old(self)@[i] == v@);
                    }
                }
            }
        }
    }
}

/// The key and value dictionaries of one tile.
pub struct Dictionaries {
    pub keys: Keys,
    pub values: Values,
}

impl Dictionaries {
    pub open spec fn well_formed(&self) -> bool {
        self.keys.well_formed() && self.values.well_formed()
    }

    /// Takes up one feature's properties.
    fn take(&mut self, props: &Vec<(String, Value)>, Ghost(all): Ghost<Seq<(Seq<char>, Datum)>>)
        requires
            old(self).well_formed(),
            old(self).keys@ == used_keys(all),
            old(self).values@ == value_list(all),
        ensures
            final(self).well_formed(),
            final(self).keys@ == used_keys(all + entries(props@, props.len() as int)),
            final(self).values@ == value_list(all + entries(props@, props.len() as int)),
    {
        let mut i: usize = 0;
        assert(all + entries(props@, 0) =~= all);
        while i < props.len()
            invariant
                i <= props.len(),
                self.well_formed(),
                self.keys@ == used_keys(all + entries(props@, i as int)),
                self.values@ == value_list(all + entries(props@, i as int)),
            decreases props.len() - i,
        {
            self.keys.add(props[i].0.as_str());
            self.values.add(&props[i].1);
            proof {
                let before = all + entries(props@, i as int);
                let e = (props[i as int].0@, props[i as int].1@);
                assert(all + entries(props@, i + 1) =~= before.push(e));
                lemma_lists_push(before, e);
            }
            i = i + 1;
        }
    }

    /// The dictionaries of all the properties in some layers.
    pub fn build(layers: &[EncoderLayer]) -> (out: Dictionaries)
        ensures
            out.well_formed(),
            out.keys@ == key_list(layer_entries(layers@, layers.len() as int)),
            out.values@ == value_list(layer_entries(layers@, layers.len() as int)),
    {
        let mut used: Dictionaries = Dictionaries { keys: Keys::new(), values: Values::new() };
        let mut i: usize = 0;
        while i < layers.len()
            invariant
                i <= layers.len(),
                used.well_formed(),
                used.keys@ == used_keys(layer_entries(layers@, i as int)),
                used.values@ == value_list(layer_entries(layers@, i as int)),
            decreases layers.len() - i,
        {
            let features: &Vec<EncoderFeature> = &layers[i].features;
            let ghost before = layer_entries(layers@, i as int);
            let mut j: usize = 0;
            assert(before + feature_entries(features@, 0) =~= before);
            while j < features.len()
                invariant
                    j <= features.len(),
                    used.well_formed(),
                    used.keys@ == used_keys(before + feature_entries(features@, j as int)),
                    used.values@ == value_list(before + feature_entries(features@, j as int)),
                decreases features.len() - j,
            {
                let props: &Vec<(String, Value)> = &features[j].properties;
                used.take(props, Ghost(before + feature_entries(features@, j as int)));
                assert(before + feature_entries(features@, j + 1) =~= (before + feature_entries(
                    features@,
                    j as int,
                )) + entries(props@, props.len() as int));
                j = j + 1;
            }
            i = i + 1;
        }
        let ghost all = layer_entries(layers@, layers.len() as int);
        let ghost list = used_keys(all);
        let mut keys: Keys = Keys::new();
        let mut r: usize = 0;
        proof {
            lemma_distinct(keys_of(all), all.len() as int);
        }
        while r < 7
            invariant
                r <= 7,
                used.well_formed(),
                used.keys@ == list,
                keys.well_formed(),
                keys@ == reserved_used(list, r as int),
            decreases 7 - r,
        {
            let key: &str = reserved_key(r);
            if used.keys.has(key) {
                proof {
                    lemma_reserved_apart();
                    lemma_reserved_used(list, r as int);
                    if keys@.contains(key@) {
                        let k = choose|k: int| 0 <= k < r && reserved_keys()[k] == key@;
                        assert(reserved_keys()[k] == reserved_keys()[r as int]);
                    }
                }
                keys.add(key);
            }
            r = r + 1;
        }
        let mut k: usize = 0;
        assert(keys@ =~= reserved_used(list, 7) + user_keys(list, 0));
        while k < used.keys.len()
            invariant
                k <= used.keys@.len(),
                used.well_formed(),
                used.keys@ == list,
                keys.well_formed(),
                no_repeats(list),
                keys@ == reserved_used(list, 7) + user_keys(list, k as int),
            decreases used.keys@.len() - k,
        {
            let key: &String = used.keys.get(k);
            if !is_reserved(key.as_str()) {
                proof {
                    lemma_reserved_used(list, 7);
                    lemma_user_keys(list, k as int);
                    if keys@.contains(key@) {
                        let i = choose|i: int| 0 <= i < keys@.len() && keys@[i] == key@;
                        if i < reserved_used(list, 7).len() {
                            assert(reserved_used(list, 7).contains(key@));
                        } else {
                            assert(user_keys(list, k as int)[i - reserved_used(list, 7).len()]
                                == key@);
                            assert(user_keys(list, k as int).contains(key@));
                        }
                    }
                    assert((reserved_used(list, 7) + user_keys(list, k as int)).push(key@)
                        =~= reserved_used(list, 7) + user_keys(list, k + 1));
                }
                keys.add(key.as_str());
            }
            k = k + 1;
        }
        Dictionaries { keys, values: used.values }
    }
}

fn is_reserved(key: &str) -> (yes: bool)
    ensures
        yes == reserved_keys().contains(key@),
{
    let owned: String = key.to_owned();
    let mut r: usize = 0;
    while r < 7
        invariant
            r <= 7,
            owned@ == key@,
            forall|k: int| 0 <= k < r ==> #[trigger] reserved_keys()[k] != key@,
        decreases 7 - r,
    {
        if crate::text::is_name(&owned, reserved_key(r)) {
            assert(reserved_keys()[r as int] == key@);
            return true;
        }
        r = r + 1;
    }
    false
}

/// No item stands twice.
pub open spec fn no_repeats<T>(s: Seq<T>) -> bool {
    forall|i: int, j: int| 0 <= i < j < s.len() ==> s[i] != s[j]
}

proof fn lemma_lists_push(all: Seq<(Seq<char>, Datum)>, e: (Seq<char>, Datum))
    ensures
        used_keys(all.push(e)) == if used_keys(all).contains(e.0) {
            used_keys(all)
        } else {
            used_keys(all).push(e.0)
        },
        value_list(all.push(e)) == if value_list(all).contains(e.1) {
            value_list(all)
        } else {
            value_list(all).push(e.1)
        },
{
    let n = all.len() as int;
    assert(keys_of(all.push(e)) =~= keys_of(all).push(e.0));
    assert(data_of(all.push(e)) =~= data_of(all).push(e.1));
    lemma_distinct_prefix(keys_of(all), keys_of(all).push(e.0), n);
    lemma_distinct_prefix(data_of(all), data_of(all).push(e.1), n);
}

proof fn lemma_distinct_prefix<T>(a: Seq<T>, b: Seq<T>, n: int)
    requires
        0 <= n <= a.len(),
        n <= b.len(),
        forall|i: int| 0 <= i < n ==> a[i] == b[i],
    ensures
        distinct(a, n) == distinct(b, n),
    decreases n,
{
    if n > 0 {
        lemma_distinct_prefix(a, b, n - 1);
    }
}

/// What is listed without repetition has no repeats, and is what was there.
proof fn lemma_distinct<T>(s: Seq<T>, n: int)
    requires
        0 <= n <= s.len(),
    ensures
        no_repeats(distinct(s, n)),
        forall|i: int| 0 <= i < n ==> distinct(s, n).contains(#[trigger] s[i]),
        forall|x: T| #[trigger] distinct(s, n).contains(x) ==> s.contains(x),
    decreases n,
{
    if n > 0 {
        lemma_distinct(s, n - 1);
        let before = distinct(s, n - 1);
        let after = distinct(s, n);
        let x = s[n - 1];
        if !before.contains(x) {
            assert(after == before.push(x));
            assert forall|i: int, j: int| 0 <= i < j < after.len() implies after[i] != after[j] by {
                if j == before.len() {
                    assert(before[i] == after[i]);
                }
            }
        }
        assert forall|i: int| 0 <= i < n implies after.contains(#[trigger] s[i]) by {
            if i < n - 1 {
                assert(before.contains(s[i]));
                let k = choose|k: int| 0 <= k < before.len() && before[k] == s[i];
                assert(after[k] == s[i]);
            } else if !before.contains(x) {
                assert(after[before.len() as int] == x);
            }
        }
        assert forall|y: T| #[trigger] after.contains(y) implies s.contains(y) by {
            let k = choose|k: int| 0 <= k < after.len() && after[k] == y;
            if k < before.len() {
                assert(before[k] == y);
                assert(before.contains(y));
            }
        }
    }
}

proof fn lemma_reserved_apart()
    ensures
        no_repeats(reserved_keys()),
{
    reveal_strlit("class");
    reveal_strlit("subclass");
    reveal_strlit("name");
    reveal_strlit("height");
    reveal_strlit("min_height");
    reveal_strlit("level");
    reveal_strlit("rank");
    let r = reserved_keys();
    assert(r[0].len() == 5 && r[1].len() == 8 && r[2].len() == 4 && r[3].len() == 6 && r[4].len()
        == 10 && r[5].len() == 5 && r[6].len() == 4);
    assert(r[0][0] == 'c' && r[5][0] == 'l');
    assert(r[2][0] == 'n' && r[6][0] == 'r');
}

proof fn lemma_reserved_used(used: Seq<Seq<char>>, n: int)
    requires
        0 <= n <= 7,
    ensures
        forall|k: Seq<char>| #[trigger]
            reserved_used(used, n).contains(k) <==> used.contains(k) && exists|i: int|
                0 <= i < n && reserved_keys()[i] == k,
    decreases n,
{
    if n > 0 {
        lemma_reserved_used(used, n - 1);
        let before = reserved_used(used, n - 1);
        let after = reserved_used(used, n);
        let x = reserved_keys()[n - 1];
        assert forall|k: Seq<char>| #[trigger] after.contains(k) implies used.contains(k) && exists|
            i: int,
        | 0 <= i < n && reserved_keys()[i] == k by {
            let at = choose|at: int| 0 <= at < after.len() && after[at] == k;
            if at < before.len() {
                assert(before[at] == k);
                assert(before.contains(k));
            } else {
                assert(reserved_keys()[n - 1] == k);
            }
        }
        assert forall|k: Seq<char>|
            used.contains(k) && (exists|i: int| 0 <= i < n && reserved_keys()[i] == k) implies 
            #[trigger] after.contains(k) by {
            let i = choose|i: int| 0 <= i < n && reserved_keys()[i] == k;
            if i == n - 1 {
                assert(after[before.len() as int] == k);
            } else {
                assert(before.contains(k));
                let at = choose|at: int| 0 <= at < before.len() && before[at] == k;
                assert(after[at] == k);
            }
        }
    }
}

proof fn lemma_user_keys(used: Seq<Seq<char>>, n: int)
    requires
        0 <= n <= used.len(),
    ensures
        forall|k: Seq<char>| #[trigger]
            user_keys(used, n).contains(k) <==> !reserved_keys().contains(k) && exists|i: int|
                0 <= i < n && used[i] == k,
    decreases n,
{
    if n > 0 {
        lemma_user_keys(used, n - 1);
        let before = user_keys(used, n - 1);
        let after = user_keys(used, n);
        let x = used[n - 1];
        assert forall|k: Seq<char>| #[trigger] after.contains(k) implies !reserved_keys().contains(k)
            && exists|i: int| 0 <= i < n && used[i] == k by {
            let at = choose|at: int| 0 <= at < after.len() && after[at] == k;
            if at < before.len() {
                assert(before[at] == k);
                assert(before.contains(k));
            } else {
                assert(used[n - 1] == k);
            }
        }
        assert forall|k: Seq<char>|
            !reserved_keys().contains(k) && (exists|i: int| 0 <= i < n && used[i] == k) implies 
            #[trigger] after.contains(k) by {
            let i = choose|i: int| 0 <= i < n && used[i] == k;
            if i == n - 1 {
                assert(after[before.len() as int] == k);
            } else {
                assert(before.contains(k));
                let at = choose|at: int| 0 <= at < before.len() && before[at] == k;
                assert(after[at] == k);
            }
        }
    }
}

proof fn lemma_reserved_part_ascends(used: Seq<Seq<char>>, n: int)
    requires
        0 <= n <= 7,
    ensures
        forall|i: int|
            0 <= i < reserved_used(used, n).len() ==> reserved_keys().contains(
                #[trigger] reserved_used(used, n)[i],
            ) && reserved_keys().index_of(reserved_used(used, n)[i]) < n,
        forall|i: int, j: int|
            0 <= i < j < reserved_used(used, n).len() ==> reserved_keys().index_of(
                #[trigger] reserved_used(used, n)[i],
            ) < reserved_keys().index_of(#[trigger] reserved_used(used, n)[j]),
    decreases n,
{
    lemma_reserved_apart();
    if n > 0 {
        lemma_reserved_part_ascends(used, n - 1);
        let x = reserved_keys()[n - 1];
        let k = reserved_keys().index_of(x);
        assert(reserved_keys()[n - 1] == x && reserved_keys()[k] == x);
        assert(k == n - 1);
        let before = reserved_used(used, n - 1);
        let after = reserved_used(used, n);
        assert forall|i: int| 0 <= i < after.len() implies reserved_keys().contains(
            #[trigger] after[i],
        ) && reserved_keys().index_of(after[i]) < n by {
            if i < before.len() {
                assert(before[i] == after[i]);
            } else {
                assert(after[i] == x);
            }
        }
        assert forall|i: int, j: int| 0 <= i < j < after.len() implies reserved_keys().index_of(
            #[trigger] after[i],
        ) < reserved_keys().index_of(#[trigger] after[j]) by {
            assert(before[i] == after[i]);
            if j < before.len() {
                assert(before[j] == after[j]);
            }
        }
    }
}

proof fn lemma_user_part_apart(used: Seq<Seq<char>>, n: int)
    requires
        0 <= n <= used.len(),
        no_repeats(used),
    ensures
        no_repeats(user_keys(used, n)),
    decreases n,
{
    if n > 0 {
        lemma_user_part_apart(used, n - 1);
        lemma_user_keys(used, n - 1);
        let before = user_keys(used, n - 1);
        let after = user_keys(used, n);
        assert forall|i: int, j: int| 0 <= i < j < after.len() implies after[i] != after[j] by {
            if j == before.len() && after[i] == after[j] {
                assert(before[i] == used[n - 1]);
                assert(before.contains(used[n - 1]));
            }
        }
    }
}

/// Reserved keys come first, in their mandated order.
pub proof fn reserved_keys_come_first(all: Seq<(Seq<char>, Datum)>, i: int, j: int)
    requires
        0 <= i < j < key_list(all).len(),
        reserved_keys().contains(key_list(all)[j]),
    ensures
        reserved_keys().contains(key_list(all)[i]),
        reserved_keys().index_of(key_list(all)[i]) < reserved_keys().index_of(key_list(all)[j]),
{
    let used = used_keys(all);
    let head = reserved_used(used, 7);
    let tail = user_keys(used, used.len() as int);
    lemma_user_keys(used, used.len() as int);
    lemma_reserved_part_ascends(used, 7);
    if j >= head.len() {
        assert(tail[j - head.len()] == key_list(all)[j]);
        assert(tail.contains(key_list(all)[j]));
    } else {
        assert(head[i] == key_list(all)[i] && head[j] == key_list(all)[j]);
    }
}

/// No key and no value stands in its dictionary twice.
pub proof fn dictionaries_have_no_repeats(all: Seq<(Seq<char>, Datum)>)
    ensures
        no_repeats(key_list(all)),
        no_repeats(value_list(all)),
{
    let used = used_keys(all);
    let head = reserved_used(used, 7);
    let tail = user_keys(used, used.len() as int);
    lemma_distinct(keys_of(all), all.len() as int);
    lemma_distinct(data_of(all), all.len() as int);
    lemma_user_part_apart(used, used.len() as int);
    lemma_user_keys(used, used.len() as int);
    lemma_reserved_part_ascends(used, 7);
    let list = key_list(all);
    assert forall|i: int, j: int| 0 <= i < j < list.len() implies list[i] != list[j] by {
        if j < head.len() {
            assert(head[i] == list[i] && head[j] == list[j]);
        } else if i < head.len() {
            assert(head[i] == list[i]);
            assert(tail[j - head.len()] == list[j]);
            assert(tail.contains(list[j]));
        } else {
            assert(tail[i - head.len()] == list[i] && tail[j - head.len()] == list[j]);
        }
    }
}

/// Every property resolves: its key and its value stand in the dictionaries,
/// which hold nothing else.
pub proof fn every_property_resolves(all: Seq<(Seq<char>, Datum)>, e: (Seq<char>, Datum))
    ensures
        all.contains(e) ==> key_list(all).contains(e.0) && value_list(all).contains(e.1),
        key_list(all).contains(e.0) ==> keys_of(all).contains(e.0),
        value_list(all).contains(e.1) ==> data_of(all).contains(e.1),
{
    let used = used_keys(all);
    let head = reserved_used(used, 7);
    let tail = user_keys(used, used.len() as int);
    lemma_distinct(keys_of(all), all.len() as int);
    lemma_distinct(data_of(all), all.len() as int);
    lemma_reserved_used(used, 7);
    lemma_user_keys(used, used.len() as int);
    if all.contains(e) {
        let i = choose|i: int| 0 <= i < all.len() && all[i] == e;
        assert(keys_of(all)[i] == e.0 && data_of(all)[i] == e.1);
        assert(used.contains(e.0));
        let u = choose|u: int| 0 <= u < used.len() && used[u] == e.0;
        if reserved_keys().contains(e.0) {
            let r = choose|r: int| 0 <= r < 7 && reserved_keys()[r] == e.0;
            assert(head.contains(e.0));
            let k = choose|k: int| 0 <= k < head.len() && head[k] == e.0;
            assert(key_list(all)[k] == e.0);
        } else {
            assert(tail.contains(e.0));
            let k = choose|k: int| 0 <= k < tail.len() && tail[k] == e.0;
            assert(key_list(all)[head.len() + k] == e.0);
        }
    }
    if key_list(all).contains(e.0) {
        let k = choose|k: int| 0 <= k < key_list(all).len() && key_list(all)[k] == e.0;
        if k < head.len() {
            assert(head[k] == e.0);
            assert(head.contains(e.0));
        } else {
            assert(tail[k - head.len()] == e.0);
            assert(tail.contains(e.0));
        }
        assert(used.contains(e.0));
    }
}

/// What is listed without repetition is listed in the order of first use: the
/// earlier of two is used before the later one ever is.
pub proof fn first_used_is_first_listed<T>(s: Seq<T>, n: int, i: int, j: int)
    requires
        0 <= n <= s.len(),
        0 <= i < j < distinct(s, n).len(),
    ensures
        exists|p: int|
            0 <= p < n && #[trigger] s[p] == distinct(s, n)[i] && forall|q: int|
                0 <= q <= p ==> #[trigger] s[q] != distinct(s, n)[j],
    decreases n,
{
    let all = distinct(s, n);
    let before = distinct(s, n - 1);
    if j < before.len() {
        first_used_is_first_listed(s, n - 1, i, j);
        assert(all[i] == before[i] && all[j] == before[j]);
        let p = choose|p: int|
            0 <= p < n - 1 && #[trigger] s[p] == before[i] && forall|q: int| 0 <= q <= p ==> #[trigger] s[q] != before[j];
        assert(s[p] == all[i]);
    } else {
        lemma_distinct(s, n - 1);
        lemma_listed_was_used(s, n - 1, i);
        assert(all[i] == before[i]);
        let p = choose|p: int| 0 <= p < n - 1 && #[trigger] s[p] == before[i];
        assert(s[p] == all[i]);
        assert forall|q: int| 0 <= q <= p implies #[trigger] s[q] != all[j] by {
            assert(before.contains(s[q]));
        }
    }
}

proof fn lemma_listed_was_used<T>(s: Seq<T>, n: int, i: int)
    requires
        0 <= n <= s.len(),
        0 <= i < distinct(s, n).len(),
    ensures
        exists|p: int| 0 <= p < n && #[trigger] s[p] == distinct(s, n)[i],
    decreases n,
{
    let before = distinct(s, n - 1);
    if i < before.len() {
        lemma_listed_was_used(s, n - 1, i);
        assert(distinct(s, n)[i] == before[i]);
    } else {
        assert(s[n - 1] == distinct(s, n)[i]);
    }
}

/// Two keys that are not reserved stand in the order of first use.
pub proof fn other_keys_stand_in_order_of_use(all: Seq<(Seq<char>, Datum)>, i: int, j: int)
    requires
        0 <= i < j < key_list(all).len(),
        !reserved_keys().contains(key_list(all)[i]),
    ensures
        exists|p: int|
            0 <= p < all.len() && (#[trigger] all[p]).0 == key_list(all)[i] && forall|q: int|
                0 <= q <= p ==> (#[trigger] all[q]).0 != key_list(all)[j],
{
    let used = used_keys(all);
    let keys = keys_of(all);
    let n = all.len() as int;
    let head = reserved_used(used, 7);
    let tail = user_keys(used, used.len() as int);
    lemma_reserved_part_ascends(used, 7);
    if i < head.len() {
        assert(head[i] == key_list(all)[i]);
    }
    assert(tail[i - head.len()] == key_list(all)[i]);
    assert(tail[j - head.len()] == key_list(all)[j]);
    let at = lemma_user_keys_keep_order(used, used.len() as int, i - head.len(), j - head.len());
    first_used_is_first_listed(keys, n, at.0, at.1);
    let p = choose|p: int|
        0 <= p < n && #[trigger] keys[p] == used[at.0] && forall|q: int| 0 <= q <= p ==> #[trigger] keys[q] != used[at.1];
    assert(all[p].0 == keys[p]);
    assert forall|q: int| 0 <= q <= p implies (#[trigger] all[q]).0 != key_list(all)[j] by {
        assert(keys[q] == all[q].0);
    }
}

proof fn lemma_user_keys_keep_order(used: Seq<Seq<char>>, n: int, i: int, j: int) -> (at: (int, int))
    requires
        0 <= n <= used.len(),
        0 <= i < j < user_keys(used, n).len(),
    ensures
        0 <= at.0 < at.1 < n,
        used[at.0] == user_keys(used, n)[i],
        used[at.1] == user_keys(used, n)[j],
    decreases n,
{
    let before = user_keys(used, n - 1);
    if j < before.len() {
        lemma_user_keys_keep_order(used, n - 1, i, j)
    } else {
        (lemma_user_key_was_used(used, n - 1, i), n - 1)
    }
}

proof fn lemma_user_key_was_used(used: Seq<Seq<char>>, n: int, i: int) -> (at: int)
    requires
        0 <= n <= used.len(),
        0 <= i < user_keys(used, n).len(),
    ensures
        0 <= at < n,
        used[at] == user_keys(used, n)[i],
    decreases n,
{
    let before = user_keys(used, n - 1);
    if i < before.len() {
        lemma_user_key_was_used(used, n - 1, i)
    } else {
        n - 1
    }
}

/// Values stand in the order of first use.
pub proof fn values_stand_in_order_of_use(all: Seq<(Seq<char>, Datum)>, i: int, j: int)
    requires
        0 <= i < j < value_list(all).len(),
    ensures
        exists|p: int|
            0 <= p < all.len() && (#[trigger] all[p]).1 == value_list(all)[i] && forall|q: int|
                0 <= q <= p ==> (#[trigger] all[q]).1 != value_list(all)[j],
{
    let data = data_of(all);
    let n = all.len() as int;
    first_used_is_first_listed(data, n, i, j);
    let list = value_list(all);
    let p = choose|p: int|
        0 <= p < n && #[trigger] data[p] == list[i] && forall|q: int| 0 <= q <= p ==> #[trigger] data[q] != list[j];
    assert(all[p].1 == data[p]);
    assert forall|q: int| 0 <= q <= p implies (#[trigger] all[q]).1 != list[j] by {
        assert(data[q] == all[q].1);
    }
}

/// Where a key is to stand: the reserved ones in their order, and every other
/// behind them.
pub open spec fn standing(key: Seq<char>) -> int {
    if key == "class"@ {
        0
    } else if key == "subclass"@ {
        1
    } else if key == "name"@ {
        2
    } else if key == "height"@ {
        3
    } else if key == "min_height"@ {
        4
    } else if key == "level"@ {
        5
    } else if key == "rank"@ {
        6
    } else {
        7
    }
}

/// Class, subclass, name, height, least height, level and rank come first, in this
/// order.
pub proof fn keys_stand_where_they_are_to(all: Seq<(Seq<char>, Datum)>, i: int, j: int)
    requires
        0 <= i < j < key_list(all).len(),
    ensures
        standing(key_list(all)[i]) <= standing(key_list(all)[j]),
        standing(key_list(all)[j]) < 7 ==> standing(key_list(all)[i]) < standing(key_list(all)[j]),
{
    lemma_standing(key_list(all)[i]);
    lemma_standing(key_list(all)[j]);
    if reserved_keys().contains(key_list(all)[j]) {
        reserved_keys_come_first(all, i, j);
    }
}

proof fn lemma_standing(key: Seq<char>)
    ensures
        reserved_keys().contains(key) <==> standing(key) < 7,
        reserved_keys().contains(key) ==> reserved_keys().index_of(key) == standing(key),
{
    lemma_reserved_apart();
    let r = reserved_keys();
    if standing(key) < 7 {
        assert(r[standing(key)] == key);
    }
    if r.contains(key) {
        let k = r.index_of(key);
        assert(r[k] == key);
        if k != standing(key) {
            assert(r[standing(key)] == key);
        }
    }
}

/// Every property of every feature is entered.
pub proof fn every_property_is_entered(layers: Seq<EncoderLayer>, n: int, l: int, f: int, p: int)
    requires
        0 <= l < n <= layers.len(),
        0 <= f < layers[l].features@.len(),
        0 <= p < layers[l].features@[f].properties@.len(),
    ensures
        layer_entries(layers, n).contains(
            (layers[l].features@[f].properties@[p].0@, layers[l].features@[f].properties@[p].1@),
        ),
    decreases n,
{
    let e = (layers[l].features@[f].properties@[p].0@, layers[l].features@[f].properties@[p].1@);
    let rest = layer_entries(layers, n - 1);
    let features = layers[n - 1].features@;
    let more = feature_entries(features, features.len() as int);
    let all = layer_entries(layers, n);
    if l < n - 1 {
        every_property_is_entered(layers, n - 1, l, f, p);
        let k = choose|k: int| 0 <= k < rest.len() && rest[k] == e;
        assert(all[k] == e);
    } else {
        lemma_feature_entered(features, features.len() as int, f, p);
        let k = choose|k: int| 0 <= k < more.len() && more[k] == e;
        assert(all[rest.len() + k] == e);
    }
}

proof fn lemma_feature_entered(features: Seq<EncoderFeature>, n: int, f: int, p: int)
    requires
        0 <= f < n <= features.len(),
        0 <= p < features[f].properties@.len(),
    ensures
        feature_entries(features, n).contains((features[f].properties@[p].0@, features[f].properties@[p].1@)),
    decreases n,
{
    let e = (features[f].properties@[p].0@, features[f].properties@[p].1@);
    let rest = feature_entries(features, n - 1);
    let props = features[n - 1].properties@;
    let all = feature_entries(features, n);
    if f < n - 1 {
        lemma_feature_entered(features, n - 1, f, p);
        let k = choose|k: int| 0 <= k < rest.len() && rest[k] == e;
        assert(all[k] == e);
    } else {
        lemma_entry(props, props.len() as int, p);
        assert(all[rest.len() + p] == e);
    }
}

proof fn lemma_entry(props: Seq<(String, Value)>, n: int, p: int)
    requires
        0 <= p < n <= props.len(),
    ensures
        entries(props, n).len() == n,
        entries(props, n)[p] == (props[p].0@, props[p].1@),
    decreases n,
{
    if n > 1 {
        lemma_entry(props, n - 1, if p < n - 1 {
            p
        } else {
            0
        });
    } else {
        assert(entries(props, 0).len() == 0);
    }
}

} // verus!
