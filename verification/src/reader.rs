//! What a reader of a finished buffer finds: the object an offset names, and
//! the value of each field of a table, its default where the field is absent.
use vstd::prelude::*;

use crate::wire::{an_offset_names_one_object, offset_of, placed, Field, Item, Object};

verus! {

/// Whether an offset names the object at a place.
pub open spec fn names(log: Seq<Object>, at: u32, i: int) -> bool {
    0 <= i < log.len() && offset_of(log.take(i + 1)) == at
}

/// The object an offset names.
pub open spec fn object_at(log: Seq<Object>, at: u32) -> Option<Object> {
    if exists|i: int| names(log, at, i) {
        Some(log[choose|i: int| names(log, at, i)])
    } else {
        None
    }
}

/// The place of the item that fills a field.
pub open spec fn filled(items: Seq<Item>, slot: u16) -> Option<int>
    decreases items.len(),
{
    if items.len() == 0 {
        None
    } else if items.last().slot == Some(slot) {
        Some(items.len() - 1)
    } else {
        filled(items.drop_last(), slot)
    }
}

/// The value of a field, where it is filled.
pub open spec fn value_of(items: Seq<Item>, slot: u16) -> Option<Field> {
    match filled(items, slot) {
        Some(i) => Some(items[i].value),
        None => None,
    }
}

pub open spec fn byte_of(items: Seq<Item>, slot: u16) -> u8 {
    match value_of(items, slot) {
        Some(Field::Byte(x)) => x,
        _ => 0,
    }
}

pub open spec fn flag_of(items: Seq<Item>, slot: u16) -> bool {
    match value_of(items, slot) {
        Some(Field::Flag(x)) => x,
        _ => false,
    }
}

pub open spec fn word_of(items: Seq<Item>, slot: u16) -> u32 {
    match value_of(items, slot) {
        Some(Field::Word(x)) => x,
        _ => 0,
    }
}

pub open spec fn long_of(items: Seq<Item>, slot: u16) -> u64 {
    match value_of(items, slot) {
        Some(Field::Long(x)) => x,
        _ => 0,
    }
}

pub open spec fn signed_of(items: Seq<Item>, slot: u16) -> i64 {
    match value_of(items, slot) {
        Some(Field::Signed(x)) => x,
        _ => 0,
    }
}

/// The `k`-th number of a group that stands inline behind a field. A buffer
/// fills from its end, so what follows in the bytes was pushed before.
pub open spec fn inline_of(items: Seq<Item>, slot: u16, k: int) -> Option<u64> {
    match filled(items, slot) {
        Some(i) => if 0 <= k <= i {
            match items[i - k].value {
                Field::Long(x) => Some(x),
                _ => None,
            }
        } else {
            None
        },
        None => None,
    }
}

/// The object a field refers to.
pub open spec fn referred(log: Seq<Object>, items: Seq<Item>, slot: u16) -> Option<Object> {
    match value_of(items, slot) {
        Some(Field::Ref(at)) => object_at(log, at),
        _ => None,
    }
}

/// The fields of the table at an offset.
pub open spec fn table_at(log: Seq<Object>, at: u32) -> Seq<Item> {
    match object_at(log, at) {
        Some(Object::Table(items)) => items,
        _ => Seq::empty(),
    }
}

/// The fields of the table a field refers to.
pub open spec fn table_of(log: Seq<Object>, items: Seq<Item>, slot: u16) -> Seq<Item> {
    match referred(log, items, slot) {
        Some(Object::Table(inner)) => inner,
        _ => Seq::empty(),
    }
}

pub open spec fn text_at(log: Seq<Object>, at: u32) -> Option<Seq<char>> {
    match object_at(log, at) {
        Some(Object::Text(s)) => Some(s),
        _ => None,
    }
}

pub open spec fn text_of(log: Seq<Object>, items: Seq<Item>, slot: u16) -> Option<Seq<char>> {
    match referred(log, items, slot) {
        Some(Object::Text(s)) => Some(s),
        _ => None,
    }
}

pub open spec fn bytes_of(log: Seq<Object>, items: Seq<Item>, slot: u16) -> Option<Seq<u8>> {
    match referred(log, items, slot) {
        Some(Object::Bytes(v)) => Some(v),
        _ => None,
    }
}

pub open spec fn signed_bytes_of(log: Seq<Object>, items: Seq<Item>, slot: u16) -> Option<Seq<i8>> {
    match referred(log, items, slot) {
        Some(Object::SignedBytes(v)) => Some(v),
        _ => None,
    }
}

pub open spec fn shorts_of(log: Seq<Object>, items: Seq<Item>, slot: u16) -> Option<Seq<u16>> {
    match referred(log, items, slot) {
        Some(Object::Shorts(v)) => Some(v),
        _ => None,
    }
}

pub open spec fn ints_of(log: Seq<Object>, items: Seq<Item>, slot: u16) -> Option<Seq<i32>> {
    match referred(log, items, slot) {
        Some(Object::Ints(v)) => Some(v),
        _ => None,
    }
}

pub open spec fn words_of(log: Seq<Object>, items: Seq<Item>, slot: u16) -> Option<Seq<u32>> {
    match referred(log, items, slot) {
        Some(Object::Words(v)) => Some(v),
        _ => None,
    }
}

/// The offsets a field lists.
pub open spec fn refs_of(log: Seq<Object>, items: Seq<Item>, slot: u16) -> Seq<u32> {
    match referred(log, items, slot) {
        Some(Object::Refs(v)) => v,
        _ => Seq::empty(),
    }
}

/// How many elements a hand-pushed vector counts.
pub open spec fn pushed_len(o: Option<Object>) -> int {
    match o {
        Some(Object::Pushed { len, .. }) => len as int,
        _ => 0,
    }
}

/// The `k`-th word of a hand-pushed vector, whose last word was pushed first.
pub open spec fn pushed_word(o: Option<Object>, k: int) -> Option<u32> {
    match o {
        Some(Object::Pushed { items, .. }) => if 0 <= k < items.len() {
            match items[items.len() - 1 - k].value {
                Field::Word(x) => Some(x),
                _ => None,
            }
        } else {
            None
        },
        _ => None,
    }
}

/// Whether a buffer is a later state of another.
pub open spec fn extends(before: Seq<Object>, after: Seq<Object>) -> bool {
    before.len() <= after.len() && after.take(before.len() as int) == before
}

pub proof fn lemma_extends_chain(a: Seq<Object>, b: Seq<Object>, c: Seq<Object>)
    requires
        extends(a, b),
        extends(b, c),
    ensures
        extends(a, c),
{
    assert(c.take(a.len() as int) =~= b.take(a.len() as int)) by {
        assert forall|i: int| 0 <= i < a.len() implies c[i] == b[i] by {
            assert(c.take(b.len() as int)[i] == b[i]);
        }
    }
}

pub proof fn lemma_extends_push(a: Seq<Object>, o: Object)
    ensures
        extends(a, a),
        extends(a, a.push(o)),
{
    assert(a.push(o).take(a.len() as int) =~= a);
    assert(a.take(a.len() as int) =~= a);
}

/// What was written last in an earlier state is found by its offset ever
/// after.
pub proof fn an_object_is_found_by_its_offset(log: Seq<Object>, full: Seq<Object>)
    requires
        placed(full),
        extends(log, full),
        log.len() > 0,
    ensures
        object_at(full, offset_of(log)) == Some(log.last()),
{
    let at = offset_of(log);
    let n = log.len() as int;
    assert(full.take(n - 1 + 1) == log);
    assert(names(full, at, n - 1));
    let i = choose|i: int| names(full, at, i);
    if i < n - 1 {
        an_offset_names_one_object(full, i + 1, n);
    } else if n - 1 < i {
        an_offset_names_one_object(full, n, i + 1);
    }
    assert(full.take(n)[n - 1] == full[n - 1]);
}

/// A pushed item is read from its own field, and leaves the others as they
/// were.
pub proof fn lemma_filled_push(items: Seq<Item>, item: Item, slot: u16)
    ensures
        item.slot == Some(slot) ==> filled(items.push(item), slot) == Some(items.len() as int),
        item.slot != Some(slot) ==> filled(items.push(item), slot) == filled(items, slot),
        item.slot == Some(slot) ==> value_of(items.push(item), slot) == Some(item.value),
        item.slot != Some(slot) ==> value_of(items.push(item), slot) == value_of(items, slot),
{
    assert(items.push(item).drop_last() =~= items);
    lemma_filled_bounds(items, slot);
}

/// Every field is found through the pushes after its own.
pub proof fn lemma_fields()
    ensures
        forall|items: Seq<Item>, item: Item, slot: u16| #[trigger]
            filled(items.push(item), slot) == if item.slot == Some(slot) {
                Some(items.len() as int)
            } else {
                filled(items, slot)
            },
        forall|slot: u16| (#[trigger] filled(Seq::empty(), slot)) is None,
{
    assert forall|items: Seq<Item>, item: Item, slot: u16| #[trigger]
        filled(items.push(item), slot) == if item.slot == Some(slot) {
            Some(items.len() as int)
        } else {
            filled(items, slot)
        } by {
        lemma_filled_push(items, item, slot);
    }
}

pub proof fn lemma_filled_bounds(items: Seq<Item>, slot: u16)
    ensures
        filled(items, slot) matches Some(i) ==> 0 <= i < items.len() && items[i].slot == Some(slot),
    decreases items.len(),
{
    if items.len() > 0 {
        lemma_filled_bounds(items.drop_last(), slot);
    }
}

} // verus!
