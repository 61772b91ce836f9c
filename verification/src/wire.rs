//! Writing a FlatBuffer and compressing it.
//!
//! A builder lays objects out one after the other, and each is known
//! afterwards by its offset. Contracts speak of the sequence of objects a
//! builder has written: the layout of the bytes follows from it.
use vstd::prelude::*;

verus! {

/// A value written inside a table or a hand-pushed vector.
pub enum Field {
    Byte(u8),
    Flag(bool),
    Word(u32),
    Long(u64),
    Signed(i64),
    /// The offset of an object written earlier.
    Ref(u32),
}

/// One push into the object under construction, with the byte position of its
/// vtable entry when the push fills a field.
pub struct Item {
    pub slot: Option<u16>,
    pub value: Field,
}

/// An object in a buffer. References are the offsets of earlier objects.
pub enum Object {
    Text(Seq<char>),
    Bytes(Seq<u8>),
    SignedBytes(Seq<i8>),
    Shorts(Seq<u16>),
    Ints(Seq<i32>),
    Words(Seq<u32>),
    Refs(Seq<u32>),
    /// A vector of `len` elements pushed item by item, from the last to the first.
    Pushed { len: u32, items: Seq<Item> },
    Table(Seq<Item>),
}

/// The most bytes one buffer may hold: offsets are signed 32-bit numbers.
pub const MAX_BUFFER: u32 = 0x7fff_ffff;

/// The most items one table or hand-pushed vector is charged for besides its own size.
pub open spec fn items_weight(n: nat) -> nat {
    40 * n + 128
}

/// An upper bound on the bytes an object takes, padding and vtable included.
pub open spec fn object_weight(o: Object) -> nat {
    match o {
        Object::Text(s) => text_weight(s),
        Object::Bytes(v) => v.len() + 16,
        Object::SignedBytes(v) => v.len() + 16,
        Object::Shorts(v) => 2 * v.len() + 16,
        Object::Ints(v) => 4 * v.len() + 16,
        Object::Words(v) => 4 * v.len() + 16,
        Object::Refs(v) => 4 * v.len() + 16,
        Object::Pushed { items, .. } => items_weight(items.len()),
        Object::Table(items) => items_weight(items.len()),
    }
}

/// A string takes at most four bytes a character, its length, its terminator
/// and padding.
pub open spec fn text_weight(s: Seq<char>) -> nat {
    4 * s.len() + 16
}

/// A `flatbuffers::FlatBufferBuilder`, opaque here.
#[verifier::external_body]
pub struct Builder {
    inner: flatbuffers::FlatBufferBuilder<'static>,
}

/// The objects a builder has finished, in the order they were written.
pub uninterp spec fn objects(b: Builder) -> Seq<Object>;

/// The pushes into the table a builder has open, if one is.
pub uninterp spec fn table_items(b: Builder) -> Option<Seq<Item>>;

/// The pushes into the vector a builder has open, if one is.
pub uninterp spec fn vector_items(b: Builder) -> Option<Seq<Item>>;

/// The bytes in use once these objects are written.
pub uninterp spec fn size_of(log: Seq<Object>) -> nat;

/// The offset of the last of these objects.
pub uninterp spec fn offset_of(log: Seq<Object>) -> u32;

/// The bytes of the finished buffer with this root and file identifier.
pub uninterp spec fn buffer(log: Seq<Object>, root: u32, identifier: Seq<char>) -> Seq<u8>;

/// What `brotli::BrotliDecompress` reads out of a compressed stream, if it
/// accepts the stream.
pub uninterp spec fn decompressed(stream: Seq<u8>) -> Option<Seq<u8>>;

/// The stream `brotli::BrotliCompress` turns data into at a quality.
pub uninterp spec fn compressed(data: Seq<u8>, quality: i32) -> Seq<u8>;

/// Whether a builder has neither a table nor a vector open.
pub open spec fn idle(b: Builder) -> bool {
    table_items(b) is None && vector_items(b) is None
}

/// Whether a builder has nothing open and can take an object of this weight.
pub open spec fn has_room(b: Builder, weight: nat) -> bool {
    idle(b) && size_of(objects(b)) + weight <= MAX_BUFFER
}

/// Whether a builder went from one state to the next by writing an object at
/// an offset beyond all that was there, within the object's weight.
pub open spec fn adds(
    before: Builder,
    after: Builder,
    o: Object,
    at: u32,
) -> bool {
    &&& objects(after) == objects(before).push(o)
    &&& idle(after)
    &&& size_of(objects(before)) < at <= size_of(objects(after))
    &&& size_of(objects(after)) <= size_of(objects(before)) + object_weight(o)
}

/// Whether a builder with a vector open went from one state to the next by
/// one push.
pub open spec fn pushes(
    before: Builder,
    after: Builder,
    item: Item,
) -> bool {
    &&& objects(after) == objects(before)
    &&& table_items(after) is None
    &&& vector_items(before) is Some
    &&& vector_items(after) == Some(vector_items(before)->0.push(item))
}

/// Whether a builder has a vector open and can take one more push into it.
pub open spec fn can_push(b: Builder) -> bool {
    &&& table_items(b) is None
    &&& vector_items(b) is Some
    &&& size_of(objects(b)) + items_weight(vector_items(b)->0.len() + 1) <= MAX_BUFFER
}

/// Whether a builder with a table open went from one state to the next by one
/// push into it.
pub open spec fn fills(
    before: Builder,
    after: Builder,
    item: Item,
) -> bool {
    &&& objects(after) == objects(before)
    &&& vector_items(after) is None
    &&& table_items(before) is Some
    &&& table_items(after) == Some(table_items(before)->0.push(item))
}

/// Whether a builder has a table open and can take one more push into it.
pub open spec fn can_fill(b: Builder) -> bool {
    &&& vector_items(b) is None
    &&& table_items(b) is Some
    &&& size_of(objects(b)) + items_weight(table_items(b)->0.len() + 1) <= MAX_BUFFER
}

/// The highest vtable position a field may have.
pub const MAX_SLOT: u16 = 60;

/// The most pushes a table may hold: its inline size is a 16-bit number.
pub const MAX_FIELDS: usize = 1_000;

/// Whether every object of a buffer lies beyond all that was written before it.
pub open spec fn placed(log: Seq<Object>) -> bool
    decreases log.len(),
{
    if log.len() == 0 {
        size_of(log) == 0
    } else {
        placed(log.drop_last()) && size_of(log.drop_last()) < offset_of(log) <= size_of(log)
    }
}

/// Whether a builder with nothing open went from one state to the next by
/// writing the rest of `log`, within a weight.
pub open spec fn grew(before: Builder, after: Builder, log: Seq<Object>, weight: nat) -> bool {
    &&& objects(after) == log
    &&& idle(after)
    &&& size_of(objects(before)) <= size_of(log) <= size_of(objects(before)) + weight
    &&& placed(objects(before)) ==> placed(log)
}

/// Whether offsets lie within the bytes in use.
pub open spec fn within(refs: Seq<u32>, log: Seq<Object>) -> bool {
    forall|i: int| 0 <= i < refs.len() ==> #[trigger] refs[i] <= size_of(log)
}

/// One object written is growth by its weight.
pub proof fn lemma_adds(before: Builder, after: Builder, o: Object, at: u32)
    requires
        adds(before, after, o, at),
        at == offset_of(objects(after)),
    ensures
        grew(before, after, objects(before).push(o), object_weight(o)),
        at <= size_of(objects(after)),
{
    assert(objects(after).drop_last() =~= objects(before));
}

/// No two objects of a buffer share an offset, and later ones lie further out.
pub proof fn an_offset_names_one_object(log: Seq<Object>, i: int, j: int)
    requires
        placed(log),
        0 < i < j <= log.len(),
    ensures
        offset_of(log.take(i)) <= size_of(log.take(i)) < offset_of(log.take(j)),
    decreases log.len(),
{
    if j < log.len() {
        an_offset_names_one_object(log.drop_last(), i, j);
        assert(log.drop_last().take(i) =~= log.take(i));
        assert(log.drop_last().take(j) =~= log.take(j));
    } else {
        assert(log.take(j) =~= log);
        lemma_sizes_grow(log.drop_last(), i);
        assert(log.drop_last().take(i) =~= log.take(i));
    }
}

proof fn lemma_sizes_grow(log: Seq<Object>, i: int)
    requires
        placed(log),
        0 < i <= log.len(),
    ensures
        offset_of(log.take(i)) <= size_of(log.take(i)) <= size_of(log),
    decreases log.len(),
{
    if i < log.len() {
        lemma_sizes_grow(log.drop_last(), i);
        assert(log.drop_last().take(i) =~= log.take(i));
    } else {
        assert(log.take(i) =~= log);
    }
}

/// `flatbuffers::FlatBufferBuilder::new`: an empty builder.
#[verifier::external_body]
pub(crate) fn new_builder() -> (b: Builder)
    ensures
        objects(b) == Seq::<Object>::empty(),
        idle(b),
        size_of(objects(b)) == 0,
{
    Builder { inner: flatbuffers::FlatBufferBuilder::new() }
}

/// `flatbuffers::FlatBufferBuilder::create_string`: writes a string and gives
/// its offset.
#[verifier::external_body]
pub(crate) fn add_text(b: &mut Builder, s: &str) -> (at: u32)
    requires
        has_room(*old(b), object_weight(Object::Text(s@))),
    ensures
        adds(*old(b), *final(b), Object::Text(s@), at),
        at == offset_of(objects(*final(b))),
{
    b.inner.create_string(s).value()
}

/// `flatbuffers::FlatBufferBuilder::create_vector` over bytes.
#[verifier::external_body]
pub(crate) fn add_bytes(b: &mut Builder, v: &Vec<u8>) -> (at: u32)
    requires
        has_room(*old(b), object_weight(Object::Bytes(v@))),
    ensures
        adds(*old(b), *final(b), Object::Bytes(v@), at),
        at == offset_of(objects(*final(b))),
{
    b.inner.create_vector(v.as_slice()).value()
}

/// `flatbuffers::FlatBufferBuilder::create_vector` over signed bytes.
#[verifier::external_body]
pub(crate) fn add_signed_bytes(b: &mut Builder, v: &Vec<i8>) -> (at:
    u32)
    requires
        has_room(*old(b), object_weight(Object::SignedBytes(v@))),
    ensures
        adds(*old(b), *final(b), Object::SignedBytes(v@), at),
        at == offset_of(objects(*final(b))),
{
    b.inner.create_vector(v.as_slice()).value()
}

/// `flatbuffers::FlatBufferBuilder::create_vector` over 16-bit numbers.
#[verifier::external_body]
pub(crate) fn add_shorts(b: &mut Builder, v: &Vec<u16>) -> (at: u32)
    requires
        has_room(*old(b), object_weight(Object::Shorts(v@))),
    ensures
        adds(*old(b), *final(b), Object::Shorts(v@), at),
        at == offset_of(objects(*final(b))),
{
    b.inner.create_vector(v.as_slice()).value()
}

/// `flatbuffers::FlatBufferBuilder::create_vector` over signed 32-bit numbers.
#[verifier::external_body]
pub(crate) fn add_ints(b: &mut Builder, v: &Vec<i32>) -> (at: u32)
    requires
        has_room(*old(b), object_weight(Object::Ints(v@))),
    ensures
        adds(*old(b), *final(b), Object::Ints(v@), at),
        at == offset_of(objects(*final(b))),
{
    b.inner.create_vector(v.as_slice()).value()
}

/// `flatbuffers::FlatBufferBuilder::create_vector` over 32-bit numbers.
#[verifier::external_body]
pub(crate) fn add_words(b: &mut Builder, v: &Vec<u32>) -> (at: u32)
    requires
        has_room(*old(b), object_weight(Object::Words(v@))),
    ensures
        adds(*old(b), *final(b), Object::Words(v@), at),
        at == offset_of(objects(*final(b))),
{
    b.inner.create_vector(v.as_slice()).value()
}

/// `flatbuffers::FlatBufferBuilder::create_vector` over the offsets of objects
/// written before. An offset past the bytes in use would underflow.
#[verifier::external_body]
pub(crate) fn add_refs(b: &mut Builder, v: &Vec<u32>) -> (at: u32)
    requires
        has_room(*old(b), object_weight(Object::Refs(v@))),
        forall|i: int| 0 <= i < v.len() ==> #[trigger] v[i] <= size_of(objects(*old(b))),
    ensures
        adds(*old(b), *final(b), Object::Refs(v@), at),
        at == offset_of(objects(*final(b))),
{
    let offsets: Vec<flatbuffers::WIPOffset<flatbuffers::UnionWIPOffset>> = v.iter().map(
        |o| flatbuffers::WIPOffset::new(*o),
    ).collect();
    b.inner.create_vector(&offsets).value()
}

/// `flatbuffers::FlatBufferBuilder::start_vector` for `n` 32-bit pushes.
#[verifier::external_body]
pub(crate) fn open_vector(b: &mut Builder, n: usize)
    requires
        has_room(*old(b), items_weight(n as nat)),
    ensures
        objects(*final(b)) == objects(*old(b)),
        table_items(*final(b)) is None,
        vector_items(*final(b)) == Some(Seq::<Item>::empty()),
{
    b.inner.start_vector::<u32>(n)
}

/// `flatbuffers::FlatBufferBuilder::push` of a 32-bit number into a vector.
#[verifier::external_body]
pub(crate) fn push_word(b: &mut Builder, x: u32)
    requires
        can_push(*old(b)),
    ensures
        pushes(*old(b), *final(b), (Item { slot: None, value: Field::Word(x) })),
{
    b.inner.push(x);
}

/// `flatbuffers::FlatBufferBuilder::end_vector`: closes a vector and gives its
/// offset. The number given is the one stored as the vector's length.
#[verifier::external_body]
pub(crate) fn close_vector(b: &mut Builder, len: u32) -> (at: u32)
    requires
        can_push(*old(b)),
    ensures
        vector_items(*old(b)) matches Some(items) && adds(
            *old(b),
            *final(b),
            (Object::Pushed { len, items }),
            at,
        ),
        at == offset_of(objects(*final(b))),
{
    b.inner.end_vector::<u32>(len as usize).value()
}

/// `flatbuffers::FlatBufferBuilder::start_table`: opens a table and gives the
/// bytes in use before it.
#[verifier::external_body]
pub(crate) fn open_table(b: &mut Builder) -> (start: u32)
    requires
        has_room(*old(b), items_weight(0)),
    ensures
        objects(*final(b)) == objects(*old(b)),
        vector_items(*final(b)) is None,
        table_items(*final(b)) == Some(Seq::<Item>::empty()),
        start as nat == size_of(objects(*old(b))),
{
    b.inner.start_table().value()
}

/// `flatbuffers::FlatBufferBuilder::push_slot` of a byte, whose default is 0.
#[verifier::external_body]
pub(crate) fn push_byte(b: &mut Builder, slot: u16, x: u8)
    requires
        can_fill(*old(b)),
        4 <= slot <= MAX_SLOT,
    ensures
        x == 0 ==> *final(b) == *old(b),
        x != 0 ==> fills(*old(b), *final(b), (Item { slot: Some(slot), value: Field::Byte(x) })),
{
    b.inner.push_slot::<u8>(slot, x, 0)
}

/// `flatbuffers::FlatBufferBuilder::push_slot` of a flag, whose default is false.
#[verifier::external_body]
pub(crate) fn push_flag(b: &mut Builder, slot: u16, x: bool)
    requires
        can_fill(*old(b)),
        4 <= slot <= MAX_SLOT,
    ensures
        !x ==> *final(b) == *old(b),
        x ==> fills(*old(b), *final(b), (Item { slot: Some(slot), value: Field::Flag(x) })),
{
    b.inner.push_slot::<bool>(slot, x, false)
}

/// `flatbuffers::FlatBufferBuilder::push_slot` of a 32-bit number, whose
/// default is 0.
#[verifier::external_body]
pub(crate) fn push_word_field(b: &mut Builder, slot: u16, x: u32)
    requires
        can_fill(*old(b)),
        4 <= slot <= MAX_SLOT,
    ensures
        x == 0 ==> *final(b) == *old(b),
        x != 0 ==> fills(*old(b), *final(b), (Item { slot: Some(slot), value: Field::Word(x) })),
{
    b.inner.push_slot::<u32>(slot, x, 0)
}

/// `flatbuffers::FlatBufferBuilder::push_slot` of a 64-bit number, whose
/// default is 0.
#[verifier::external_body]
pub(crate) fn push_long(b: &mut Builder, slot: u16, x: u64)
    requires
        can_fill(*old(b)),
        4 <= slot <= MAX_SLOT,
    ensures
        x == 0 ==> *final(b) == *old(b),
        x != 0 ==> fills(*old(b), *final(b), (Item { slot: Some(slot), value: Field::Long(x) })),
{
    b.inner.push_slot::<u64>(slot, x, 0)
}

/// `flatbuffers::FlatBufferBuilder::push_slot` of a signed 64-bit number, whose
/// default is 0.
#[verifier::external_body]
pub(crate) fn push_signed(b: &mut Builder, slot: u16, x: i64)
    requires
        can_fill(*old(b)),
        4 <= slot <= MAX_SLOT,
    ensures
        x == 0 ==> *final(b) == *old(b),
        x != 0 ==> fills(*old(b), *final(b), (Item { slot: Some(slot), value: Field::Signed(x) })),
{
    b.inner.push_slot::<i64>(slot, x, 0)
}

/// `flatbuffers::FlatBufferBuilder::push_slot_always` of 64 bits.
#[verifier::external_body]
pub(crate) fn push_bits(b: &mut Builder, slot: u16, x: u64)
    requires
        can_fill(*old(b)),
        4 <= slot <= MAX_SLOT,
    ensures
        fills(*old(b), *final(b), (Item { slot: Some(slot), value: Field::Long(x) })),
{
    b.inner.push_slot_always::<u64>(slot, x)
}

/// `flatbuffers::FlatBufferBuilder::push` of 64 bits into a table, where they
/// fill no field of their own.
#[verifier::external_body]
pub(crate) fn push_inner_bits(b: &mut Builder, x: u64)
    requires
        can_fill(*old(b)),
    ensures
        fills(*old(b), *final(b), (Item { slot: None, value: Field::Long(x) })),
{
    b.inner.push::<u64>(x);
}

/// `flatbuffers::FlatBufferBuilder::push_slot_always` of the offset of an
/// object written before. An offset past the bytes in use would underflow.
#[verifier::external_body]
pub(crate) fn push_ref(b: &mut Builder, slot: u16, at: u32)
    requires
        can_fill(*old(b)),
        4 <= slot <= MAX_SLOT,
        at <= size_of(objects(*old(b))),
    ensures
        fills(*old(b), *final(b), (Item { slot: Some(slot), value: Field::Ref(at) })),
{
    b.inner.push_slot_always(slot, flatbuffers::WIPOffset::<flatbuffers::UnionWIPOffset>::new(at))
}

/// `flatbuffers::FlatBufferBuilder::end_table`: closes a table and gives its
/// offset.
#[verifier::external_body]
pub(crate) fn close_table(b: &mut Builder, start: u32) -> (at: u32)
    requires
        can_fill(*old(b)),
        table_items(*old(b))->0.len() <= MAX_FIELDS,
        start as nat == size_of(objects(*old(b))),
    ensures
        table_items(*old(b)) matches Some(items) && adds(
            *old(b),
            *final(b),
            Object::Table(items),
            at,
        ),
        at == offset_of(objects(*final(b))),
{
    b.inner.end_table(flatbuffers::WIPOffset::new(start)).value()
}

/// `flatbuffers::FlatBufferBuilder::finish` and `finished_data`: the bytes of
/// the buffer, with the file identifier in bytes 4 to 8.
#[verifier::external_body]
pub(crate) fn finish(
    b: Builder,
    root: u32,
    identifier: &str,
) -> (out: Vec<u8>)
    requires
        has_room(b, 32),
        objects(b).len() > 0,
        root <= size_of(objects(b)),
        identifier@.len() == 4,
        forall|i: int| 0 <= i < 4 ==> (#[trigger] identifier@[i] as int) < 128,
    ensures
        out@ == buffer(objects(b), root, identifier@),
        out.len() >= 8,
        forall|i: int| 0 <= i < 4 ==> out[4 + i] as int == #[trigger] identifier@[i] as int,
{
    let mut inner = b.inner;
    inner.finish(flatbuffers::WIPOffset::<flatbuffers::UnionWIPOffset>::new(root), Some(identifier));
    inner.finished_data().to_vec()
}

/// `brotli::BrotliCompress` at one quality, every other parameter at its
/// default: `brotli::BrotliDecompress` accepts the stream and gives the data
/// back, and is a function of data and
/// quality alone. The encoder weighs its choices in floating point; with the
/// crate's `portable-float` feature, which this crate asks for, it does so from
/// tables and emits the same bytes on every target.
#[verifier::external_body]
pub(crate) fn compress_at(data: &Vec<u8>, quality: i32) -> (out: Vec<u8>)
    requires
        0 <= quality <= 11,
    ensures
        out@ == compressed(data@, quality),
        decompressed(out@) == Some(data@),
{
    let mut params = brotli::enc::BrotliEncoderParams::default();
    params.quality = quality;
    let mut out = Vec::new();
    let mut input = data.as_slice();
    brotli::BrotliCompress(&mut input, &mut out, &params).expect("writing to memory");
    out
}

/// `brotli::BrotliDecompress` of a stream held in memory: nothing when it
/// refuses the stream, else every byte it writes. Both are functions of the
/// stream alone. Which bytes a stream stands for is left unsaid, besides what
/// [`compress_at`] says.
#[verifier::external_body]
pub(crate) fn decompress_all(stream: &Vec<u8>) -> (out: Option<Vec<u8>>)
    ensures
        match out {
            Some(data) => decompressed(stream@) == Some(data@),
            None => decompressed(stream@) is None,
        },
{
    let mut data = Vec::new();
    let mut input = stream.as_slice();
    match brotli::BrotliDecompress(&mut input, &mut data) {
        Ok(()) => Some(data),
        Err(_) => None,
    }
}

} // verus!
