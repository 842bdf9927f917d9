//! The wire form of a property value, as a function from values to bytes.
//!
//! The layout is that of a D-Bus variant in little-endian byte order: a
//! signature that names the type, then the value itself, padded with zero
//! bytes to the alignment of its type. Alignment counts from the start of
//! the message, so the bytes of a value depend on the offset at which it is
//! written. Of the container types only two occur: an array is an array of
//! variants (`av`) and a struct is a struct of variants (`(v...v)`), so each
//! item carries its own signature. A string may hold any text: its length
//! is written before it, so a zero character in it does no harm here.

use crate::systemd::dbus_native::variant::Value;
use vstd::prelude::*;
use vstd::utf8::encode_utf8;

verus! {

/// How deeply arrays and structs may be nested in one another.
pub const MAX_NESTING: usize = 64;

/// The largest number of bytes that the items of one array may take.
pub const MAX_ARRAY_BYTES: usize = 67_108_864;

/// The largest number of fields of a struct: its signature, with the two
/// brackets, must fit the one byte that holds its length.
pub const MAX_FIELDS: usize = 253;

/// The signature byte of an unsigned 32-bit integer, `u`.
pub const SIGN_U32: u8 = 0x75;

/// The signature byte of an unsigned 64-bit integer, `t`.
pub const SIGN_U64: u8 = 0x74;

/// The signature byte of a signed 32-bit integer, `i`.
pub const SIGN_I32: u8 = 0x69;

/// The signature byte of a signed 64-bit integer, `x`.
pub const SIGN_I64: u8 = 0x78;

/// The signature byte of a boolean, `b`.
pub const SIGN_BOOL: u8 = 0x62;

/// The signature byte of a string, `s`.
pub const SIGN_STRING: u8 = 0x73;

/// The signature byte that opens an array, `a`.
pub const SIGN_ARRAY: u8 = 0x61;

/// The signature byte of a variant, `v`.
pub const SIGN_VARIANT: u8 = 0x76;

/// The signature byte that opens a struct, `(`.
pub const SIGN_OPEN: u8 = 0x28;

/// The signature byte that closes a struct, `)`.
pub const SIGN_CLOSE: u8 = 0x29;

/// The type of a value. Arrays hold variants and structs are made of
/// variants, so a struct's type is its number of fields.
#[derive(Debug, Clone, Copy, PartialEq, Eq)]
pub enum Kind {
    U32,
    U64,
    I32,
    I64,
    Bool,
    String,
    Array,
    Struct(usize),
}

impl Kind {
    /// The signature that names this type.
    pub open spec fn signature(self) -> Seq<u8> {
        match self {
            Kind::U32 => seq![SIGN_U32],
            Kind::U64 => seq![SIGN_U64],
            Kind::I32 => seq![SIGN_I32],
            Kind::I64 => seq![SIGN_I64],
            Kind::Bool => seq![SIGN_BOOL],
            Kind::String => seq![SIGN_STRING],
            Kind::Array => seq![SIGN_ARRAY, SIGN_VARIANT],
            Kind::Struct(fields) => seq![SIGN_OPEN] + Seq::new(fields as nat, |i: int| SIGN_VARIANT)
                + seq![SIGN_CLOSE],
        }
    }

    /// The multiple of bytes at which a value of this type begins.
    pub open spec fn alignment(self) -> int {
        match self {
            Kind::U64 | Kind::I64 | Kind::Struct(_) => 8,
            _ => 4,
        }
    }

    /// What a variant of this type begins with: the length of the signature
    /// in one byte, the signature, and a zero byte.
    pub open spec fn header(self) -> Seq<u8> {
        seq![self.signature().len() as u8] + self.signature() + seq![0u8]
    }

    /// Where the value of a variant of this type begins when the variant
    /// begins at `at`: at the first multiple of the alignment after the
    /// header.
    pub open spec fn body_start(self, at: int) -> int {
        let after = at + self.header().len();
        after + padding(after, self.alignment())
    }

    /// Whether a value can have this type: a struct has at least one field
    /// and at most [`MAX_FIELDS`].
    pub open spec fn valid(self) -> bool {
        self matches Kind::Struct(fields) ==> 1 <= fields <= MAX_FIELDS
    }
}

impl Value {
    /// The type of this value.
    pub open spec fn kind(self) -> Kind {
        match self {
            Value::U32(_) => Kind::U32,
            Value::U64(_) => Kind::U64,
            Value::I32(_) => Kind::I32,
            Value::I64(_) => Kind::I64,
            Value::Bool(_) => Kind::Bool,
            Value::String(_) => Kind::String,
            Value::Array(_) => Kind::Array,
            Value::Struct(fields) => Kind::Struct(fields.len() as usize),
        }
    }
}

/// The number of bytes from `at` to the next multiple of `alignment`.
pub open spec fn padding(at: int, alignment: int) -> int {
    (alignment - at % alignment) % alignment
}

/// `count` zero bytes.
pub open spec fn zeros(count: int) -> Seq<u8> {
    Seq::new(count as nat, |i: int| 0u8)
}

/// The four bytes of an unsigned 32-bit integer, lowest first.
pub open spec fn u32_bytes(x: u32) -> Seq<u8> {
    seq![
        (x % 256) as u8,
        (x / 256 % 256) as u8,
        (x / 256 / 256 % 256) as u8,
        (x / 256 / 256 / 256 % 256) as u8,
    ]
}

/// The unsigned 32-bit integer that four bytes stand for, lowest first.
pub open spec fn u32_value(bytes: Seq<u8>) -> u32 {
    (bytes[0] + 256 * (bytes[1] + 256 * (bytes[2] + 256 * bytes[3]))) as u32
}

/// The eight bytes of an unsigned 64-bit integer, lowest first.
pub open spec fn u64_bytes(x: u64) -> Seq<u8> {
    u32_bytes((x % 0x1_0000_0000) as u32) + u32_bytes((x / 0x1_0000_0000) as u32)
}

/// The unsigned 64-bit integer that eight bytes stand for, lowest first.
pub open spec fn u64_value(bytes: Seq<u8>) -> u64 {
    (u32_value(bytes.subrange(0, 4)) + 0x1_0000_0000 * u32_value(bytes.subrange(4, 8))) as u64
}

/// A signed 32-bit integer in two's complement.
pub open spec fn i32_bits(x: i32) -> u32 {
    if x >= 0 {
        x as u32
    } else {
        (x + 0x1_0000_0000) as u32
    }
}

/// The signed 32-bit integer that `bits` are the two's complement of.
pub open spec fn i32_value(bits: u32) -> i32 {
    if bits < 0x8000_0000 {
        bits as i32
    } else {
        (bits - 0x1_0000_0000) as i32
    }
}

/// A signed 64-bit integer in two's complement.
pub open spec fn i64_bits(x: i64) -> u64 {
    if x >= 0 {
        x as u64
    } else {
        (x + 0x1_0000_0000_0000_0000) as u64
    }
}

/// The signed 64-bit integer that `bits` are the two's complement of.
pub open spec fn i64_value(bits: u64) -> i64 {
    if bits < 0x8000_0000_0000_0000 {
        bits as i64
    } else {
        (bits - 0x1_0000_0000_0000_0000) as i64
    }
}

/// The bytes of `value` as a variant that begins at offset `at`.
pub open spec fn wire(value: Value, at: int) -> Seq<u8>
    decreases value, 1nat,
{
    let kind = value.kind();
    let body_at = kind.body_start(at);
    kind.header() + zeros(body_at - at - kind.header().len()) + body(value, body_at)
}

/// The bytes of `value` without signature and padding, where they begin at
/// offset `at`. A string is its length in bytes, its UTF-8 bytes and a zero
/// byte. An array is the length in bytes of its items, then the items as
/// variants. A struct is its fields as variants.
pub open spec fn body(value: Value, at: int) -> Seq<u8>
    decreases value, 0nat,
{
    match value {
        Value::U32(x) => u32_bytes(x),
        Value::U64(x) => u64_bytes(x),
        Value::I32(x) => u32_bytes(i32_bits(x)),
        Value::I64(x) => u64_bytes(i64_bits(x)),
        Value::Bool(b) => u32_bytes(
            if b {
                1u32
            } else {
                0u32
            },
        ),
        Value::String(s) => u32_bytes(encode_utf8(s).len() as u32) + encode_utf8(s) + seq![0u8],
        Value::Array(items) => u32_bytes(wire_all(items, at + 4).len() as u32) + wire_all(
            items,
            at + 4,
        ),
        Value::Struct(fields) => wire_all(fields, at),
    }
}

/// The bytes of `items`, one variant after the other, where the first
/// begins at offset `at`.
pub open spec fn wire_all(items: Seq<Value>, at: int) -> Seq<u8>
    decreases items, 0nat,
{
    if items.len() == 0 {
        Seq::empty()
    } else {
        let front = wire_all(items.drop_last(), at);
        front + wire(items.last(), at + front.len())
    }
}

/// Whether `value` has a wire form at offset `at` with at most `depth`
/// levels of arrays and structs: its strings and arrays are short enough
/// for their length fields, its structs have a valid number of fields.
pub open spec fn encodable(value: Value, at: int, depth: nat) -> bool
    decreases value, 0nat,
{
    match value {
        Value::String(s) => encode_utf8(s).len() <= u32::MAX,
        Value::Array(items) => {
            let items_at = Kind::Array.body_start(at) + 4;
            &&& depth > 0
            &&& all_encodable(items, items_at, (depth - 1) as nat)
            &&& wire_all(items, items_at).len() <= MAX_ARRAY_BYTES
        },
        Value::Struct(fields) => {
            &&& depth > 0
            &&& 1 <= fields.len() <= MAX_FIELDS
            &&& all_encodable(fields, value.kind().body_start(at), (depth - 1) as nat)
        },
        _ => true,
    }
}

/// Whether each of `items` has a wire form at the offset at which it comes
/// to stand when the first begins at `at`.
pub open spec fn all_encodable(items: Seq<Value>, at: int, depth: nat) -> bool
    decreases items, 0nat,
{
    items.len() == 0 || {
        let front = items.drop_last();
        &&& all_encodable(front, at, depth)
        &&& encodable(items.last(), at + wire_all(front, at).len(), depth)
    }
}

/// Whether `part` stands in `bytes` at offset `at`.
pub open spec fn holds_at(bytes: Seq<u8>, at: int, part: Seq<u8>) -> bool {
    &&& 0 <= at
    &&& at + part.len() <= bytes.len()
    &&& bytes.subrange(at, at + part.len()) == part
}

/// A number is determined by its last digit and the digits before it.
proof fn lemma_digits(low: int, high: int, base: int)
    requires
        0 <= low < base,
    ensures
        (low + base * high) % base == low,
        (low + base * high) / base == high,
{
    assert(low + base * high == high * base + low) by (nonlinear_arith);
    vstd::arithmetic::div_mod::lemma_fundamental_div_mod_converse(
        low + base * high,
        base,
        high,
        low,
    );
}

/// Four bytes and the integer they stand for determine each other.
pub proof fn lemma_u32_bytes(x: u32)
    ensures
        u32_bytes(x).len() == 4,
        u32_value(u32_bytes(x)) == x,
{
    let a = x as int;
    let b = a / 256;
    let c = b / 256;
    let d = c / 256;
    assert(a == a % 256 + 256 * b);
    assert(b == b % 256 + 256 * c);
    assert(c == c % 256 + 256 * d);
    assert(d == d % 256);
}

/// Every four bytes are the bytes of the integer they stand for.
pub proof fn lemma_u32_value(bytes: Seq<u8>)
    requires
        bytes.len() == 4,
    ensures
        u32_bytes(u32_value(bytes)) == bytes,
{
    let d = bytes[3] as int;
    let c = bytes[2] + 256 * d;
    let b = bytes[1] + 256 * c;
    let a = bytes[0] + 256 * b;
    lemma_digits(bytes[0] as int, b, 256);
    lemma_digits(bytes[1] as int, c, 256);
    lemma_digits(bytes[2] as int, d, 256);
    assert(u32_value(bytes) == a);
    assert(u32_bytes(u32_value(bytes)) =~= bytes);
}

/// Eight bytes and the integer they stand for determine each other.
pub proof fn lemma_u64_bytes(x: u64)
    ensures
        u64_bytes(x).len() == 8,
        u64_value(u64_bytes(x)) == x,
{
    let low = (x % 0x1_0000_0000) as u32;
    let high = (x / 0x1_0000_0000) as u32;
    lemma_u32_bytes(low);
    lemma_u32_bytes(high);
    assert(u64_bytes(x).subrange(0, 4) =~= u32_bytes(low));
    assert(u64_bytes(x).subrange(4, 8) =~= u32_bytes(high));
}

/// Every eight bytes are the bytes of the integer they stand for.
pub proof fn lemma_u64_value(bytes: Seq<u8>)
    requires
        bytes.len() == 8,
    ensures
        u64_bytes(u64_value(bytes)) == bytes,
{
    let low = bytes.subrange(0, 4);
    let high = bytes.subrange(4, 8);
    lemma_u32_value(low);
    lemma_u32_value(high);
    lemma_digits(u32_value(low) as int, u32_value(high) as int, 0x1_0000_0000);
    assert(u64_value(bytes) == u32_value(low) + 0x1_0000_0000 * u32_value(high));
    assert(u64_bytes(u64_value(bytes)) =~= bytes);
}

/// A signed integer and its two's complement determine each other.
pub proof fn lemma_two_complement(x32: i32, bits32: u32, x64: i64, bits64: u64)
    ensures
        i32_value(i32_bits(x32)) == x32,
        i32_bits(i32_value(bits32)) == bits32,
        i64_value(i64_bits(x64)) == x64,
        i64_bits(i64_value(bits64)) == bits64,
{
}

/// The wire form of a value after other bytes: what came before, the header,
/// the padding and the body, in this order.
pub proof fn lemma_wire_after(before: Seq<u8>, value: Value, at: int)
    ensures
        before + wire(value, at) == before + value.kind().header() + zeros(
            value.kind().body_start(at) - at - value.kind().header().len(),
        ) + body(value, value.kind().body_start(at)),
{
    let kind = value.kind();
    let gap = zeros(kind.body_start(at) - at - kind.header().len());
    let rest = body(value, kind.body_start(at));
    assert(before + (kind.header() + gap + rest) =~= before + kind.header() + gap + rest);
}

/// Appending an item appends its wire form, written where the others end.
pub proof fn lemma_wire_all_push(items: Seq<Value>, item: Value, at: int, depth: nat)
    ensures
        wire_all(items.push(item), at) == wire_all(items, at) + wire(
            item,
            at + wire_all(items, at).len(),
        ),
        all_encodable(items.push(item), at, depth) == (all_encodable(items, at, depth)
            && encodable(item, at + wire_all(items, at).len(), depth)),
{
    assert(items.push(item).drop_last() =~= items);
}

/// What holds of a list of items holds of each of its beginnings: it has a
/// wire form, and that wire form is the beginning of the whole.
pub proof fn lemma_wire_all_take(items: Seq<Value>, count: int, at: int, depth: nat)
    requires
        0 <= count <= items.len(),
    ensures
        all_encodable(items, at, depth) ==> all_encodable(items.take(count), at, depth),
        wire_all(items.take(count), at).len() <= wire_all(items, at).len(),
        wire_all(items, at).subrange(0, wire_all(items.take(count), at).len() as int) == wire_all(
            items.take(count),
            at,
        ),
    decreases items.len(),
{
    if count == items.len() {
        assert(items.take(count) =~= items);
        assert(wire_all(items, at).subrange(0, wire_all(items, at).len() as int) =~= wire_all(
            items,
            at,
        ));
    } else {
        let front = items.drop_last();
        lemma_wire_all_take(front, count, at, depth);
        assert(front.take(count) =~= items.take(count));
        let part = wire_all(items.take(count), at);
        assert(wire_all(items, at).subrange(0, part.len() as int) =~= wire_all(front, at).subrange(
            0,
            part.len() as int,
        ));
    }
}

} // verus!
