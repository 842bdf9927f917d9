//! Writing a value: the header of its type, padding, and its body.

use crate::systemd::dbus_native::serialize::WireError;
use crate::systemd::dbus_native::variant::{views_of, Value, Variant};
use crate::systemd::dbus_native::wire::{
    all_encodable, body, encodable, i32_bits, i64_bits, lemma_wire_after, lemma_wire_all_push,
    lemma_wire_all_take, padding, u32_bytes, u64_bytes, wire, wire_all, zeros, Kind,
    MAX_ARRAY_BYTES, MAX_FIELDS, SIGN_ARRAY, SIGN_BOOL, SIGN_CLOSE, SIGN_I32, SIGN_I64,
    SIGN_OPEN, SIGN_STRING, SIGN_U32, SIGN_U64, SIGN_VARIANT,
};
use vstd::prelude::*;

verus! {

/// Appends the four bytes of `x`.
fn push_u32(buf: &mut Vec<u8>, x: u32)
    ensures
        final(buf)@ == old(buf)@ + u32_bytes(x),
{
    buf.push((x % 256) as u8);
    buf.push((x / 256 % 256) as u8);
    buf.push((x / 256 / 256 % 256) as u8);
    buf.push((x / 256 / 256 / 256 % 256) as u8);
    assert(buf@ =~= old(buf)@ + u32_bytes(x));
}

/// Appends the eight bytes of `x`.
fn push_u64(buf: &mut Vec<u8>, x: u64)
    ensures
        final(buf)@ == old(buf)@ + u64_bytes(x),
{
    push_u32(buf, (x % 0x1_0000_0000) as u32);
    push_u32(buf, (x / 0x1_0000_0000) as u32);
    assert(buf@ =~= old(buf)@ + u64_bytes(x));
}

/// The two's complement of `x`.
fn bits_of_i32(x: i32) -> (bits: u32)
    ensures
        bits == i32_bits(x),
{
    if x >= 0 {
        x as u32
    } else {
        (x - i32::MIN) as u32 + 0x8000_0000u32
    }
}

/// The two's complement of `x`.
fn bits_of_i64(x: i64) -> (bits: u64)
    ensures
        bits == i64_bits(x),
{
    if x >= 0 {
        x as u64
    } else {
        (x - i64::MIN) as u64 + 0x8000_0000_0000_0000u64
    }
}

/// Appends `bytes`.
fn append(buf: &mut Vec<u8>, bytes: &[u8])
    ensures
        final(buf)@ == old(buf)@ + bytes@,
{
    let mut i: usize = 0;
    while i < bytes.len()
        invariant
            i <= bytes.len(),
            buf@ == old(buf)@ + bytes@.take(i as int),
        decreases bytes.len() - i,
    {
        buf.push(bytes[i]);
        i += 1;
        assert(buf@ =~= old(buf)@ + bytes@.take(i as int));
    }
    assert(bytes@.take(i as int) =~= bytes@);
}

/// Appends zero bytes up to the next multiple of `alignment`.
fn pad(buf: &mut Vec<u8>, alignment: usize)
    requires
        alignment == 4 || alignment == 8,
    ensures
        final(buf)@ == old(buf)@ + zeros(padding(old(buf)@.len() as int, alignment as int)),
{
    let ghost at = buf@.len() as int;
    let beyond = buf.len() % alignment;
    let count: usize = if beyond == 0 {
        0
    } else {
        alignment - beyond
    };
    assert(count == padding(at, alignment as int)) by {
        if alignment == 4 {
            assert(count == padding(at, 4));
        } else {
            assert(count == padding(at, 8));
        }
    }
    let mut i: usize = 0;
    while i < count
        invariant
            i <= count,
            buf@ == old(buf)@ + zeros(i as int),
        decreases count - i,
    {
        buf.push(0u8);
        i += 1;
        assert(buf@ =~= old(buf)@ + zeros(i as int));
    }
}

/// Appends the header of a variant of type `kind` and the padding before
/// its value.
fn push_header(buf: &mut Vec<u8>, kind: Kind)
    requires
        kind.valid(),
    ensures
        final(buf)@ == old(buf)@ + kind.header() + zeros(
            kind.body_start(old(buf)@.len() as int) - old(buf)@.len() - kind.header().len(),
        ),
        final(buf)@.len() == kind.body_start(old(buf)@.len() as int),
{
    let ghost at = buf@.len() as int;
    match kind {
        Kind::U32 => {
            buf.push(1u8);
            buf.push(SIGN_U32);
        },
        Kind::U64 => {
            buf.push(1u8);
            buf.push(SIGN_U64);
        },
        Kind::I32 => {
            buf.push(1u8);
            buf.push(SIGN_I32);
        },
        Kind::I64 => {
            buf.push(1u8);
            buf.push(SIGN_I64);
        },
        Kind::Bool => {
            buf.push(1u8);
            buf.push(SIGN_BOOL);
        },
        Kind::String => {
            buf.push(1u8);
            buf.push(SIGN_STRING);
        },
        Kind::Array => {
            buf.push(2u8);
            buf.push(SIGN_ARRAY);
            buf.push(SIGN_VARIANT);
        },
        Kind::Struct(fields) => {
            buf.push((fields + 2) as u8);
            buf.push(SIGN_OPEN);
            let mut i: usize = 0;
            while i < fields
                invariant
                    i <= fields,
                    buf@ == old(buf)@ + seq![(fields + 2) as u8, SIGN_OPEN] + Seq::new(
                        i as nat,
                        |k: int| SIGN_VARIANT,
                    ),
                decreases fields - i,
            {
                buf.push(SIGN_VARIANT);
                i += 1;
                assert(buf@ =~= old(buf)@ + seq![(fields + 2) as u8, SIGN_OPEN] + Seq::new(
                    i as nat,
                    |k: int| SIGN_VARIANT,
                ));
            }
            buf.push(SIGN_CLOSE);
        },
    }
    buf.push(0u8);
    assert(buf@ =~= old(buf)@ + kind.header());
    let alignment: usize = match kind {
        Kind::U64 | Kind::I64 | Kind::Struct(_) => 8,
        _ => 4,
    };
    pad(buf, alignment);
}

/// Overwrites the four bytes at `at` with the bytes of `x`.
fn patch_u32(buf: &mut Vec<u8>, at: usize, x: u32)
    requires
        at + 4 <= old(buf)@.len(),
    ensures
        final(buf)@ == old(buf)@.subrange(0, at as int) + u32_bytes(x) + old(buf)@.subrange(
            at + 4,
            old(buf)@.len() as int,
        ),
{
    assert(buf.len() <= usize::MAX);
    buf.set(at, (x % 256) as u8);
    buf.set(at + 1, (x / 256 % 256) as u8);
    buf.set(at + 2, (x / 256 / 256 % 256) as u8);
    buf.set(at + 3, (x / 256 / 256 / 256 % 256) as u8);
    assert(buf@ =~= old(buf)@.subrange(0, at as int) + u32_bytes(x) + old(buf)@.subrange(
        at + 4,
        old(buf)@.len() as int,
    ));
}

/// Whether `bytes` begin with `start`.
pub open spec fn begins_with(bytes: Seq<u8>, start: Seq<u8>) -> bool {
    start.len() <= bytes.len() && bytes.subrange(0, start.len() as int) == start
}

/// Appends the wire form of this value, where it has one with at most
/// `depth` levels of nesting. Where it has none, what `buf` held is
/// still its beginning.
pub(crate) fn write_value(value: &Variant, buf: &mut Vec<u8>, depth: usize) -> (result: Result<
    (),
    WireError,
>)
    ensures
        written(value@, depth, old(buf)@, final(buf)@, result),
    decreases depth, 1nat,
{
    match value {
        Variant::U32(x) => write_u32(buf, Kind::U32, *x, Ghost(value@)),
        Variant::U64(x) => write_u64(buf, Kind::U64, *x, Ghost(value@)),
        Variant::I32(x) => write_u32(buf, Kind::I32, bits_of_i32(*x), Ghost(value@)),
        Variant::I64(x) => write_u64(buf, Kind::I64, bits_of_i64(*x), Ghost(value@)),
        Variant::Bool(b) => {
            let bits: u32 = if *b {
                1
            } else {
                0
            };
            write_u32(buf, Kind::Bool, bits, Ghost(value@))
        },
        Variant::String(s) => write_string(buf, s),
        Variant::Array(items) => write_array(buf, items, depth),
        Variant::Struct(fields) => write_struct(buf, fields, depth),
    }
}

/// What writing `value` does to a buffer: where the value has a wire form
/// with at most `depth` levels of nesting, the wire form is appended; where
/// it has none, the outcome is an error and what the buffer held is still
/// its beginning.
pub open spec fn written(
    value: Value,
    depth: usize,
    before: Seq<u8>,
    after: Seq<u8>,
    result: Result<(), WireError>,
) -> bool {
    match result {
        Ok(()) => {
            &&& encodable(value, before.len() as int, depth as nat)
            &&& after == before + wire(value, before.len() as int)
        },
        Err(error) => {
            &&& error == WireError::Unencodable
            &&& !encodable(value, before.len() as int, depth as nat)
            &&& begins_with(after, before)
        },
    }
}

/// Writes a value of four bytes: `value` is of type `kind` and `bits` are
/// its bytes.
fn write_u32(buf: &mut Vec<u8>, kind: Kind, bits: u32, Ghost(value): Ghost<Value>) -> (result:
    Result<(), WireError>)
    requires
        value.kind() == kind,
        body(value, kind.body_start(old(buf)@.len() as int)) == u32_bytes(bits),
        encodable(value, old(buf)@.len() as int, 0),
    ensures
        result is Ok,
        final(buf)@ == old(buf)@ + wire(value, old(buf)@.len() as int),
{
    push_header(buf, kind);
    push_u32(buf, bits);
    proof {
        lemma_wire_after(old(buf)@, value, old(buf)@.len() as int);
    }
    Ok(())
}

/// Writes a value of eight bytes: `value` is of type `kind` and `bits` are
/// its bytes.
fn write_u64(buf: &mut Vec<u8>, kind: Kind, bits: u64, Ghost(value): Ghost<Value>) -> (result:
    Result<(), WireError>)
    requires
        value.kind() == kind,
        body(value, kind.body_start(old(buf)@.len() as int)) == u64_bytes(bits),
        encodable(value, old(buf)@.len() as int, 0),
    ensures
        result is Ok,
        final(buf)@ == old(buf)@ + wire(value, old(buf)@.len() as int),
{
    push_header(buf, kind);
    push_u64(buf, bits);
    proof {
        lemma_wire_after(old(buf)@, value, old(buf)@.len() as int);
    }
    Ok(())
}

/// Writes a string: the number of its UTF-8 bytes, the bytes, a zero byte.
fn write_string(buf: &mut Vec<u8>, s: &String) -> (result: Result<(), WireError>)
    ensures
        forall|depth: usize| written(Value::String(s@), depth, old(buf)@, final(buf)@, result),
{
    let ghost value = Value::String(s@);
    let ghost at = buf@.len() as int;
    let bytes = s.as_str().as_bytes();
    if bytes.len() > u32::MAX as usize {
        assert(buf@.subrange(0, buf@.len() as int) =~= buf@);
        return Err(WireError::Unencodable);
    }
    push_header(buf, Kind::String);
    let ghost head = buf@;
    push_u32(buf, bytes.len() as u32);
    append(buf, bytes);
    buf.push(0u8);
    proof {
        lemma_wire_after(old(buf)@, value, at);
        assert(buf@ =~= head + body(value, Kind::String.body_start(at)));
    }
    Ok(())
}

/// Writes an array: the number of bytes that its items take, then the
/// items. The number is filled in once the items are written.
fn write_array(buf: &mut Vec<u8>, items: &Vec<Variant>, depth: usize) -> (result: Result<
    (),
    WireError,
>)
    ensures
        written(Value::Array(views_of(*items)), depth, old(buf)@, final(buf)@, result),
    decreases depth, 0nat,
{
    let ghost value = Value::Array(views_of(*items));
    let ghost at = buf@.len() as int;
    if depth == 0 {
        assert(buf@.subrange(0, buf@.len() as int) =~= buf@);
        return Err(WireError::Unencodable);
    }
    push_header(buf, Kind::Array);
    let ghost head = buf@;
    let length_at = buf.len();
    push_u32(buf, 0);
    let ghost opened = buf@;
    let result = write_all(items, buf, depth - 1);
    assert(begins_with(buf@, old(buf)@)) by {
        assert(buf@.subrange(0, at) =~= opened.subrange(0, at));
        assert(opened.subrange(0, at) =~= old(buf)@);
    }
    if result.is_err() {
        return result;
    }
    let count = buf.len() - length_at - 4;
    if count > MAX_ARRAY_BYTES {
        return Err(WireError::Unencodable);
    }
    let ghost filled = buf@;
    patch_u32(buf, length_at, count as u32);
    proof {
        lemma_wire_after(old(buf)@, value, at);
        assert(filled.subrange(0, length_at as int) =~= head);
        assert(buf@ =~= head + body(value, Kind::Array.body_start(at)));
    }
    Ok(())
}

/// Writes a struct: its fields, one after the other.
fn write_struct(buf: &mut Vec<u8>, fields: &Vec<Variant>, depth: usize) -> (result: Result<
    (),
    WireError,
>)
    ensures
        written(Value::Struct(views_of(*fields)), depth, old(buf)@, final(buf)@, result),
    decreases depth, 0nat,
{
    let ghost value = Value::Struct(views_of(*fields));
    let ghost at = buf@.len() as int;
    if depth == 0 || fields.len() == 0 || fields.len() > MAX_FIELDS {
        assert(buf@.subrange(0, buf@.len() as int) =~= buf@);
        return Err(WireError::Unencodable);
    }
    push_header(buf, Kind::Struct(fields.len()));
    let ghost head = buf@;
    let result = write_all(fields, buf, depth - 1);
    assert(begins_with(buf@, old(buf)@)) by {
        assert(buf@.subrange(0, at) =~= head.subrange(0, at));
        assert(head.subrange(0, at) =~= old(buf)@);
    }
    if result.is_err() {
        return result;
    }
    proof {
        lemma_wire_after(old(buf)@, value, at);
    }
    Ok(())
}

/// Appends the wire forms of `items`, one after the other, where each has
/// one with at most `depth` levels of nesting. Where one has none, what
/// `buf` held is still its beginning.
fn write_all(items: &Vec<Variant>, buf: &mut Vec<u8>, depth: usize) -> (result: Result<
    (),
    WireError,
>)
    ensures
        match result {
            Ok(()) => {
                &&& all_encodable(views_of(*items), old(buf)@.len() as int, depth as nat)
                &&& final(buf)@ == old(buf)@ + wire_all(views_of(*items), old(buf)@.len() as int)
            },
            Err(error) => {
                &&& error == WireError::Unencodable
                &&& !all_encodable(views_of(*items), old(buf)@.len() as int, depth as nat)
                &&& begins_with(final(buf)@, old(buf)@)
            },
        },
    decreases depth, 2nat,
{
    let ghost at = buf@.len() as int;
    let ghost values = views_of(*items);
    let mut i: usize = 0;
    assert(buf@ =~= old(buf)@ + wire_all(values.take(0), at));
    while i < items.len()
        invariant
            i <= items.len(),
            values == views_of(*items),
            at == old(buf)@.len(),
            all_encodable(values.take(i as int), at, depth as nat),
            buf@ == old(buf)@ + wire_all(values.take(i as int), at),
        decreases items.len() - i,
    {
        let ghost front = buf@;
        let written = write_value(&items[i], buf, depth);
        proof {
            lemma_wire_all_push(values.take(i as int), values[i as int], at, depth as nat);
            assert(values.take(i + 1) =~= values.take(i as int).push(values[i as int]));
        }
        if written.is_err() {
            proof {
                lemma_wire_all_take(values, i + 1, at, depth as nat);
                assert(buf@.subrange(0, at) =~= front.subrange(0, at));
                assert(front.subrange(0, at) =~= old(buf)@);
            }
            return written;
        }
        i += 1;
        assert(buf@ =~= old(buf)@ + wire_all(values.take(i as int), at));
    }
    assert(values.take(i as int) =~= values);
    Ok(())
}

} // verus!
