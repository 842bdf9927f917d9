//! Reading a value: the header tells its type, the type tells how to read
//! its body. Whatever is not the wire form of a value is refused.

use crate::systemd::dbus_native::unique::{
    lemma_counted, lemma_header_bytes, lemma_header_unique, lemma_holds_at_index,
    lemma_holds_at_join, lemma_kind_unique, lemma_next_item, lemma_opens_parts,
    lemma_reads_parts, lemma_reads_push, lemma_unique, opens, reads, reads_all,
};
use crate::systemd::dbus_native::variant::{views_of, Value, Variant};
use crate::systemd::dbus_native::wire::{
    body, holds_at, i32_value, i64_bits, i64_value, lemma_two_complement, lemma_u32_bytes,
    lemma_u32_value, lemma_u64_bytes, lemma_u64_value, padding, u32_bytes, u32_value, u64_bytes,
    u64_value, wire, wire_all, zeros, Kind, MAX_ARRAY_BYTES, SIGN_ARRAY, SIGN_BOOL, SIGN_CLOSE,
    SIGN_I32, SIGN_I64, SIGN_OPEN, SIGN_STRING, SIGN_U32, SIGN_U64, SIGN_VARIANT,
};
use vstd::prelude::*;
use vstd::slice::slice_subrange;
use vstd::utf8::{encode_utf8, valid_utf8};

verus! {

/// The four bytes at `at` as an integer, where `buf` has four bytes there.
fn read_u32(buf: &[u8], at: usize) -> (found: Option<u32>)
    ensures
        match found {
            Some(x) => holds_at(buf@, at as int, u32_bytes(x)),
            None => at + 4 > buf@.len(),
        },
{
    if buf.len() < 4 || at > buf.len() - 4 {
        return None;
    }
    let low: u32 = buf[at] as u32 + 256 * (buf[at + 1] as u32);
    let high: u32 = buf[at + 2] as u32 + 256 * (buf[at + 3] as u32);
    let x: u32 = low + 65536 * high;
    proof {
        let part = buf@.subrange(at as int, at + 4);
        assert(x == u32_value(part));
        lemma_u32_value(part);
    }
    Some(x)
}

/// The eight bytes at `at` as an integer, where `buf` has eight bytes
/// there.
fn read_u64(buf: &[u8], at: usize) -> (found: Option<u64>)
    ensures
        match found {
            Some(x) => holds_at(buf@, at as int, u64_bytes(x)),
            None => at + 8 > buf@.len(),
        },
{
    if buf.len() < 8 || at > buf.len() - 8 {
        return None;
    }
    let low = match read_u32(buf, at) {
        Some(low) => low,
        None => { return None; },
    };
    let high = match read_u32(buf, at + 4) {
        Some(high) => high,
        None => { return None; },
    };
    let x: u64 = low as u64 + 0x1_0000_0000 * (high as u64);
    proof {
        let part = buf@.subrange(at as int, at + 8);
        assert(part.subrange(0, 4) =~= buf@.subrange(at as int, at + 4));
        assert(part.subrange(4, 8) =~= buf@.subrange(at + 4, at + 8));
        lemma_u32_bytes(low);
        lemma_u32_bytes(high);
        assert(x == u64_value(part));
        lemma_u64_value(part);
    }
    Some(x)
}

/// The signed integer that `bits` are the two's complement of.
fn i32_of_bits(bits: u32) -> (x: i32)
    ensures
        x == i32_value(bits),
{
    if bits < 0x8000_0000 {
        bits as i32
    } else {
        (bits - 0x8000_0000) as i32 + i32::MIN
    }
}

/// The signed integer that `bits` are the two's complement of.
fn i64_of_bits(bits: u64) -> (x: i64)
    ensures
        x == i64_value(bits),
{
    if bits < 0x8000_0000_0000_0000 {
        bits as i64
    } else {
        (bits - 0x8000_0000_0000_0000) as i64 + i64::MIN
    }
}

/// Reads the zero bytes from `at` to the next multiple of `alignment` and
/// returns where they end.
fn skip_padding(buf: &[u8], at: usize, alignment: usize) -> (next: Option<usize>)
    requires
        alignment == 4 || alignment == 8,
        at <= buf@.len(),
    ensures
        match next {
            Some(next) => {
                &&& next == at + padding(at as int, alignment as int)
                &&& holds_at(buf@, at as int, zeros(padding(at as int, alignment as int)))
            },
            None => !holds_at(buf@, at as int, zeros(padding(at as int, alignment as int))),
        },
{
    let beyond = at % alignment;
    let count: usize = if beyond == 0 {
        0
    } else {
        alignment - beyond
    };
    assert(count == padding(at as int, alignment as int)) by {
        if alignment == 4 {
            assert(count == padding(at as int, 4));
        } else {
            assert(count == padding(at as int, 8));
        }
    }
    if buf.len() - at < count {
        return None;
    }
    let mut i: usize = 0;
    while i < count
        invariant
            i <= count,
            at + count <= buf@.len() <= usize::MAX,
            count == padding(at as int, alignment as int),
            forall|k: int| at <= k < at + i ==> buf@[k] == 0,
        decreases count - i,
    {
        if buf[at + i] != 0 {
            proof {
                if holds_at(buf@, at as int, zeros(count as int)) {
                    lemma_holds_at_index(buf@, at as int, zeros(count as int), i as int);
                }
            }
            return None;
        }
        i += 1;
    }
    assert(buf@.subrange(at as int, at + count) =~= zeros(count as int));
    Some(at + count)
}

/// Reads the header of a variant at `start`: its type, and where the
/// header ends.
fn read_signature(buf: &[u8], start: usize) -> (found: Option<(Kind, usize)>)
    ensures
        match found {
            Some((kind, after)) => {
                &&& kind.valid()
                &&& holds_at(buf@, start as int, kind.header())
                &&& after == start + kind.header().len()
            },
            None => forall|kind: Kind|
                !(kind.valid() && holds_at(buf@, start as int, #[trigger] kind.header())),
        },
{
    let ghost at = start as int;
    if start >= buf.len() {
        assert forall|kind: Kind|
            !(kind.valid() && holds_at(buf@, at, #[trigger] kind.header())) by {
            if kind.valid() && holds_at(buf@, at, kind.header()) {
                lemma_header_bytes(buf@, at, kind);
            }
        }
        return None;
    }
    let length = buf[start] as usize;
    if length == 0 || buf.len() - start < length + 2 {
        assert forall|kind: Kind|
            !(kind.valid() && holds_at(buf@, at, #[trigger] kind.header())) by {
            if kind.valid() && holds_at(buf@, at, kind.header()) {
                lemma_header_bytes(buf@, at, kind);
            }
        }
        return None;
    }
    let first = buf[start + 1];
    let kind = if length == 1 {
        if first == SIGN_U32 {
            Kind::U32
        } else if first == SIGN_U64 {
            Kind::U64
        } else if first == SIGN_I32 {
            Kind::I32
        } else if first == SIGN_I64 {
            Kind::I64
        } else if first == SIGN_BOOL {
            Kind::Bool
        } else if first == SIGN_STRING {
            Kind::String
        } else {
            assert forall|kind: Kind|
                !(kind.valid() && holds_at(buf@, at, #[trigger] kind.header())) by {
                if kind.valid() && holds_at(buf@, at, kind.header()) {
                    lemma_header_bytes(buf@, at, kind);
                    assert(buf@[at + 1] == kind.signature()[0]);
                }
            }
            return None;
        }
    } else if length == 2 {
        if first == SIGN_ARRAY && buf[start + 2] == SIGN_VARIANT {
            Kind::Array
        } else {
            assert forall|kind: Kind|
                !(kind.valid() && holds_at(buf@, at, #[trigger] kind.header())) by {
                if kind.valid() && holds_at(buf@, at, kind.header()) {
                    lemma_header_bytes(buf@, at, kind);
                    assert(buf@[at + 1] == kind.signature()[0]);
                    assert(buf@[at + 2] == kind.signature()[1]);
                }
            }
            return None;
        }
    } else {
        let fields = length - 2;
        let mut i: usize = 0;
        while i < fields
            invariant
                i <= fields,
                fields == length - 2,
                length == buf@[at],
                at == start,
                start + length + 2 <= buf@.len() <= usize::MAX,
                forall|k: int| start + 2 <= k < start + 2 + i ==> buf@[k] == SIGN_VARIANT,
            decreases fields - i,
        {
            if buf[start + 2 + i] != SIGN_VARIANT {
                assert forall|kind: Kind|
                    !(kind.valid() && holds_at(buf@, at, #[trigger] kind.header())) by {
                    if kind.valid() && holds_at(buf@, at, kind.header()) {
                        lemma_header_bytes(buf@, at, kind);
                        assert(buf@[at + 1 + (1 + i)] == kind.signature()[1 + i]);
                    }
                }
                return None;
            }
            i += 1;
        }
        if first != SIGN_OPEN || buf[start + length] != SIGN_CLOSE {
            assert forall|kind: Kind|
                !(kind.valid() && holds_at(buf@, at, #[trigger] kind.header())) by {
                if kind.valid() && holds_at(buf@, at, kind.header()) {
                    lemma_header_bytes(buf@, at, kind);
                    assert(buf@[at + 1] == kind.signature()[0]);
                    assert(buf@[at + 1 + (length - 1)] == kind.signature()[length - 1]);
                }
            }
            return None;
        }
        Kind::Struct(fields)
    };
    if buf[start + length + 1] != 0 {
        assert forall|other: Kind|
            !(other.valid() && holds_at(buf@, at, #[trigger] other.header())) by {
            if other.valid() && holds_at(buf@, at, other.header()) {
                lemma_header_bytes(buf@, at, other);
            }
        }
        return None;
    }
    assert(buf@.subrange(at, at + length + 2) =~= kind.header());
    Some((kind, start + length + 2))
}

/// Reads the header of a variant at `start` and the padding after it:
/// the type of the variant, and where its value begins.
fn read_header(buf: &[u8], start: usize) -> (found: Option<(Kind, usize)>)
    ensures
        match found {
            Some((kind, body_at)) => {
                &&& opens(buf@, start as int, kind)
                &&& body_at == kind.body_start(start as int)
                &&& body_at <= buf@.len()
            },
            None => forall|kind: Kind| !#[trigger] opens(buf@, start as int, kind),
        },
{
    let ghost at = start as int;
    let (kind, after) = match read_signature(buf, start) {
        Some(found) => found,
        None => {
            assert forall|kind: Kind| !#[trigger] opens(buf@, at, kind) by {
                lemma_opens_parts(buf@, at, kind);
            }
            return None;
        },
    };
    let alignment: usize = match kind {
        Kind::U64 | Kind::I64 | Kind::Struct(_) => 8,
        _ => 4,
    };
    proof {
        lemma_opens_parts(buf@, at, kind);
    }
    match skip_padding(buf, after, alignment) {
        Some(body_at) => Some((kind, body_at)),
        None => {
            assert forall|other: Kind| !#[trigger] opens(buf@, at, other) by {
                lemma_opens_parts(buf@, at, other);
                if opens(buf@, at, other) {
                    lemma_header_unique(buf@, at, kind, other);
                }
            }
            None
        },
    }
}

/// `core::str::from_utf8`: the text that `bytes` are the UTF-8 form of.
/// Its documentation says that it succeeds exactly on valid UTF-8, and that
/// the text it returns is made of the bytes it was given.
#[verifier::external_body]
fn text_of(bytes: &[u8]) -> (text: Option<&str>)
    ensures
        text is Some <==> valid_utf8(bytes@),
        text matches Some(s) ==> encode_utf8(s@) == bytes@,
{
    match core::str::from_utf8(bytes) {
        Ok(text) => Some(text),
        Err(_) => None,
    }
}

/// What reading at `at` gives: a value whose wire form stands there and
/// the offset where it ends, or nothing where no value's wire form stands
/// there.
pub open spec fn was_read(
    bytes: Seq<u8>,
    at: int,
    depth: nat,
    found: Option<(Variant, usize)>,
) -> bool {
    match found {
        Some((value, end)) => reads(bytes, at, value@, depth) && end == at + wire(value@, at).len(),
        None => forall|value: Value| !#[trigger] reads(bytes, at, value, depth),
    }
}

/// Reads the variant that begins at `start`, nested at most `depth`
/// levels deep.
pub(crate) fn read_value(buf: &[u8], start: usize, depth: usize) -> (found: Option<(Variant, usize)>)
    ensures
        was_read(buf@, start as int, depth as nat, found),
    decreases depth, 1nat,
{
    let ghost at = start as int;
    let (kind, body_at) = match read_header(buf, start) {
        Some(found) => found,
        None => {
            assert forall|value: Value| !#[trigger] reads(buf@, at, value, depth as nat) by {
                lemma_reads_parts(buf@, at, value, depth as nat);
            }
            return None;
        },
    };
    match kind {
        Kind::U32 | Kind::I32 | Kind::Bool => read_four(buf, start, kind, body_at, depth),
        Kind::U64 | Kind::I64 => read_eight(buf, start, kind, body_at, depth),
        Kind::String => read_string(buf, start, body_at, depth),
        Kind::Array => read_array(buf, start, body_at, depth),
        Kind::Struct(fields) => read_struct(buf, start, fields, body_at, depth),
    }
}

/// Reads a value of four bytes of type `kind`, whose header was read.
fn read_four(buf: &[u8], start: usize, kind: Kind, body_at: usize, depth: usize) -> (found: Option<
    (Variant, usize),
>)
    requires
        opens(buf@, start as int, kind),
        body_at == kind.body_start(start as int),
        kind == Kind::U32 || kind == Kind::I32 || kind == Kind::Bool,
    ensures
        was_read(buf@, start as int, depth as nat, found),
{
    let ghost at = start as int;
    let bits = match read_u32(buf, body_at) {
        Some(bits) => bits,
        None => {
            assert forall|value: Value| !#[trigger] reads(buf@, at, value, depth as nat) by {
                if reads(buf@, at, value, depth as nat) {
                    lemma_reads_parts(buf@, at, value, depth as nat);
                    lemma_kind_unique(buf@, at, kind, value.kind());
                }
            }
            return None;
        },
    };
    assert(buf.len() <= usize::MAX);
    let value = match kind {
        Kind::U32 => Variant::U32(bits),
        Kind::I32 => Variant::I32(i32_of_bits(bits)),
        _ => {
            if bits > 1 {
                assert forall|value: Value| !#[trigger] reads(buf@, at, value, depth as nat) by {
                    if reads(buf@, at, value, depth as nat) {
                        lemma_reads_parts(buf@, at, value, depth as nat);
                        lemma_kind_unique(buf@, at, kind, value.kind());
                        lemma_u32_bytes(bits);
                        lemma_u32_bytes(0);
                        lemma_u32_bytes(1);
                    }
                }
                return None;
            }
            Variant::Bool(bits == 1)
        },
    };
    proof {
        lemma_two_complement(0, bits, 0, 0);
        lemma_reads_parts(buf@, at, value@, depth as nat);
    }
    Some((value, body_at + 4))
}

/// Reads a value of eight bytes of type `kind`, whose header was read.
fn read_eight(buf: &[u8], start: usize, kind: Kind, body_at: usize, depth: usize) -> (found:
    Option<(Variant, usize)>)
    requires
        opens(buf@, start as int, kind),
        body_at == kind.body_start(start as int),
        kind == Kind::U64 || kind == Kind::I64,
    ensures
        was_read(buf@, start as int, depth as nat, found),
{
    let ghost at = start as int;
    let bits = match read_u64(buf, body_at) {
        Some(bits) => bits,
        None => {
            assert forall|value: Value| !#[trigger] reads(buf@, at, value, depth as nat) by {
                if reads(buf@, at, value, depth as nat) {
                    lemma_reads_parts(buf@, at, value, depth as nat);
                    lemma_kind_unique(buf@, at, kind, value.kind());
                    lemma_u64_bytes(0);
                    match value {
                        Value::U64(x) => lemma_u64_bytes(x),
                        Value::I64(x) => lemma_u64_bytes(i64_bits(x)),
                        _ => {},
                    }
                }
            }
            return None;
        },
    };
    assert(buf.len() <= usize::MAX);
    let value = match kind {
        Kind::U64 => Variant::U64(bits),
        _ => Variant::I64(i64_of_bits(bits)),
    };
    proof {
        lemma_u64_bytes(bits);
        lemma_two_complement(0, 0, 0, bits);
        lemma_reads_parts(buf@, at, value@, depth as nat);
    }
    Some((value, body_at + 8))
}

/// Reads a string, whose header was read: its length, its bytes, which
/// must be UTF-8, and the zero byte that ends it.
fn read_string(buf: &[u8], start: usize, body_at: usize, depth: usize) -> (found: Option<
    (Variant, usize),
>)
    requires
        opens(buf@, start as int, Kind::String),
        body_at == Kind::String.body_start(start as int),
    ensures
        was_read(buf@, start as int, depth as nat, found),
{
    let ghost at = start as int;
    let kind = Kind::String;
    let length = match read_u32(buf, body_at) {
        Some(length) => length,
        None => {
            assert forall|value: Value| !#[trigger] reads(buf@, at, value, depth as nat) by {
                if reads(buf@, at, value, depth as nat) {
                    lemma_reads_parts(buf@, at, value, depth as nat);
                    lemma_kind_unique(buf@, at, kind, value.kind());
                    let text = encode_utf8(value->String_0);
                    lemma_holds_at_join(
                        buf@,
                        body_at as int,
                        u32_bytes(text.len() as u32),
                        text + seq![0u8],
                    );
                    assert(u32_bytes(text.len() as u32) + text + seq![0u8] =~= u32_bytes(
                        text.len() as u32,
                    ) + (text + seq![0u8]));
                    lemma_u32_bytes(text.len() as u32);
                }
            }
            return None;
        },
    };
    let count = length as usize;
    let ghost known = |value: Value|
        {
            let text = encode_utf8(value->String_0);
            &&& value is String
            &&& text.len() == count
            &&& holds_at(buf@, body_at + 4, text)
            &&& holds_at(buf@, body_at + 4 + count, seq![0u8])
        };
    assert forall|value: Value| #[trigger] reads(buf@, at, value, depth as nat) implies known(
        value,
    ) by {
        lemma_reads_parts(buf@, at, value, depth as nat);
        lemma_kind_unique(buf@, at, kind, value.kind());
        let text = encode_utf8(value->String_0);
        assert(u32_bytes(text.len() as u32) + text + seq![0u8] =~= u32_bytes(text.len() as u32)
            + (text + seq![0u8]));
        lemma_counted(buf@, body_at as int, text.len() as u32, length, text + seq![0u8]);
        lemma_holds_at_join(buf@, body_at + 4, text, seq![0u8]);
    }
    if buf.len() - body_at - 4 <= count {
        assert forall|value: Value| !#[trigger] reads(buf@, at, value, depth as nat) by {
            if reads(buf@, at, value, depth as nat) {
                assert(known(value));
            }
        }
        return None;
    }
    let from = body_at + 4;
    let to = from + count;
    let bytes = slice_subrange(buf, from, to);
    let text = match text_of(bytes) {
        Some(text) => text,
        None => {
            assert forall|value: Value| !#[trigger] reads(buf@, at, value, depth as nat) by {
                if reads(buf@, at, value, depth as nat) {
                    assert(known(value));
                    vstd::utf8::encode_utf8_valid_utf8(value->String_0);
                }
            }
            return None;
        },
    };
    if buf[to] != 0 {
        assert forall|value: Value| !#[trigger] reads(buf@, at, value, depth as nat) by {
            if reads(buf@, at, value, depth as nat) {
                assert(known(value));
                lemma_holds_at_index(buf@, to as int, seq![0u8], 0);
            }
        }
        return None;
    }
    let value = Variant::String(text.to_owned());
    proof {
        let wanted = body(value@, body_at as int);
        assert(buf@.subrange(to as int, to + 1) =~= seq![0u8]);
        lemma_holds_at_join(buf@, body_at as int, u32_bytes(length), bytes@);
        lemma_holds_at_join(buf@, body_at as int, u32_bytes(length) + bytes@, seq![0u8]);
        lemma_u32_bytes(length);
        lemma_reads_parts(buf@, at, value@, depth as nat);
    }
    Some((value, to + 1))
}

/// Reads an array, whose header was read: the number of bytes that its
/// items take, then items until those bytes are used up.
fn read_array(buf: &[u8], start: usize, body_at: usize, depth: usize) -> (found: Option<
    (Variant, usize),
>)
    requires
        opens(buf@, start as int, Kind::Array),
        body_at == Kind::Array.body_start(start as int),
    ensures
        was_read(buf@, start as int, depth as nat, found),
    decreases depth, 0nat,
{
    let ghost at = start as int;
    let kind = Kind::Array;
    if depth == 0 {
        assert forall|value: Value| !#[trigger] reads(buf@, at, value, depth as nat) by {
            if reads(buf@, at, value, depth as nat) {
                lemma_reads_parts(buf@, at, value, depth as nat);
                lemma_kind_unique(buf@, at, kind, value.kind());
            }
        }
        return None;
    }
    let length = match read_u32(buf, body_at) {
        Some(length) => length,
        None => {
            assert forall|value: Value| !#[trigger] reads(buf@, at, value, depth as nat) by {
                if reads(buf@, at, value, depth as nat) {
                    lemma_reads_parts(buf@, at, value, depth as nat);
                    lemma_kind_unique(buf@, at, kind, value.kind());
                    let data = wire_all(value->Array_0, body_at + 4);
                    lemma_holds_at_join(buf@, body_at as int, u32_bytes(data.len() as u32), data);
                    lemma_u32_bytes(data.len() as u32);
                }
            }
            return None;
        },
    };
    let count = length as usize;
    let ghost known = |value: Value|
        {
            let data = wire_all(value->Array_0, body_at + 4);
            &&& value is Array
            &&& data.len() == count
            &&& count <= MAX_ARRAY_BYTES
            &&& reads_all(buf@, body_at + 4, value->Array_0, (depth - 1) as nat)
        };
    assert forall|value: Value| #[trigger] reads(buf@, at, value, depth as nat) implies known(
        value,
    ) by {
        lemma_reads_parts(buf@, at, value, depth as nat);
        lemma_kind_unique(buf@, at, kind, value.kind());
        let data = wire_all(value->Array_0, body_at + 4);
        lemma_counted(buf@, body_at as int, data.len() as u32, length, data);
    }
    if count > MAX_ARRAY_BYTES || buf.len() - body_at - 4 < count {
        assert forall|value: Value| !#[trigger] reads(buf@, at, value, depth as nat) by {
            if reads(buf@, at, value, depth as nat) {
                assert(known(value));
            }
        }
        return None;
    }
    let from = body_at + 4;
    let to = from + count;
    let items = match read_items(buf, from, to, depth - 1) {
        Some(items) => items,
        None => {
            assert forall|value: Value| !#[trigger] reads(buf@, at, value, depth as nat) by {
                if reads(buf@, at, value, depth as nat) {
                    assert(known(value));
                }
            }
            return None;
        },
    };
    let value = Variant::Array(items);
    proof {
        let data = wire_all(views_of(items), from as int);
        lemma_holds_at_join(buf@, body_at as int, u32_bytes(length), data);
        lemma_u32_bytes(length);
        lemma_reads_parts(buf@, at, value@, depth as nat);
    }
    Some((value, to))
}

/// Reads a struct of `fields` fields, whose header was read.
fn read_struct(buf: &[u8], start: usize, fields: usize, body_at: usize, depth: usize) -> (found:
    Option<(Variant, usize)>)
    requires
        opens(buf@, start as int, Kind::Struct(fields)),
        body_at == Kind::Struct(fields).body_start(start as int),
        body_at <= buf@.len(),
    ensures
        was_read(buf@, start as int, depth as nat, found),
    decreases depth, 0nat,
{
    let ghost at = start as int;
    let kind = Kind::Struct(fields);
    let ghost known = |value: Value|
        {
            &&& value is Struct
            &&& depth > 0
            &&& value->Struct_0.len() == fields
            &&& reads_all(buf@, body_at as int, value->Struct_0, (depth - 1) as nat)
        };
    assert forall|value: Value| #[trigger] reads(buf@, at, value, depth as nat) implies known(
        value,
    ) by {
        lemma_reads_parts(buf@, at, value, depth as nat);
        lemma_kind_unique(buf@, at, kind, value.kind());
    }
    if depth == 0 {
        assert forall|value: Value| !#[trigger] reads(buf@, at, value, depth as nat) by {
            if reads(buf@, at, value, depth as nat) {
                assert(known(value));
            }
        }
        return None;
    }
    let (items, end) = match read_fields(buf, body_at, fields, depth - 1) {
        Some(found) => found,
        None => {
            assert forall|value: Value| !#[trigger] reads(buf@, at, value, depth as nat) by {
                if reads(buf@, at, value, depth as nat) {
                    assert(known(value));
                }
            }
            return None;
        },
    };
    let value = Variant::Struct(items);
    proof {
        lemma_reads_parts(buf@, at, value@, depth as nat);
    }
    Some((value, end))
}

/// Reads the items that fill the bytes from `from` to `to`.
fn read_items(buf: &[u8], from: usize, to: usize, depth: usize) -> (found: Option<Vec<Variant>>)
    requires
        from <= to <= buf@.len(),
    ensures
        match found {
            Some(items) => {
                &&& reads_all(buf@, from as int, views_of(items), depth as nat)
                &&& wire_all(views_of(items), from as int).len() == to - from
            },
            None => forall|items: Seq<Value>|
                !(#[trigger] reads_all(buf@, from as int, items, depth as nat) && wire_all(
                    items,
                    from as int,
                ).len() == to - from),
        },
    decreases depth, 2nat,
{
    let mut items: Vec<Variant> = Vec::new();
    let mut cur = from;
    assert(buf@.subrange(from as int, from as int) =~= wire_all(views_of(items), from as int));
    while cur < to
        invariant
            from <= cur <= to <= buf@.len(),
            reads_all(buf@, from as int, views_of(items), depth as nat),
            cur == from + wire_all(views_of(items), from as int).len(),
        decreases to - cur,
    {
        let ghost sofar = views_of(items);
        let (item, end) = match read_value(buf, cur, depth) {
            Some(found) => found,
            None => {
                assert forall|whole: Seq<Value>|
                    !(#[trigger] reads_all(buf@, from as int, whole, depth as nat) && wire_all(
                        whole,
                        from as int,
                    ).len() == to - from) by {
                    if reads_all(buf@, from as int, whole, depth as nat) && wire_all(
                        whole,
                        from as int,
                    ).len() == to - from {
                        lemma_next_item(
                            buf@,
                            from as int,
                            sofar,
                            whole,
                            depth as nat,
                            depth as nat,
                        );
                    }
                }
                return None;
            },
        };
        if end > to {
            assert forall|whole: Seq<Value>|
                !(#[trigger] reads_all(buf@, from as int, whole, depth as nat) && wire_all(
                    whole,
                    from as int,
                ).len() == to - from) by {
                if reads_all(buf@, from as int, whole, depth as nat) && wire_all(
                    whole,
                    from as int,
                ).len() == to - from {
                    lemma_next_item(buf@, from as int, sofar, whole, depth as nat, depth as nat);
                    lemma_unique(
                        buf@,
                        cur as int,
                        item@,
                        whole[sofar.len() as int],
                        depth as nat,
                        depth as nat,
                    );
                }
            }
            return None;
        }
        proof {
            lemma_reads_push(buf@, from as int, sofar, item@, depth as nat);
            lemma_reads_parts(buf@, cur as int, item@, depth as nat);
        }
        items.push(item);
        assert(views_of(items) =~= sofar.push(item@));
        cur = end;
    }
    Some(items)
}

/// Reads `count` items that stand one after the other from `from` on, and
/// returns them with the offset where they end.
fn read_fields(buf: &[u8], from: usize, count: usize, depth: usize) -> (found: Option<
    (Vec<Variant>, usize),
>)
    requires
        from <= buf@.len(),
    ensures
        match found {
            Some((fields, end)) => {
                &&& fields@.len() == count
                &&& reads_all(buf@, from as int, views_of(fields), depth as nat)
                &&& end == from + wire_all(views_of(fields), from as int).len()
            },
            None => forall|fields: Seq<Value>|
                !(#[trigger] reads_all(buf@, from as int, fields, depth as nat) && fields.len()
                    == count),
        },
    decreases depth, 2nat,
{
    let mut fields: Vec<Variant> = Vec::new();
    let mut cur = from;
    assert(buf@.subrange(from as int, from as int) =~= wire_all(views_of(fields), from as int));
    while fields.len() < count
        invariant
            fields@.len() <= count,
            from <= cur <= buf@.len(),
            reads_all(buf@, from as int, views_of(fields), depth as nat),
            cur == from + wire_all(views_of(fields), from as int).len(),
        decreases count - fields@.len(),
    {
        let ghost sofar = views_of(fields);
        let (field, end) = match read_value(buf, cur, depth) {
            Some(found) => found,
            None => {
                assert forall|whole: Seq<Value>|
                    !(#[trigger] reads_all(buf@, from as int, whole, depth as nat) && whole.len()
                        == count) by {
                    if reads_all(buf@, from as int, whole, depth as nat) && whole.len() == count {
                        lemma_next_item(
                            buf@,
                            from as int,
                            sofar,
                            whole,
                            depth as nat,
                            depth as nat,
                        );
                    }
                }
                return None;
            },
        };
        proof {
            lemma_reads_push(buf@, from as int, sofar, field@, depth as nat);
        }
        fields.push(field);
        assert(views_of(fields) =~= sofar.push(field@));
        cur = end;
    }
    Some((fields, cur))
}

} // verus!
