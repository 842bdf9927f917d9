//! No two values share a wire form: bytes that hold the wire form of a
//! value at some offset hold that of no other value there.

use crate::systemd::dbus_native::variant::Value;
use crate::systemd::dbus_native::wire::{
    all_encodable, body, encodable, holds_at, i32_bits, i64_bits, lemma_two_complement,
    lemma_u32_bytes, lemma_u64_bytes, lemma_wire_all_push, lemma_wire_all_take, padding,
    u32_bytes, wire, wire_all, zeros, Kind,
};
use vstd::prelude::*;
use vstd::utf8::encode_utf8;

verus! {

/// Whether `bytes` hold at offset `at` the header of a variant of type
/// `kind` and the zero bytes that pad it.
pub open spec fn opens(bytes: Seq<u8>, at: int, kind: Kind) -> bool {
    &&& kind.valid()
    &&& holds_at(
        bytes,
        at,
        kind.header() + zeros(kind.body_start(at) - at - kind.header().len()),
    )
}

/// Whether `bytes` hold at offset `at` the wire form of `value`, nested at
/// most `depth` levels deep.
pub open spec fn reads(bytes: Seq<u8>, at: int, value: Value, depth: nat) -> bool {
    &&& encodable(value, at, depth)
    &&& holds_at(bytes, at, wire(value, at))
}

/// Whether `bytes` hold from offset `at` on the wire forms of `items`, one
/// after the other.
pub open spec fn reads_all(bytes: Seq<u8>, at: int, items: Seq<Value>, depth: nat) -> bool {
    &&& all_encodable(items, at, depth)
    &&& holds_at(bytes, at, wire_all(items, at))
}

/// Two parts stand one after the other exactly when both together do.
pub proof fn lemma_holds_at_join(bytes: Seq<u8>, at: int, first: Seq<u8>, second: Seq<u8>)
    ensures
        holds_at(bytes, at, first + second) <==> holds_at(bytes, at, first) && holds_at(
            bytes,
            at + first.len(),
            second,
        ),
{
    let both = first + second;
    if holds_at(bytes, at, both) {
        let found = bytes.subrange(at, at + both.len());
        assert forall|i: int| 0 <= i < first.len() implies bytes[at + i] == first[i] by {
            assert(found[i] == both[i]);
        }
        assert forall|i: int| 0 <= i < second.len() implies bytes[at + first.len() + i]
            == second[i] by {
            assert(found[first.len() + i] == both[first.len() + i]);
        }
        assert(bytes.subrange(at, at + first.len()) =~= first);
        assert(bytes.subrange(at + first.len(), at + first.len() + second.len()) =~= second);
    }
    if holds_at(bytes, at, first) && holds_at(bytes, at + first.len(), second) {
        let one = bytes.subrange(at, at + first.len());
        let two = bytes.subrange(at + first.len(), at + first.len() + second.len());
        assert forall|i: int| 0 <= i < both.len() implies bytes[at + i] == both[i] by {
            if i < first.len() {
                assert(one[i] == first[i]);
            } else {
                assert(two[i - first.len()] == second[i - first.len()]);
            }
        }
        assert(bytes.subrange(at, at + both.len()) =~= both);
    }
}

/// A byte of a part that stands in `bytes` is the byte of `bytes` at its
/// place.
pub proof fn lemma_holds_at_index(bytes: Seq<u8>, at: int, part: Seq<u8>, i: int)
    requires
        holds_at(bytes, at, part),
        0 <= i < part.len(),
    ensures
        bytes[at + i] == part[i],
{
    assert(bytes.subrange(at, at + part.len())[i] == part[i]);
}

/// The value of a variant begins after its header, and less than one
/// alignment after it.
pub proof fn lemma_body_start(kind: Kind, at: int)
    requires
        0 <= at,
    ensures
        kind.header().len() == kind.signature().len() + 2,
        at + kind.header().len() <= kind.body_start(at) < at + kind.header().len() + 8,
        kind.body_start(at) % kind.alignment() == 0,
{
    let after = at + kind.header().len();
    if kind.alignment() == 4 {
        assert(0 <= padding(after, 4) < 4);
        assert((after + padding(after, 4)) % 4 == 0);
    } else {
        assert(0 <= padding(after, 8) < 8);
        assert((after + padding(after, 8)) % 8 == 0);
    }
}

/// The wire form of a value that stands in `bytes` falls into the header
/// of its type, the padding, and its body.
pub proof fn lemma_reads_parts(bytes: Seq<u8>, at: int, value: Value, depth: nat)
    requires
        0 <= at,
    ensures
        reads(bytes, at, value, depth) <==> {
            &&& encodable(value, at, depth)
            &&& opens(bytes, at, value.kind())
            &&& holds_at(
                bytes,
                value.kind().body_start(at),
                body(value, value.kind().body_start(at)),
            )
        },
        wire(value, at).len() == value.kind().body_start(at) - at + body(
            value,
            value.kind().body_start(at),
        ).len(),
        wire(value, at).len() >= 3,
{
    let kind = value.kind();
    lemma_body_start(kind, at);
    let head = kind.header() + zeros(kind.body_start(at) - at - kind.header().len());
    lemma_holds_at_join(bytes, at, head, body(value, kind.body_start(at)));
}

/// The bytes of a header that stands in `bytes`: the length of the
/// signature, the signature, a zero byte.
pub proof fn lemma_header_bytes(bytes: Seq<u8>, at: int, kind: Kind)
    requires
        0 <= at,
        kind.valid(),
        holds_at(bytes, at, kind.header()),
    ensures
        1 <= kind.signature().len() <= 255,
        at + kind.signature().len() + 2 <= bytes.len(),
        bytes[at] == kind.signature().len(),
        forall|i: int|
            0 <= i < kind.signature().len() ==> bytes[at + 1 + i] == #[trigger] kind.signature()[i],
        bytes[at + 1 + kind.signature().len()] == 0,
{
    let header = kind.header();
    let length = kind.signature().len() as int;
    lemma_holds_at_index(bytes, at, header, 0);
    lemma_holds_at_index(bytes, at, header, 1 + length);
    assert forall|i: int| 0 <= i < length implies bytes[at + 1 + i]
        == #[trigger] kind.signature()[i] by {
        lemma_holds_at_index(bytes, at, header, 1 + i);
    }
}

/// The bytes at an offset hold the header of one type at most.
pub proof fn lemma_header_unique(bytes: Seq<u8>, at: int, one: Kind, other: Kind)
    requires
        0 <= at,
        one.valid(),
        other.valid(),
        holds_at(bytes, at, one.header()),
        holds_at(bytes, at, other.header()),
    ensures
        one == other,
{
    lemma_header_bytes(bytes, at, one);
    lemma_header_bytes(bytes, at, other);
    assert(bytes[at + 1] == one.signature()[0]);
    assert(bytes[at + 1] == other.signature()[0]);
}

/// The bytes at an offset open a variant of one type at most.
pub proof fn lemma_kind_unique(bytes: Seq<u8>, at: int, one: Kind, other: Kind)
    requires
        0 <= at,
        opens(bytes, at, one),
        opens(bytes, at, other),
    ensures
        one == other,
{
    lemma_opens_parts(bytes, at, one);
    lemma_opens_parts(bytes, at, other);
    lemma_header_unique(bytes, at, one, other);
}

/// Bytes open a variant where they hold its header and, after it, the
/// zero bytes up to the value.
pub proof fn lemma_opens_parts(bytes: Seq<u8>, at: int, kind: Kind)
    requires
        0 <= at,
    ensures
        opens(bytes, at, kind) <==> {
            &&& kind.valid()
            &&& holds_at(bytes, at, kind.header())
            &&& holds_at(
                bytes,
                at + kind.header().len(),
                zeros(padding(at + kind.header().len(), kind.alignment())),
            )
        },
{
    lemma_body_start(kind, at);
    lemma_holds_at_join(
        bytes,
        at,
        kind.header(),
        zeros(kind.body_start(at) - at - kind.header().len()),
    );
}

/// Each item of a list that stands in `bytes` stands there where the items
/// before it end.
pub proof fn lemma_item_reads(bytes: Seq<u8>, at: int, items: Seq<Value>, i: int, depth: nat)
    requires
        reads_all(bytes, at, items, depth),
        0 <= i < items.len(),
    ensures
        reads_all(bytes, at, items.take(i), depth),
        reads_all(bytes, at, items.take(i + 1), depth),
        reads(bytes, at + wire_all(items.take(i), at).len(), items[i], depth),
        wire_all(items.take(i + 1), at).len() == wire_all(items.take(i), at).len() + wire(
            items[i],
            at + wire_all(items.take(i), at).len(),
        ).len(),
        wire_all(items.take(i + 1), at).len() <= wire_all(items, at).len(),
{
    let front = items.take(i);
    let upto = items.take(i + 1);
    lemma_wire_all_take(items, i, at, depth);
    lemma_wire_all_take(items, i + 1, at, depth);
    lemma_wire_all_push(front, items[i], at, depth);
    assert(upto =~= front.push(items[i]));
    let whole = wire_all(items, at);
    let found = bytes.subrange(at, at + whole.len());
    assert(bytes.subrange(at, at + wire_all(upto, at).len()) =~= whole.subrange(
        0,
        wire_all(upto, at).len() as int,
    )) by {
        assert forall|k: int| 0 <= k < wire_all(upto, at).len() implies bytes[at + k]
            == whole[k] by {
            assert(found[k] == whole[k]);
        }
    }
    assert(bytes.subrange(at, at + wire_all(front, at).len()) =~= whole.subrange(
        0,
        wire_all(front, at).len() as int,
    )) by {
        assert forall|k: int| 0 <= k < wire_all(front, at).len() implies bytes[at + k]
            == whole[k] by {
            assert(found[k] == whole[k]);
        }
    }
    lemma_holds_at_join(
        bytes,
        at,
        wire_all(front, at),
        wire(items[i], at + wire_all(front, at).len()),
    );
}

/// The wire form of a value that stands in `bytes` stands for no other
/// value: two values that can be read at one offset are the same.
pub proof fn lemma_unique(
    bytes: Seq<u8>,
    at: int,
    one: Value,
    other: Value,
    depth_one: nat,
    depth_other: nat,
)
    requires
        0 <= at,
        reads(bytes, at, one, depth_one),
        reads(bytes, at, other, depth_other),
    ensures
        one == other,
    decreases one, 1nat,
{
    lemma_reads_parts(bytes, at, one, depth_one);
    lemma_reads_parts(bytes, at, other, depth_other);
    lemma_kind_unique(bytes, at, one.kind(), other.kind());
    let body_at = one.kind().body_start(at);
    let here = body(one, body_at);
    let there = body(other, body_at);
    match one {
        Value::U32(x) => {
            let y = other->U32_0;
            lemma_u32_bytes(x);
            lemma_u32_bytes(y);
        },
        Value::U64(x) => {
            let y = other->U64_0;
            lemma_u64_bytes(x);
            lemma_u64_bytes(y);
        },
        Value::I32(x) => {
            let y = other->I32_0;
            lemma_u32_bytes(i32_bits(x));
            lemma_u32_bytes(i32_bits(y));
            lemma_two_complement(x, 0, 0, 0);
            lemma_two_complement(y, 0, 0, 0);
        },
        Value::I64(x) => {
            let y = other->I64_0;
            lemma_u64_bytes(i64_bits(x));
            lemma_u64_bytes(i64_bits(y));
            lemma_two_complement(0, 0, x, 0);
            lemma_two_complement(0, 0, y, 0);
        },
        Value::Bool(x) => {
            let y = other->Bool_0;
            lemma_u32_bytes(if x { 1u32 } else { 0u32 });
            lemma_u32_bytes(if y { 1u32 } else { 0u32 });
        },
        Value::String(s) => {
            let t = other->String_0;
            let mine = encode_utf8(s);
            let yours = encode_utf8(t);
            lemma_u32_bytes(mine.len() as u32);
            lemma_u32_bytes(yours.len() as u32);
            lemma_holds_at_join(bytes, body_at, u32_bytes(mine.len() as u32) + mine, seq![0u8]);
            lemma_holds_at_join(bytes, body_at, u32_bytes(mine.len() as u32), mine);
            lemma_holds_at_join(bytes, body_at, u32_bytes(yours.len() as u32) + yours, seq![0u8]);
            lemma_holds_at_join(bytes, body_at, u32_bytes(yours.len() as u32), yours);
            assert(mine.len() == yours.len());
            assert(mine == yours);
            vstd::utf8::encode_utf8_decode_utf8(s);
            vstd::utf8::encode_utf8_decode_utf8(t);
        },
        Value::Array(xs) => {
            let ys = other->Array_0;
            let mine = wire_all(xs, body_at + 4);
            let yours = wire_all(ys, body_at + 4);
            lemma_u32_bytes(mine.len() as u32);
            lemma_u32_bytes(yours.len() as u32);
            lemma_holds_at_join(bytes, body_at, u32_bytes(mine.len() as u32), mine);
            lemma_holds_at_join(bytes, body_at, u32_bytes(yours.len() as u32), yours);
            assert(mine.len() == yours.len());
            lemma_unique_all(
                bytes,
                body_at + 4,
                xs,
                ys,
                (depth_one - 1) as nat,
                (depth_other - 1) as nat,
            );
        },
        Value::Struct(xs) => {
            let ys = other->Struct_0;
            assert(xs.len() == ys.len());
            lemma_unique_all(
                bytes,
                body_at,
                xs,
                ys,
                (depth_one - 1) as nat,
                (depth_other - 1) as nat,
            );
        },
    }
}

/// Two lists of values that can be read at one offset are the same where
/// they have the same number of items or take the same number of bytes.
pub proof fn lemma_unique_all(
    bytes: Seq<u8>,
    at: int,
    one: Seq<Value>,
    other: Seq<Value>,
    depth_one: nat,
    depth_other: nat,
)
    requires
        0 <= at,
        reads_all(bytes, at, one, depth_one),
        reads_all(bytes, at, other, depth_other),
        one.len() == other.len() || wire_all(one, at).len() == wire_all(other, at).len(),
    ensures
        one == other,
    decreases one, 1nat,
{
    let shared = if one.len() <= other.len() {
        one.len() as int
    } else {
        other.len() as int
    };
    lemma_unique_upto(bytes, at, one, other, depth_one, depth_other, shared);
    assert(one.take(one.len() as int) =~= one);
    assert(other.take(other.len() as int) =~= other);
    if one.len() < other.len() {
        lemma_item_reads(bytes, at, other, shared, depth_other);
        lemma_reads_parts(
            bytes,
            at + wire_all(other.take(shared), at).len(),
            other[shared],
            depth_other,
        );
    } else if other.len() < one.len() {
        lemma_item_reads(bytes, at, one, shared, depth_one);
        lemma_reads_parts(
            bytes,
            at + wire_all(one.take(shared), at).len(),
            one[shared],
            depth_one,
        );
    }
}

/// Two lists of values that can be read at one offset have the same first
/// `count` items.
pub proof fn lemma_unique_upto(
    bytes: Seq<u8>,
    at: int,
    one: Seq<Value>,
    other: Seq<Value>,
    depth_one: nat,
    depth_other: nat,
    count: int,
)
    requires
        0 <= at,
        reads_all(bytes, at, one, depth_one),
        reads_all(bytes, at, other, depth_other),
        0 <= count <= one.len(),
        count <= other.len(),
    ensures
        one.take(count) == other.take(count),
    decreases one, 0nat, count,
{
    if count == 0 {
        assert(one.take(count) =~= other.take(count));
    } else {
        let i = count - 1;
        lemma_unique_upto(bytes, at, one, other, depth_one, depth_other, i);
        lemma_item_reads(bytes, at, one, i, depth_one);
        lemma_item_reads(bytes, at, other, i, depth_other);
        lemma_unique(
            bytes,
            at + wire_all(one.take(i), at).len(),
            one[i],
            other[i],
            depth_one,
            depth_other,
        );
        assert(one.take(count) =~= one.take(i).push(one[i]));
        assert(other.take(count) =~= other.take(i).push(other[i]));
    }
}

/// Of two lists that can be read at one offset, the one with more items, or
/// more bytes, begins with the other, and its next item can be read where
/// the other ends.
pub proof fn lemma_next_item(
    bytes: Seq<u8>,
    at: int,
    sofar: Seq<Value>,
    whole: Seq<Value>,
    depth_sofar: nat,
    depth_whole: nat,
)
    requires
        0 <= at,
        reads_all(bytes, at, sofar, depth_sofar),
        reads_all(bytes, at, whole, depth_whole),
        sofar.len() < whole.len() || wire_all(sofar, at).len() < wire_all(whole, at).len(),
    ensures
        sofar.len() < whole.len(),
        whole.take(sofar.len() as int) == sofar,
        reads(bytes, at + wire_all(sofar, at).len(), whole[sofar.len() as int], depth_whole),
        wire_all(sofar, at).len() + wire(
            whole[sofar.len() as int],
            at + wire_all(sofar, at).len(),
        ).len() <= wire_all(whole, at).len(),
{
    let shared = if sofar.len() <= whole.len() {
        sofar.len() as int
    } else {
        whole.len() as int
    };
    lemma_unique_upto(bytes, at, sofar, whole, depth_sofar, depth_whole, shared);
    assert(sofar.take(sofar.len() as int) =~= sofar);
    assert(whole.take(whole.len() as int) =~= whole);
    if whole.len() <= sofar.len() {
        lemma_wire_all_take(sofar, shared, at, depth_sofar);
    }
    lemma_item_reads(bytes, at, whole, shared, depth_whole);
}

/// A list that can be read, with one more item that can be read where the
/// list ends, can be read as one list.
pub proof fn lemma_reads_push(bytes: Seq<u8>, at: int, items: Seq<Value>, item: Value, depth: nat)
    requires
        0 <= at,
        reads_all(bytes, at, items, depth),
        reads(bytes, at + wire_all(items, at).len(), item, depth),
    ensures
        reads_all(bytes, at, items.push(item), depth),
        wire_all(items.push(item), at).len() == wire_all(items, at).len() + wire(
            item,
            at + wire_all(items, at).len(),
        ).len(),
{
    lemma_wire_all_push(items, item, at, depth);
    lemma_holds_at_join(
        bytes,
        at,
        wire_all(items, at),
        wire(item, at + wire_all(items, at).len()),
    );
}

/// Where a length of four bytes and what follows it stand in `bytes`, the
/// four bytes that stand there are that length, and what follows stands
/// after them.
pub proof fn lemma_counted(bytes: Seq<u8>, at: int, count: u32, found: u32, rest: Seq<u8>)
    requires
        holds_at(bytes, at, u32_bytes(count) + rest),
        holds_at(bytes, at, u32_bytes(found)),
    ensures
        count == found,
        holds_at(bytes, at + 4, rest),
{
    lemma_u32_bytes(count);
    lemma_u32_bytes(found);
    lemma_holds_at_join(bytes, at, u32_bytes(count), rest);
}

} // verus!
