//! Writing property values to their wire form and reading them back.

use crate::systemd::dbus_native::reader::read_value;
use crate::systemd::dbus_native::unique::{lemma_unique, reads};
pub use crate::systemd::dbus_native::variant::{Value, Variant};
use crate::systemd::dbus_native::wire::{encodable, wire, MAX_NESTING};
use crate::systemd::dbus_native::writer::write_value;
use vstd::prelude::*;

verus! {

/// Why a value could not be written or read.
#[derive(Debug, Clone, Copy, PartialEq, Eq)]
pub enum WireError {
    /// The value has no wire form: a string or an array in it is too long,
    /// a struct has no field or too many, or it is nested too deeply.
    Unencodable,
    /// The bytes are not the wire form of any value.
    Malformed,
}

impl Variant {
    /// Appends the wire form of this value to `buf`, as it must stand at
    /// the offset where `buf` ends. A value that has no wire form is
    /// refused, and `buf` is then left as it was.
    pub fn serialize(&self, buf: &mut Vec<u8>) -> (result: Result<(), WireError>)
        ensures
            match result {
                Ok(()) => {
                    &&& encodable(self@, old(buf)@.len() as int, MAX_NESTING as nat)
                    &&& final(buf)@ == old(buf)@ + wire(self@, old(buf)@.len() as int)
                },
                Err(error) => {
                    &&& error == WireError::Unencodable
                    &&& !encodable(self@, old(buf)@.len() as int, MAX_NESTING as nat)
                    &&& final(buf)@ == old(buf)@
                },
            },
    {
        let start = buf.len();
        let result = write_value(self, buf, MAX_NESTING);
        if result.is_err() {
            buf.truncate(start);
        }
        result
    }

    /// Reads the value whose wire form begins at offset `*counter` of `buf`
    /// and moves `counter` to where it ends. Where the bytes there are the
    /// wire form of no value, `counter` stays where it was.
    pub fn deserialize(buf: &[u8], counter: &mut usize) -> (result: Result<Variant, WireError>)
        ensures
            match result {
                Ok(value) => {
                    &&& reads(buf@, *old(counter) as int, value@, MAX_NESTING as nat)
                    &&& *final(counter) == *old(counter) + wire(value@, *old(counter) as int).len()
                },
                Err(error) => {
                    &&& error == WireError::Malformed
                    &&& *final(counter) == *old(counter)
                    &&& forall|value: Value|
                        !#[trigger] reads(buf@, *old(counter) as int, value, MAX_NESTING as nat)
                },
            },
    {
        match read_value(buf, *counter, MAX_NESTING) {
            Some((value, end)) => {
                *counter = end;
                Ok(value)
            },
            None => Err(WireError::Malformed),
        }
    }

    /// Writes this value to an empty buffer and reads it back: the value
    /// that comes back is this value, tag and all. Only a value that has no
    /// wire form fails.
    pub fn recast(&self) -> (result: Result<Variant, WireError>)
        ensures
            match result {
                Ok(copy) => copy@ == self@ && encodable(self@, 0, MAX_NESTING as nat),
                Err(error) => error == WireError::Unencodable && !encodable(
                    self@,
                    0,
                    MAX_NESTING as nat,
                ),
            },
    {
        let mut buf: Vec<u8> = Vec::new();
        match self.serialize(&mut buf) {
            Ok(()) => {},
            Err(error) => {
                return Err(error);
            },
        }
        let mut counter: usize = 0;
        let result = Variant::deserialize(buf.as_slice(), &mut counter);
        proof {
            lemma_round_trip(Seq::empty(), self@, Seq::empty(), self@);
            assert(Seq::<u8>::empty() + wire(self@, 0) + Seq::<u8>::empty() =~= buf@);
            if result is Ok {
                lemma_unique(
                    buf@,
                    0,
                    result->Ok_0@,
                    self@,
                    MAX_NESTING as nat,
                    MAX_NESTING as nat,
                );
            }
        }
        result
    }
}

/// Writing and reading are inverse to each other. The wire form of a value,
/// whatever stands before and after it, can be read where it begins, and
/// what can be read there is that value and no other.
pub proof fn lemma_round_trip(before: Seq<u8>, value: Value, after: Seq<u8>, other: Value)
    requires
        encodable(value, before.len() as int, MAX_NESTING as nat),
    ensures
        reads(
            before + wire(value, before.len() as int) + after,
            before.len() as int,
            value,
            MAX_NESTING as nat,
        ),
        reads(
            before + wire(value, before.len() as int) + after,
            before.len() as int,
            other,
            MAX_NESTING as nat,
        ) ==> other == value,
{
    let at = before.len() as int;
    let bytes = before + wire(value, at) + after;
    assert(bytes.subrange(at, at + wire(value, at).len()) =~= wire(value, at));
    if reads(bytes, at, other, MAX_NESTING as nat) {
        lemma_unique(bytes, at, other, value, MAX_NESTING as nat, MAX_NESTING as nat);
    }
}

} // verus!
