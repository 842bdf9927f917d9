//! The named, typed properties that the controllers of one container fill in.

use crate::systemd::dbus_native::variant::{Value, Variant};
use vstd::prelude::*;

verus! {

/// Whether two strings hold the same text.
pub fn same_text(a: &str, b: &str) -> (same: bool)
    ensures
        same == (a@ == b@),
{
    let x = a.as_bytes();
    let y = b.as_bytes();
    if x.len() != y.len() {
        return false;
    }
    let mut i: usize = 0;
    while i < x.len()
        invariant
            i <= x.len(),
            x.len() == y.len(),
            x@ == vstd::utf8::encode_utf8(a@),
            y@ == vstd::utf8::encode_utf8(b@),
            forall|k: int| 0 <= k < i ==> x[k] == y[k],
        decreases x.len() - i,
    {
        if x[i] != y[i] {
            return false;
        }
        i += 1;
    }
    proof {
        // a string is determined by its UTF-8 bytes
        assert(x@ =~= y@);
        vstd::utf8::encode_utf8_decode_utf8(a@);
        vstd::utf8::encode_utf8_decode_utf8(b@);
    }
    true
}

struct Entry {
    name: String,
    value: Variant,
}

/// A mapping from property names to typed values. No name occurs twice; the
/// order of the entries carries no meaning.
pub struct PropertyMap {
    entries: Vec<Entry>,
}

impl View for PropertyMap {
    type V = Map<Seq<char>, Value>;

    closed spec fn view(&self) -> Map<Seq<char>, Value> {
        Map::new(
            |name: Seq<char>| self.names().contains(name),
            |name: Seq<char>| self.entries[self.names().index_of(name)].value@,
        )
    }
}

impl PropertyMap {
    #[verifier::type_invariant]
    spec fn distinct_names(self) -> bool {
        forall|i: int, j: int|
            0 <= i < j < self.entries.len() ==> self.entries[i].name@ != self.entries[j].name@
    }

    /// The names of the entries, in the order in which [`Self::entry_at`] hands
    /// them out.
    pub closed spec fn names(self) -> Seq<Seq<char>> {
        Seq::new(self.entries.len() as nat, |i: int| self.entries[i].name@)
    }

    /// The names are exactly the keys of the map.
    pub proof fn lemma_names_are_keys(self)
        ensures
            self.names().to_set() == self@.dom(),
    {
        assert(self.names().to_set() =~= self@.dom());
    }

    /// A map without entries.
    pub fn new() -> (properties: PropertyMap)
        ensures
            properties@ == Map::<Seq<char>, Value>::empty(),
    {
        let properties = PropertyMap { entries: Vec::new() };
        assert(properties@ =~= Map::<Seq<char>, Value>::empty());
        properties
    }

    /// The number of entries.
    pub fn len(&self) -> (count: usize)
        ensures
            count == self@.len(),
            count == self.names().len(),
            self.names().no_duplicates(),
    {
        proof {
            use_type_invariant(self);
            self.lemma_names_are_keys();
            self.names().unique_seq_to_set();
        }
        self.entries.len()
    }

    /// Whether the map has no entries.
    pub fn is_empty(&self) -> (empty: bool)
        ensures
            empty == (self@.len() == 0),
    {
        self.len() == 0
    }

    /// The place of the entry called `name`, if there is one.
    fn position(&self, name: &str) -> (found: Option<usize>)
        ensures
            match found {
                Some(i) => i < self.names().len() && self.names()[i as int] == name@,
                None => !self.names().contains(name@),
            },
    {
        let mut i: usize = 0;
        while i < self.entries.len()
            invariant
                i <= self.entries.len(),
                forall|k: int| 0 <= k < i ==> self.names()[k] != name@,
            decreases self.entries.len() - i,
        {
            if same_text(self.entries[i].name.as_str(), name) {
                return Some(i);
            }
            i += 1;
        }
        None
    }

    /// Whether the map has an entry called `name`.
    pub fn contains_key(&self, name: &str) -> (present: bool)
        ensures
            present == self@.contains_key(name@),
    {
        self.position(name).is_some()
    }

    /// The value of the entry called `name`.
    pub fn get(&self, name: &str) -> (found: Option<&Variant>)
        ensures
            match found {
                Some(value) => self@.contains_key(name@) && value@ == self@[name@],
                None => !self@.contains_key(name@),
            },
    {
        match self.position(name) {
            Some(i) => {
                proof {
                    use_type_invariant(self);
                    let j = self.names().index_of(name@);
                    assert(self.names()[j] == name@);
                    assert(j == i);
                }
                Some(&self.entries[i].value)
            },
            None => None,
        }
    }

    /// The entry at `index`, for walking over the map: `None` from
    /// `self.len()` on.
    pub fn entry_at(&self, index: usize) -> (found: Option<(&str, &Variant)>)
        ensures
            match found {
                Some((name, value)) => {
                    &&& index < self.names().len()
                    &&& name@ == self.names()[index as int]
                    &&& self@.contains_key(name@)
                    &&& value@ == self@[name@]
                },
                None => index >= self.names().len(),
            },
    {
        if index < self.entries.len() {
            proof {
                use_type_invariant(self);
                let name = self.names()[index as int];
                let j = self.names().index_of(name);
                assert(self.names()[j] == name);
                assert(j == index);
            }
            Some((self.entries[index].name.as_str(), &self.entries[index].value))
        } else {
            None
        }
    }

    /// Sets the entry called `name` to `value` and returns the value that it
    /// replaces, if there was one. No other entry changes.
    pub fn insert(&mut self, name: &str, value: Variant) -> (previous: Option<Variant>)
        ensures
            final(self)@ == old(self)@.insert(name@, value@),
            match previous {
                Some(replaced) => old(self)@.contains_key(name@) && replaced@ == old(self)@[name@],
                None => !old(self)@.contains_key(name@),
            },
    {
        proof {
            use_type_invariant(&*self);
        }
        let ghost before = *self;
        let found = self.position(name);
        let mut entry = Entry { name: name.to_owned(), value };
        let mut entries: Vec<Entry> = Vec::new();
        core::mem::swap(&mut self.entries, &mut entries);
        let previous = match found {
            Some(i) => {
                proof {
                    let j = before.names().index_of(name@);
                    assert(before.names()[j] == name@);
                    assert(j == i);
                }
                entries.set_and_swap(i, &mut entry);
                Some(entry.value)
            },
            None => {
                entries.push(entry);
                None
            },
        };
        proof {
            assert forall|i: int, j: int| 0 <= i < j < entries.len() implies entries[i].name@
                != entries[j].name@ by {
                if j == before.entries.len() {
                    assert(before.names()[i] == before.entries[i].name@);
                }
            }
        }
        core::mem::swap(&mut self.entries, &mut entries);
        proof {
            let after = *self;
            let target = before@.insert(name@, value@);
            if found is Some {
                assert(after.names() =~= before.names());
            } else {
                assert(after.names() =~= before.names().push(name@));
                assert(after.names()[before.names().len() as int] == name@);
            }
            assert forall|key: Seq<char>| #[trigger]
                after@.contains_key(key) == target.contains_key(key) by {
                if before.names().contains(key) {
                    let j = before.names().index_of(key);
                    assert(after.names()[j] == key);
                }
                if after.names().contains(key) && key != name@ {
                    let j = after.names().index_of(key);
                    assert(before.names()[j] == key);
                }
            }
            assert forall|key: Seq<char>| after@.contains_key(key) implies #[trigger] after@[key]
                == target[key] by {
                let j = after.names().index_of(key);
                assert(after.names()[j] == key);
                if key != name@ {
                    let k = before.names().index_of(key);
                    assert(before.names()[j] == key);
                    assert(before.names()[k] == key);
                    assert(j == k);
                }
            }
            assert(after@ =~= target);
        }
        previous
    }
}

} // verus!
