//! Document values: a tree of arrays, objects and scalars, and the
//! mathematical model that the contracts of this crate speak of.

use crate::assoc::{distinct_keys, find_key, keys, lemma_put, lookup, put, stored_keys};
use vstd::prelude::*;

verus! {

/// `serde_json::Number`, a number of a document. It is carried through as
/// it is: nothing in this crate looks inside.
#[verifier::external_type_specification]
#[verifier::external_body]
pub struct ExNumber(serde_json::Number);

/// `Clone::clone` of `serde_json::Number`, which `derive` wrote: the copy is
/// the number it was made from.
pub assume_specification[ <serde_json::Number as Clone>::clone ](
    number: &serde_json::Number,
) -> (r: serde_json::Number)
    ensures
        r == *number,
;

/// The model of a document value. A string is the sequence of its
/// characters, an object the sequence of its entries in the order in which
/// its keys were first written.
pub enum Json {
    Null,
    Bool(bool),
    Number(serde_json::Number),
    String(Seq<char>),
    Array(Seq<Json>),
    Object(Seq<(Seq<char>, Json)>),
}

/// A document value.
#[derive(Debug, PartialEq)]
pub enum Value {
    Null,
    Bool(bool),
    Number(serde_json::Number),
    String(String),
    Array(Vec<Value>),
    Object(Object),
}

/// An object of a document: values under distinct keys, kept in the order in
/// which the keys were first written. Two objects are equal where they hold
/// the same entries in the same order.
#[derive(Debug, PartialEq)]
pub struct Object {
    entries: Vec<(String, Value)>,
}

/// The items that a value stands for where one or many are accepted: the
/// items of an array, or the value itself.
pub open spec fn one_or_many(value: Json) -> Seq<Json> {
    match value {
        Json::Array(items) => items,
        _ => seq![value],
    }
}

impl View for Value {
    type V = Json;

    open spec fn view(&self) -> Json
        decreases self,
    {
        match self {
            Value::Null => Json::Null,
            Value::Bool(b) => Json::Bool(*b),
            Value::Number(n) => Json::Number(*n),
            Value::String(s) => Json::String(s@),
            Value::Array(items) => Json::Array(
                Seq::new(
                    items@.len(),
                    |i: int|
                        if 0 <= i < items@.len() {
                            items@[i]@
                        } else {
                            Json::Null
                        },
                ),
            ),
            Value::Object(object) => Json::Object(object@),
        }
    }
}

impl View for Object {
    type V = Seq<(Seq<char>, Json)>;

    closed spec fn view(&self) -> Seq<(Seq<char>, Json)>
        decreases self,
    {
        Seq::new(
            self.entries@.len(),
            |i: int|
                if 0 <= i < self.entries@.len() {
                    (self.entries@[i].0@, self.entries@[i].1@)
                } else {
                    (Seq::empty(), Json::Null)
                },
        )
    }
}

/// The model of stored entries.
spec fn entries_view(entries: Seq<(String, Value)>) -> Seq<(Seq<char>, Json)> {
    Seq::new(entries.len(), |i: int| (entries[i].0@, entries[i].1@))
}

impl Value {
    /// The characters of a string value.
    pub fn as_str(&self) -> (r: Option<&str>)
        ensures
            match self@ {
                Json::String(s) => r matches Some(t) && t@ == s,
                _ => r is None,
            },
    {
        match self {
            Value::String(s) => Some(s.as_str()),
            _ => None,
        }
    }

    /// Whether the value is `null`.
    pub fn is_null(&self) -> (r: bool)
        ensures
            r == (self@ is Null),
    {
        match self {
            Value::Null => true,
            _ => false,
        }
    }

    /// Whether the value is a string.
    pub fn is_string(&self) -> (r: bool)
        ensures
            r == (self@ is String),
    {
        match self {
            Value::String(_) => true,
            _ => false,
        }
    }
}

impl Object {
    #[verifier::type_invariant]
    spec fn well_formed(&self) -> bool {
        distinct_keys(self@)
    }

    /// The empty object.
    pub fn new() -> (r: Object)
        ensures
            r@ == Seq::<(Seq<char>, Json)>::empty(),
    {
        let r = Object { entries: Vec::new() };
        assert(r@ =~= Seq::<(Seq<char>, Json)>::empty());
        r
    }

    /// The number of entries. No key stands in an object twice.
    pub fn len(&self) -> (r: usize)
        ensures
            r == self@.len(),
            distinct_keys(self@),
    {
        proof {
            use_type_invariant(self);
        }
        self.entries.len()
    }

    /// The entry at position `i`: its key and its value.
    pub fn entry(&self, i: usize) -> (r: (&String, &Value))
        requires
            i < self@.len(),
        ensures
            (r.0@, r.1@) == self@[i as int],
            decreases_to!(self => r.1),
    {
        (&self.entries[i].0, &self.entries[i].1)
    }

    /// The value under `key`, if the object has that key.
    pub fn get(&self, key: &str) -> (r: Option<&Value>)
        ensures
            match lookup(self@, key@) {
                Some(v) => r matches Some(found) && found@ == v,
                None => r is None,
            },
            r matches Some(found) ==> decreases_to!(self => found),
    {
        assert(keys(self@) =~= stored_keys(self.entries@));
        match find_key(&self.entries, key) {
            Some(i) => Some(&self.entries[i].1),
            None => None,
        }
    }

    /// Writes `value` under `key`. A key that the object has keeps its place
    /// and loses its old value; a new key goes to the end.
    pub fn insert(&mut self, key: String, value: Value)
        ensures
            final(self)@ == put(old(self)@, key@, value@),
            distinct_keys(final(self)@),
    {
        proof {
            use_type_invariant(&*self);
            lemma_put(self@, key@, value@);
            assert(keys(self@) =~= stored_keys(self.entries@));
        }
        let ghost before = self@;
        let mut entries: Vec<(String, Value)> = Vec::new();
        core::mem::swap(&mut self.entries, &mut entries);
        assert(entries_view(entries@) =~= before);
        match find_key(&entries, key.as_str()) {
            Some(i) => {
                entries.set(i, (key, value));
            },
            None => {
                entries.push((key, value));
            },
        }
        assert(entries_view(entries@) =~= put(before, key@, value@));
        core::mem::swap(&mut self.entries, &mut entries);
        assert(self@ =~= put(before, key@, value@));
    }
}

impl Clone for Value {
    #[verifier::loop_isolation(false)]
    fn clone(&self) -> (r: Self)
        ensures
            r@ == self@,
        decreases self,
    {
        match self {
            Value::Null => Value::Null,
            Value::Bool(b) => Value::Bool(*b),
            Value::Number(n) => Value::Number(n.clone()),
            Value::String(s) => Value::String(s.clone()),
            Value::Array(items) => {
                let mut copies: Vec<Value> = Vec::new();
                let mut i: usize = 0;
                while i < items.len()
                    invariant
                        i <= items@.len(),
                        copies@.len() == i,
                        forall|j: int| 0 <= j < i ==> (#[trigger] copies@[j])@ == items@[j]@,
                    decreases items@.len() - i,
                {
                    let copy = items[i].clone();
                    copies.push(copy);
                    i += 1;
                }
                let r = Value::Array(copies);
                assert(r@->Array_0 =~= self@->Array_0);
                r
            },
            Value::Object(object) => Value::Object(object.clone()),
        }
    }
}

impl Clone for Object {
    #[verifier::loop_isolation(false)]
    fn clone(&self) -> (r: Self)
        ensures
            r@ == self@,
        decreases self,
    {
        proof {
            use_type_invariant(self);
        }
        let mut entries: Vec<(String, Value)> = Vec::new();
        let mut i: usize = 0;
        while i < self.entries.len()
            invariant
                i <= self.entries@.len(),
                entries@.len() == i,
                forall|j: int|
                    0 <= j < i ==> (#[trigger] entries@[j]).0@ == self.entries@[j].0@
                        && entries@[j].1@ == self.entries@[j].1@,
            decreases self.entries@.len() - i,
        {
            let key = self.entries[i].0.clone();
            let value = self.entries[i].1.clone();
            entries.push((key, value));
            i += 1;
        }
        assert((Object { entries })@ =~= self@);
        Object { entries }
    }
}

impl Default for Object {
    fn default() -> (r: Object)
        ensures
            r@ == Seq::<(Seq<char>, Json)>::empty(),
    {
        Object::new()
    }
}

/// Walks the items of a value that may or may not be an array.
pub struct OneOrMany<'a> {
    source: &'a Value,
    taken: usize,
}

impl<'a> OneOrMany<'a> {
    #[verifier::type_invariant]
    spec fn well_formed(&self) -> bool {
        self.taken <= one_or_many(self.source@).len()
    }

    /// The items that are still to come, in order.
    pub closed spec fn remaining(&self) -> Seq<Json> {
        one_or_many(self.source@).skip(self.taken as int)
    }

    /// The walk over `value`: over its items where it is an array, else over
    /// the value alone.
    pub fn from(value: &'a Value) -> (r: OneOrMany<'a>)
        ensures
            r.remaining() == one_or_many(value@),
    {
        let r = OneOrMany { source: value, taken: 0 };
        assert(r.remaining() =~= one_or_many(value@));
        r
    }

    /// Hands out the next item, or `None` when all were handed out.
    pub fn next(&mut self) -> (r: Option<&'a Value>)
        ensures
            match r {
                Some(item) => old(self).remaining().len() > 0 && item@ == old(
                    self,
                ).remaining()[0] && final(self).remaining() == old(self).remaining().drop_first(),
                None => old(self).remaining().len() == 0 && final(self).remaining() == old(
                    self,
                ).remaining(),
            },
    {
        proof {
            use_type_invariant(&*self);
        }
        let source = self.source;
        let taken = self.taken;
        match source {
            Value::Array(items) => {
                if taken < items.len() {
                    self.taken = taken + 1;
                    assert(self.remaining() =~= old(self).remaining().drop_first());
                    Some(&items[taken])
                } else {
                    None
                }
            },
            single => {
                if taken == 0 {
                    self.taken = 1;
                    assert(self.remaining() =~= old(self).remaining().drop_first());
                    Some(single)
                } else {
                    None
                }
            },
        }
    }
}

} // verus!
