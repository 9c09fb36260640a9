//! A table from names to names, as a context keeps for its prefixes, aliases
//! and container mappings.

use crate::assoc::{
    del, distinct_keys, find_key, keys, lemma_del, lemma_lookup, lemma_put, put, stored_keys,
    to_map,
};
use crate::text::lemma_first_index;
use vstd::prelude::*;

verus! {

/// A finite mapping from strings to strings.
#[derive(Debug)]
pub struct Table {
    entries: Vec<(String, String)>,
}

impl View for Table {
    type V = Map<Seq<char>, Seq<char>>;

    closed spec fn view(&self) -> Map<Seq<char>, Seq<char>> {
        to_map(self.pairs())
    }
}

impl Table {
    /// The stored entries, in the order in which their keys were first set.
    pub closed spec fn pairs(&self) -> Seq<(Seq<char>, Seq<char>)> {
        Seq::new(self.entries@.len(), |i: int| (self.entries@[i].0@, self.entries@[i].1@))
    }

    #[verifier::type_invariant]
    spec fn well_formed(&self) -> bool {
        distinct_keys(self.pairs())
    }

    /// The empty table.
    pub fn new() -> (r: Table)
        ensures
            r@ == Map::<Seq<char>, Seq<char>>::empty(),
    {
        let r = Table { entries: Vec::new() };
        assert(r@ =~= Map::<Seq<char>, Seq<char>>::empty());
        r
    }

    /// The number of keys.
    pub fn len(&self) -> (r: usize)
        ensures
            r == self@.len(),
    {
        proof {
            use_type_invariant(self);
            lemma_len(self.pairs());
        }
        self.entries.len()
    }

    /// The value for `key`, if the table holds one.
    pub fn get(&self, key: &str) -> (r: Option<&String>)
        ensures
            r is Some <==> self@.contains_key(key@),
            r matches Some(v) ==> v@ == self@[key@],
    {
        proof {
            lemma_lookup(self.pairs(), key@);
            assert(keys(self.pairs()) =~= stored_keys(self.entries@));
        }
        match find_key(&self.entries, key) {
            Some(i) => Some(&self.entries[i].1),
            None => None,
        }
    }

    /// Sets `key` to `value`, in place of any value it had.
    pub fn insert(&mut self, key: String, value: String)
        ensures
            final(self)@ == old(self)@.insert(key@, value@),
    {
        proof {
            use_type_invariant(&*self);
            lemma_put(self.pairs(), key@, value@);
            assert(keys(self.pairs()) =~= stored_keys(self.entries@));
        }
        let ghost before = self.pairs();
        let mut entries: Vec<(String, String)> = Vec::new();
        core::mem::swap(&mut self.entries, &mut entries);
        match find_key(&entries, key.as_str()) {
            Some(i) => {
                entries.set(i, (key, value));
            },
            None => {
                entries.push((key, value));
            },
        }
        assert(Seq::new(entries@.len(), |i: int| (entries@[i].0@, entries@[i].1@)) =~= put(
            before,
            key@,
            value@,
        ));
        core::mem::swap(&mut self.entries, &mut entries);
    }

    /// Takes `key` and its value out of the table.
    pub fn remove(&mut self, key: &str)
        ensures
            final(self)@ == old(self)@.remove(key@),
    {
        proof {
            use_type_invariant(&*self);
            lemma_del(self.pairs(), key@);
            assert(keys(self.pairs()) =~= stored_keys(self.entries@));
        }
        let ghost before = self.pairs();
        let mut entries: Vec<(String, String)> = Vec::new();
        core::mem::swap(&mut self.entries, &mut entries);
        match find_key(&entries, key) {
            Some(i) => {
                entries.remove(i);
            },
            None => {},
        }
        assert(Seq::new(entries@.len(), |i: int| (entries@[i].0@, entries@[i].1@)) =~= del(
            before,
            key@,
        ));
        core::mem::swap(&mut self.entries, &mut entries);
    }
}

impl Clone for Table {
    fn clone(&self) -> (r: Self)
        ensures
            r@ == self@,
    {
        proof {
            use_type_invariant(self);
        }
        let mut entries: Vec<(String, String)> = Vec::new();
        let mut i: usize = 0;
        while i < self.entries.len()
            invariant
                i <= self.entries@.len(),
                entries@.len() == i,
                forall|j: int|
                    0 <= j < i ==> (#[trigger] entries@[j]).0@ == self.entries@[j].0@
                        && entries@[j].1@ == self.entries@[j].1@,
            decreases self.entries@.len() - i,
        {
            let key = self.entries[i].0.clone();
            let value = self.entries[i].1.clone();
            entries.push((key, value));
            i += 1;
        }
        let ghost pairs = Seq::new(entries@.len(), |i: int| (entries@[i].0@, entries@[i].1@));
        assert(pairs =~= self.pairs());
        let r = Table { entries };
        assert(r.pairs() =~= self.pairs());
        r
    }
}

impl Default for Table {
    fn default() -> (r: Table)
        ensures
            r@ == Map::<Seq<char>, Seq<char>>::empty(),
    {
        Table::new()
    }
}

/// A table with distinct keys has as many keys as entries.
proof fn lemma_len(pairs: Seq<(Seq<char>, Seq<char>)>)
    requires
        distinct_keys(pairs),
    ensures
        to_map(pairs).dom().finite(),
        to_map(pairs).len() == pairs.len(),
    decreases pairs.len(),
{
    if pairs.len() == 0 {
        assert(to_map(pairs) =~= Map::<Seq<char>, Seq<char>>::empty());
    } else {
        let front = pairs.drop_last();
        let last = pairs.last();
        assert forall|i: int, j: int| 0 <= i < j < front.len() implies (#[trigger] front[i]).0 != (
        #[trigger] front[j]).0 by {
            assert(pairs[i].0 != pairs[j].0);
        }
        lemma_len(front);
        lemma_put(front, last.0, last.1);
        lemma_first_index(keys(front), last.0);
        if keys(front).contains(last.0) {
            let j = choose|j: int| 0 <= j < front.len() && keys(front)[j] == last.0;
            assert(pairs[j].0 != pairs[pairs.len() - 1].0);
        }
        assert(put(front, last.0, last.1) =~= pairs);
    }
}

} // verus!
