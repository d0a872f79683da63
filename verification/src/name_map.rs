//! A map from names to values that keeps its entries in the order in which
//! their names were first inserted.

use vstd::prelude::*;

use crate::entries::{has_key, key_index, keys, keys_unique, lemma_put_keeps_unique, put, value_of};
use crate::sequence::lemma_position;

verus! {

/// A map from names to values. It holds each name once and keeps its
/// entries in the order in which their names were first inserted.
#[derive(Debug)]
pub struct NameMap<V: View> {
    entries: Vec<(String, V)>,
}

/// The fields of one interface: from a field's name to its type.
pub type FieldMap = NameMap<String>;

/// The interfaces of one source text: from an interface's name to its fields.
pub type InterfaceMap = NameMap<FieldMap>;

/// What a `FieldMap` stands for: name and type of each field, in order.
pub type Fields = Seq<(Seq<char>, Seq<char>)>;

/// What an `InterfaceMap` stands for: name and fields of each interface, in
/// order.
pub type Interfaces = Seq<(Seq<char>, Fields)>;

impl<V: View> View for NameMap<V> {
    type V = Seq<(Seq<char>, V::V)>;

    /// The entries, each as its name and the view of its value, in order.
    closed spec fn view(&self) -> Seq<(Seq<char>, V::V)> {
        entries_view(self.entries@)
    }
}

/// Each entry as its name's characters and the view of its value.
spec fn entries_view<V: View>(entries: Seq<(String, V)>) -> Seq<(Seq<char>, V::V)> {
    entries.map_values(|e: (String, V)| (e.0@, e.1@))
}

impl<V: View> NameMap<V> {
    /// No name stands in two entries.
    #[verifier::type_invariant]
    spec fn names_unique(self) -> bool {
        keys_unique(self@)
    }

    /// A map without entries.
    pub fn new() -> (m: Self)
        ensures
            m@ == Seq::<(Seq<char>, V::V)>::empty(),
    {
        let m = NameMap { entries: Vec::new() };
        assert(m@ =~= Seq::<(Seq<char>, V::V)>::empty());
        m
    }

    /// The number of entries, which is the number of names.
    pub fn len(&self) -> (n: usize)
        ensures
            n == self@.len(),
            keys_unique(self@),
    {
        proof {
            use_type_invariant(self);
        }
        self.entries.len()
    }

    /// Whether the map has no entry.
    pub fn is_empty(&self) -> (b: bool)
        ensures
            b == (self@.len() == 0),
    {
        self.entries.len() == 0
    }

    /// The index of the entry under `name`, or the number of entries.
    fn index_of(&self, name: &String) -> (i: usize)
        ensures
            i == key_index(self@, name@),
            i <= self@.len(),
    {
        let n: usize = self.entries.len();
        let mut i: usize = 0;
        while i < n && !(self.entries[i].0 == *name)
            invariant
                n == self@.len(),
                n == self.entries@.len(),
                i <= n,
                forall|k: int| 0 <= k < i ==> keys(self@)[k] != name@,
            decreases n - i,
        {
            i += 1;
        }
        proof {
            lemma_position(keys(self@), name@, i as int);
        }
        i
    }

    /// Whether the map has an entry under `name`.
    pub fn contains_key(&self, name: &str) -> (b: bool)
        ensures
            b == has_key(self@, name@),
    {
        let key: String = name.to_owned();
        self.index_of(&key) < self.entries.len()
    }

    /// The value under `name`.
    pub fn get(&self, name: &str) -> (r: Option<&V>)
        ensures
            match r {
                Some(value) => value_of(self@, name@) == Some(value@),
                None => value_of(self@, name@) is None,
            },
    {
        let key: String = name.to_owned();
        let i: usize = self.index_of(&key);
        if i < self.entries.len() {
            Some(&self.entries[i].1)
        } else {
            None
        }
    }

    /// Puts `value` under `name`. A name that the map holds keeps its place
    /// and takes the new value; a new name goes to the end.
    pub fn insert(&mut self, name: String, value: V)
        ensures
            final(self)@ == put(old(self)@, name@, value@),
    {
        let i: usize = self.index_of(&name);
        proof {
            use_type_invariant(&*self);
            lemma_put_keeps_unique(self@, name@, value@);
            let entry = (name, value);
            if i < self.entries@.len() {
                assert(entries_view(self.entries@.update(i as int, entry)) =~= self@.update(
                    i as int,
                    (name@, value@),
                ));
            }
            assert(entries_view(self.entries@.push(entry)) =~= self@.push((name@, value@)));
            assert(entries_view(Seq::<(String, V)>::empty()) =~= Seq::<
                (Seq<char>, V::V),
            >::empty());
        }
        // The vector leaves the map while it changes: the map holds unique
        // names at every step.
        let mut entries: Vec<(String, V)> = Vec::new();
        core::mem::swap(&mut self.entries, &mut entries);
        if i < entries.len() {
            entries[i] = (name, value);
        } else {
            entries.push((name, value));
        }
        core::mem::swap(&mut self.entries, &mut entries);
    }

    /// The name of the entry at index `i`.
    pub fn name_at(&self, i: usize) -> (name: &String)
        requires
            i < self@.len(),
        ensures
            name@ == self@[i as int].0,
    {
        &self.entries[i].0
    }

    /// The value of the entry at index `i`.
    pub fn value_at(&self, i: usize) -> (value: &V)
        requires
            i < self@.len(),
        ensures
            value@ == self@[i as int].1,
    {
        &self.entries[i].1
    }
}

} // verus!
