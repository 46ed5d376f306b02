//! Items found by name and kept in the order in which they came.
use crate::names::distinct;
use indexmap::IndexMap;
use vstd::prelude::*;

verus! {

/// `indexmap::IndexMap`: a hash map that keeps its entries in the order of insertion.
#[verifier::external_type_specification]
#[verifier::external_body]
#[verifier::reject_recursive_types(K)]
#[verifier::reject_recursive_types(V)]
#[verifier::reject_recursive_types(S)]
pub struct ExIndexMap<K, V, S>(IndexMap<K, V, S>);

/// The entries of an index map, in the map's order: each key's text, and the value stored
/// for it.
pub uninterp spec fn entries(map: IndexMap<String, usize>) -> Seq<(Seq<char>, usize)>;

/// Whether some entry has this key.
pub open spec fn has_key(entries: Seq<(Seq<char>, usize)>, key: Seq<char>) -> bool {
    exists|i: int| 0 <= i < entries.len() && #[trigger] entries[i].0 == key
}

/// `IndexMap::default` makes a map without entries.
#[verifier::external_body]
pub(crate) fn index_map_default() -> (map: IndexMap<String, usize>)
    ensures
        entries(map) == Seq::<(Seq<char>, usize)>::empty(),
{
    IndexMap::default()
}

/// `IndexMap::get` returns the value that is stored for the key, and `None` where no entry has
/// that key. Two texts are the same key where they hold the same characters.
#[verifier::external_body]
pub(crate) fn index_map_get(map: &IndexMap<String, usize>, key: &str) -> (value: Option<usize>)
    ensures
        match value {
            Some(value) => exists|i: int|
                0 <= i < entries(*map).len() && #[trigger] entries(*map)[i] == (key@, value),
            None => !has_key(entries(*map), key@),
        },
{
    map.get(key).copied()
}

/// `IndexMap::insert` replaces the value of the entry that has the key, which stays in its
/// place, and returns the value that was there. Where no entry has the key, it adds one after
/// all the others, and returns `None`.
#[verifier::external_body]
pub(crate) fn index_map_insert(
    map: &mut IndexMap<String, usize>,
    key: String,
    value: usize,
) -> (replaced: Option<usize>)
    ensures
        match replaced {
            Some(previous) => exists|i: int|
                {
                    &&& 0 <= i < entries(*old(map)).len()
                    &&& #[trigger] entries(*old(map))[i] == (key@, previous)
                    &&& entries(*final(map)) == entries(*old(map)).update(i, (key@, value))
                },
            None => {
                &&& !has_key(entries(*old(map)), key@)
                &&& entries(*final(map)) == entries(*old(map)).push((key@, value))
            },
        },
{
    map.insert(key, value)
}

/// `IndexMap::clone` makes a map with the same entries in the same order.
#[verifier::external_body]
pub(crate) fn index_map_clone(map: &IndexMap<String, usize>) -> (copy: IndexMap<String, usize>)
    ensures
        entries(copy) == entries(*map),
{
    map.clone()
}

/// Items, each under a name of its own, in the order in which they were added.
#[derive(Debug)]
pub struct OrderedMap<T> {
    /// Where the item with each name stands.
    slots: IndexMap<String, usize>,
    items: Vec<T>,
}

impl<T> View for OrderedMap<T> {
    type V = Seq<T>;

    closed spec fn view(&self) -> Seq<T> {
        self.items@
    }
}

impl<T: Clone> Clone for OrderedMap<T> {
    fn clone(&self) -> (copy: OrderedMap<T>)
        ensures
            self.valid() ==> copy.valid(),
            copy.keys() == self.keys(),
            copy@.len() == self@.len(),
            forall|i: int| 0 <= i < self@.len() ==> cloned(self@[i], #[trigger] copy@[i]),
    {
        OrderedMap { slots: index_map_clone(&self.slots), items: self.items.clone() }
    }
}

impl<T> OrderedMap<T> {
    /// The name of each item.
    pub closed spec fn keys(&self) -> Seq<Seq<char>> {
        entries(self.slots).map_values(|entry: (Seq<char>, usize)| entry.0)
    }

    /// Whether every item has a name of its own, and is found under it.
    pub closed spec fn valid(&self) -> bool {
        &&& entries(self.slots).len() == self.items@.len()
        &&& forall|i: int|
            0 <= i < self.items@.len() ==> (#[trigger] entries(self.slots)[i]).1 == i
        &&& distinct(self.keys())
    }

    /// What validity says of names and items.
    pub proof fn lemma_valid(&self)
        requires
            self.valid(),
        ensures
            self.keys().len() == self@.len(),
            distinct(self.keys()),
    {
    }

    /// A map without items.
    pub fn new() -> (map: OrderedMap<T>)
        ensures
            map.valid(),
            map@ == Seq::<T>::empty(),
            map.keys() == Seq::<Seq<char>>::empty(),
    {
        OrderedMap { slots: index_map_default(), items: Vec::new() }
    }

    /// The number of items.
    pub fn len(&self) -> (len: usize)
        ensures
            len == self@.len(),
    {
        self.items.len()
    }

    /// The item in the given place.
    pub fn at(&self, i: usize) -> (item: &T)
        requires
            i < self@.len(),
        ensures
            *item == self@[i as int],
    {
        &self.items[i]
    }

    /// The place of the item with this name.
    pub fn find(&self, key: &str) -> (place: Option<usize>)
        requires
            self.valid(),
        ensures
            match place {
                Some(i) => i < self@.len() && self.keys()[i as int] == key@,
                None => !self.keys().contains(key@),
            },
    {
        let place = index_map_get(&self.slots, key);
        proof {
            if place is None && self.keys().contains(key@) {
                let i = self.keys().index_of(key@);
                assert(entries(self.slots)[i].0 == key@);
            }
        }
        place
    }

    /// The item with this name.
    pub fn get(&self, key: &str) -> (item: Option<&T>)
        requires
            self.valid(),
        ensures
            match item {
                Some(item) => exists|i: int|
                    0 <= i < self@.len() && #[trigger] self.keys()[i] == key@ && *item == self@[i],
                None => !self.keys().contains(key@),
            },
    {
        match self.find(key) {
            Some(i) => Some(self.at(i)),
            None => None,
        }
    }

    /// Adds an item, under a name that no other item has.
    pub fn push(&mut self, key: String, item: T)
        requires
            old(self).valid(),
            !old(self).keys().contains(key@),
        ensures
            final(self).valid(),
            final(self)@ == old(self)@.push(item),
            final(self).keys() == old(self).keys().push(key@),
    {
        let place = self.items.len();
        let ghost before = entries(self.slots);
        let replaced = index_map_insert(&mut self.slots, key, place);
        proof {
            if replaced is Some {
                let i = choose|i: int|
                    0 <= i < before.len() && #[trigger] before[i] == (key@, replaced->0);
                assert(old(self).keys()[i] == key@);
            }
        }
        self.items.push(item);
        proof {
            assert(self.keys() =~= old(self).keys().push(key@));
            assert forall|i: int, j: int| 0 <= i < j < self.keys().len() implies self.keys()[i]
                != self.keys()[j] by {
                if j == old(self).keys().len() {
                    assert(old(self).keys()[i] == self.keys()[i]);
                }
            }
        }
    }

    /// The item in the given place, to be changed there.
    pub fn at_mut(&mut self, i: usize) -> (item: &mut T)
        requires
            old(self).valid(),
            i < old(self)@.len(),
        ensures
            *item == old(self)@[i as int],
            final(self).valid(),
            final(self)@ == old(self)@.update(i as int, *final(item)),
            final(self).keys() == old(self).keys(),
    {
        &mut self.items[i]
    }
}

} // verus!
