//! Lists of names.
use vstd::prelude::*;

verus! {

/// Whether `i` is the first place where `name` stands.
pub open spec fn first_at(names: Seq<Seq<char>>, name: Seq<char>, i: int) -> bool {
    &&& 0 <= i < names.len()
    &&& names[i] == name
    &&& forall|j: int| 0 <= j < i ==> names[j] != name
}

/// The first place where `name` stands.
pub open spec fn position(names: Seq<Seq<char>>, name: Seq<char>) -> int {
    choose|i: int| first_at(names, name, i)
}

/// Whether no name stands in the list twice.
pub open spec fn distinct(names: Seq<Seq<char>>) -> bool {
    forall|i: int, j: int| 0 <= i < j < names.len() ==> names[i] != names[j]
}

/// There is one first place at most.
pub proof fn lemma_first(names: Seq<Seq<char>>, name: Seq<char>, i: int)
    requires
        first_at(names, name, i),
    ensures
        position(names, name) == i,
{
    let p = position(names, name);
    assert(first_at(names, name, p));
    if p < i {
        assert(names[p] != name);
    }
    if i < p {
        assert(names[i] != name);
    }
}

/// A name that stands in the list has a first place in it.
pub proof fn lemma_listed(names: Seq<Seq<char>>, name: Seq<char>)
    requires
        names.contains(name),
    ensures
        first_at(names, name, position(names, name)),
    decreases names.len(),
{
    if names.drop_last().contains(name) {
        lemma_listed(names.drop_last(), name);
        let p = position(names.drop_last(), name);
        assert forall|j: int| 0 <= j < p implies names[j] != name by {
            assert(names.drop_last()[j] != name);
        }
        assert(first_at(names, name, p));
    } else {
        let last = names.len() - 1;
        assert forall|j: int| 0 <= j < last implies names[j] != name by {
            assert(names.drop_last()[j] == names[j]);
        }
        assert(first_at(names, name, last));
    }
}

/// In a list without repetition, wherever a name stands is its first place.
pub proof fn lemma_distinct_position(names: Seq<Seq<char>>, i: int)
    requires
        distinct(names),
        0 <= i < names.len(),
    ensures
        first_at(names, names[i], i),
        position(names, names[i]) == i,
{
    assert(first_at(names, names[i], i));
    lemma_first(names, names[i], i);
}

} // verus!
