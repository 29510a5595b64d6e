//! Looking names up in ordered tables.
//!
//! Resources and processes are kept in the order in which they were
//! created and are found by name. The functions here say where a name
//! stands in such a table.

use vstd::prelude::*;

verus! {

/// The first place at which `name` stands in `names`, or the length of
/// `names` when it does not occur.
pub open spec fn position(names: Seq<Seq<char>>, name: Seq<char>) -> int
    decreases names.len(),
{
    if names.len() > 0 && names[0] != name {
        1 + position(names.drop_first(), name)
    } else {
        0
    }
}

/// Whether `name` occurs in `names`.
pub open spec fn listed(names: Seq<Seq<char>>, name: Seq<char>) -> bool {
    position(names, name) < names.len()
}

/// Whether no name occurs twice.
pub open spec fn distinct(names: Seq<Seq<char>>) -> bool {
    forall|i: int, j: int| 0 <= i < j < names.len() ==> names[i] != names[j]
}

/// `position` lies within the table or just behind it; the name stands
/// there if it lies within, and nowhere before.
pub proof fn lemma_position(names: Seq<Seq<char>>, name: Seq<char>)
    ensures
        0 <= position(names, name) <= names.len(),
        position(names, name) < names.len() ==> names[position(names, name)] == name,
        forall|j: int| 0 <= j < position(names, name) ==> names[j] != name,
    decreases names.len(),
{
    if names.len() > 0 && names[0] != name {
        let rest = names.drop_first();
        lemma_position(rest, name);
        let k = position(rest, name);
        assert forall|j: int| 0 <= j < k + 1 implies names[j] != name by {
            if j > 0 {
                assert(names[j] == rest[j - 1]);
            }
        }
        if k + 1 < names.len() {
            assert(names[k + 1] == rest[k]);
        }
    }
}

/// The place found by scanning from the front is `position`.
pub proof fn lemma_position_found(names: Seq<Seq<char>>, name: Seq<char>, i: int)
    requires
        0 <= i <= names.len(),
        forall|j: int| 0 <= j < i ==> names[j] != name,
        i == names.len() || names[i] == name,
    ensures
        position(names, name) == i,
    decreases i,
{
    if i > 0 {
        let rest = names.drop_first();
        assert forall|j: int| 0 <= j < i - 1 implies rest[j] != name by {
            assert(rest[j] == names[j + 1]);
        }
        if i < names.len() {
            assert(rest[i - 1] == names[i]);
        }
        lemma_position_found(rest, name, i - 1);
    }
}

/// In a table without repeats a name stands only at its `position`.
pub proof fn lemma_position_unique(names: Seq<Seq<char>>, name: Seq<char>, i: int)
    requires
        distinct(names),
        0 <= i < names.len(),
        names[i] == name,
    ensures
        position(names, name) == i,
{
    lemma_position(names, name);
}

} // verus!
