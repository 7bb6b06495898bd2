//! The register of entities: their names in the order in which they were
//! first seen, no name twice. An entity's index in the register stands for it
//! everywhere else.

use vstd::prelude::*;

verus! {

/// The index at which `names` holds `x`. Meaningful when `names` holds `x`.
pub open spec fn rank_of(names: Seq<Seq<char>>, x: Seq<char>) -> int {
    choose|e: int| 0 <= e < names.len() && names[e] == x
}

/// The register once `x` was seen: `x` is added at the end if it is new.
pub open spec fn register(names: Seq<Seq<char>>, x: Seq<char>) -> Seq<Seq<char>> {
    if names.contains(x) {
        names
    } else {
        names.push(x)
    }
}

/// In a register, the index at which a name is found is the index of that name.
pub proof fn lemma_rank_of(names: Seq<Seq<char>>, e: int)
    requires
        names.no_duplicates(),
        0 <= e < names.len(),
    ensures
        rank_of(names, names[e]) == e,
{
}

/// Seeing a name keeps the register free of repetition, keeps every entity
/// at its index, and leaves the register holding what it held and that name.
pub proof fn lemma_register(names: Seq<Seq<char>>, x: Seq<char>)
    requires
        names.no_duplicates(),
    ensures
        register(names, x).no_duplicates(),
        register(names, x).contains(x),
        names.len() <= register(names, x).len() <= names.len() + 1,
        forall|e: int| 0 <= e < names.len() ==> #[trigger] register(names, x)[e] == names[e],
        forall|y: Seq<char>| register(names, x).contains(y) <==> names.contains(y) || y == x,
{
    let after = register(names, x);
    if !names.contains(x) {
        assert(after[names.len() as int] == x);
        assert forall|y: Seq<char>| names.contains(y) implies after.contains(y) by {
            let e = choose|e: int| 0 <= e < names.len() && names[e] == y;
            assert(after[e] == y);
        }
    }
}

/// The first index at which `names` holds `name`, if it holds it.
pub fn find_entity(names: &Vec<String>, name: &String) -> (found: Option<usize>)
    ensures
        match found {
            Some(e) => e < names.len() && names.deep_view()[e as int] == name@ && forall|x: int|
                0 <= x < e ==> names.deep_view()[x] != name@,
            None => !names.deep_view().contains(name@),
        },
{
    let mut e: usize = 0;
    while e < names.len()
        invariant
            e <= names.len(),
            forall|x: int| 0 <= x < e ==> names.deep_view()[x] != name@,
        decreases names.len() - e,
    {
        if names[e] == *name {
            return Some(e);
        }
        e += 1;
    }
    None
}

} // verus!
