//! What holds of a classifier whatever relations were added to it, stated
//! over the sequence of relations added since it was made.

use vstd::prelude::*;
use crate::classifier::EngineState;
use crate::closure::lemma_close_extends;
use crate::distances::is_distance_map;
use crate::grouping::{is_layering, lemma_layering_unique};
use crate::registry::{lemma_rank_of, lemma_register, rank_of, register};
use crate::scoring::{is_touched, touches};

verus! {

/// The names that stand on the left or on the right of some relation.
pub open spec fn endpoints(relations: Seq<(Seq<char>, Seq<char>)>) -> Set<Seq<char>> {
    Set::new(|x: Seq<char>| is_endpoint(relations, x))
}

/// The name `x` stands on the left or on the right of some relation.
pub open spec fn is_endpoint(relations: Seq<(Seq<char>, Seq<char>)>, x: Seq<char>) -> bool {
    exists|i: int| 0 <= i < relations.len() && #[trigger] names_entity(relations[i], x)
}

/// The relation has the name `x` on one side or the other.
pub open spec fn names_entity(relation: (Seq<char>, Seq<char>), x: Seq<char>) -> bool {
    relation.0 == x || relation.1 == x
}

/// The state that a new classifier reaches when the relations of `history`
/// are added to it one after the other.
pub open spec fn replay(history: Seq<(Seq<char>, Seq<char>)>) -> EngineState
    decreases history.len(),
{
    if history.len() == 0 {
        EngineState::empty()
    } else {
        replay(history.drop_last()).add(history.last().0, history.last().1)
    }
}

/// Adding a relation keeps the invariant, appends the relation to the
/// records, leaves every earlier record as it was, and registers exactly
/// the two names besides those that were registered.
pub proof fn lemma_add(state: EngineState, left: Seq<char>, right: Seq<char>)
    requires
        state.inv(),
    ensures
        state.add(left, right).inv(),
        state.add(left, right).relations() == state.relations().push((left, right)),
        forall|x: Seq<char>|
            state.add(left, right).entities.contains(x) <==> state.entities.contains(x) || x
                == left || x == right,
        forall|e: int|
            0 <= e < state.entities.len() ==> #[trigger] state.add(left, right).entities[e]
                == state.entities[e],
{
    let after = state.add(left, right);
    let mid = register(state.entities, left);
    let names = after.entities;
    lemma_register(state.entities, left);
    lemma_register(mid, right);
    let from = rank_of(names, left);
    let to = rank_of(names, right);
    assert(mid.contains(left));
    assert(names.contains(left));
    assert(names.contains(right));
    assert(0 <= from < names.len() && names[from] == left);
    assert(0 <= to < names.len() && names[to] == right);
    assert forall|e: int| 0 <= e < names.len() implies #[trigger] is_touched(after.links, e) by {
        if e < state.entities.len() {
            assert(is_touched(state.links, e));
            let i = choose|i: int| 0 <= i < state.links.len() && #[trigger] touches(state.links[i], e);
            assert(touches(after.links[i], e));
        } else {
            lemma_rank_of(names, e);
            assert(names[e] == left || names[e] == right);
            assert(touches(after.links[state.links.len() as int], e));
        }
    }
    let seeded = state.distances.insert((from, to), 1);
    assert(is_distance_map(seeded, names.len()));
    lemma_close_extends(seeded, names.len(), names.len());
    assert(after.relations() =~= state.relations().push((left, right)));
}

/// Adding a relation removes no entry of the distance map and lowers none
/// but, at most, the entry of the pair that is added, which is set to 1
/// before the map is closed again.
pub proof fn lemma_add_keeps_distances(state: EngineState, left: Seq<char>, right: Seq<char>)
    requires
        state.inv(),
    ensures
        forall|p: (int, int)| #[trigger]
            state.distances.contains_key(p) ==> state.add(left, right).distances.contains_key(p),
        forall|p: (int, int)|
            #[trigger] state.distances.contains_key(p) && p != (
                rank_of(state.add(left, right).entities, left),
                rank_of(state.add(left, right).entities, right),
            ) ==> state.add(left, right).distances[p] >= state.distances[p],
        state.add(left, right).distance(left, right) is Some,
        state.add(left, right).distance(left, right).unwrap() >= 1,
{
    let after = state.add(left, right);
    let names = after.entities;
    lemma_add(state, left, right);
    lemma_register(state.entities, left);
    lemma_register(register(state.entities, left), right);
    let from = rank_of(names, left);
    let to = rank_of(names, right);
    assert(names.contains(left));
    assert(names.contains(right));
    let seeded = state.distances.insert((from, to), 1);
    assert(is_distance_map(seeded, names.len()));
    lemma_close_extends(seeded, names.len(), names.len());
    assert(seeded.contains_key((from, to)));
    assert forall|p: (int, int)| #[trigger] state.distances.contains_key(p) implies after.distances.contains_key(
        p,
    ) && (p != (from, to) ==> after.distances[p] >= state.distances[p]) by {
        assert(seeded.contains_key(p));
    }
}

/// The registered entities are exactly the names that stand on either side
/// of a recorded relation.
pub proof fn lemma_entities_are_endpoints(state: EngineState)
    requires
        state.inv(),
    ensures
        state.entities.to_set() == endpoints(state.relations()),
{
    let relations = state.relations();
    assert forall|x: Seq<char>| state.entities.contains(x) implies is_endpoint(relations, x) by {
        let e = choose|e: int| 0 <= e < state.entities.len() && state.entities[e] == x;
        assert(is_touched(state.links, e));
        let i = choose|i: int| 0 <= i < state.links.len() && #[trigger] touches(state.links[i], e);
        assert(names_entity(relations[i], x));
    }
    assert(state.entities.to_set() =~= endpoints(relations));
}

/// Whatever relations are added to a new classifier, in whatever order: the
/// state it reaches satisfies the invariant, its records are those relations
/// in the order in which they were added, and its entities are exactly the
/// names passed as a left or a right argument.
pub proof fn lemma_replay(history: Seq<(Seq<char>, Seq<char>)>)
    ensures
        replay(history).inv(),
        replay(history).relations() == history,
        replay(history).entities.to_set() == endpoints(history),
    decreases history.len(),
{
    if history.len() == 0 {
        assert(replay(history).relations() =~= history);
    } else {
        let earlier = history.drop_last();
        lemma_replay(earlier);
        lemma_add(replay(earlier), history.last().0, history.last().1);
        assert(earlier.push(history.last()) =~= history);
    }
    lemma_entities_are_endpoints(replay(history));
}

/// Laying out the same state twice gives the same buckets: the state
/// determines its grouping by layer.
pub proof fn lemma_layers_are_repeatable(
    state: EngineState,
    first: Seq<Seq<Seq<char>>>,
    second: Seq<Seq<Seq<char>>>,
)
    requires
        is_layering(state.entities, state.positions(), first),
        is_layering(state.entities, state.positions(), second),
    ensures
        first == second,
{
    lemma_layering_unique(state.entities, state.positions(), first, second);
}

} // verus!
