//! The layer classifier: it records precedence relations between named
//! entities, keeps the longest-path distance map closed after each of them,
//! and on request lays the entities out in layers.

use vstd::prelude::*;
use crate::closure::{close, update_distances};
use crate::distances::{hops, is_distance_map, DistanceMatrix};
use crate::grouping::{
    group_by_layer, is_layering, is_partition, normalize, normalized, position_values,
};
use crate::placement::{assign_layers, layers_from};
use crate::registry::{find_entity, rank_of, register};
use crate::scoring::{
    count_connections, is_touched, lemma_reference_is_chosen, link_ids, links_within, primary,
    reference_of, reference_score, secondary, select_reference,
};

verus! {

/// A recorded relation: `left` must be placed before `right`.
#[derive(Debug, PartialEq, Eq)]
pub struct DirectedRelation {
    pub left: String,
    pub right: String,
}

/// Counts of what a classifier holds.
#[derive(Debug, Clone, Copy, PartialEq, Eq)]
pub struct Stats {
    /// Number of entities.
    pub entities: usize,
    /// Number of relation records, a pair recorded twice counting twice.
    pub relations: usize,
    /// Number of entries of the distance map.
    pub distances: u128,
}

/// What a classifier holds, as mathematics.
pub struct EngineState {
    /// The names of the entities, in the order in which they were first seen.
    pub entities: Seq<Seq<char>>,
    /// The relation records in the order in which they were added, each as
    /// the pair of the indices of its left and its right entity.
    pub links: Seq<(int, int)>,
    /// The distance map, over entity indices.
    pub distances: Map<(int, int), int>,
}

impl EngineState {
    /// The state of a classifier to which nothing was added.
    pub open spec fn empty() -> EngineState {
        EngineState { entities: Seq::empty(), links: Seq::empty(), distances: Map::empty() }
    }

    /// The relation records by name: left and right of each, in the order in
    /// which they were added.
    pub open spec fn relations(self) -> Seq<(Seq<char>, Seq<char>)> {
        Seq::new(
            self.links.len(),
            |i: int| (self.entities[self.links[i].0], self.entities[self.links[i].1]),
        )
    }

    /// What holds of every state that a classifier reaches: no entity is
    /// registered twice, every relation joins registered entities, every
    /// entity is an end of some relation, and the distances are a distance
    /// map over the entities.
    pub open spec fn inv(self) -> bool {
        &&& self.entities.no_duplicates()
        &&& forall|i: int|
            0 <= i < self.links.len() ==> 0 <= (#[trigger] self.links[i]).0 < self.entities.len()
                && 0 <= self.links[i].1 < self.entities.len()
        &&& forall|e: int| 0 <= e < self.entities.len() ==> #[trigger] is_touched(self.links, e)
        &&& is_distance_map(self.distances, self.entities.len())
    }

    /// The state after the relation "`left` before `right`" was added.
    ///
    /// Both names are registered if they are new, the relation is recorded,
    /// the distance from `left` to `right` is set to 1 whatever it was, and
    /// the distance map is closed again.
    pub open spec fn add(self, left: Seq<char>, right: Seq<char>) -> EngineState {
        let entities = register(register(self.entities, left), right);
        let from = rank_of(entities, left);
        let to = rank_of(entities, right);
        EngineState {
            entities,
            links: self.links.push((from, to)),
            distances: close(
                self.distances.insert((from, to), 1),
                entities.len(),
                entities.len(),
            ),
        }
    }

    /// The distance recorded from the entity named `left` to the entity
    /// named `right`, if both are registered and the map has an entry for
    /// the pair.
    pub open spec fn distance(self, left: Seq<char>, right: Seq<char>) -> Option<int> {
        if self.entities.contains(left) && self.entities.contains(right) {
            hops(self.distances, rank_of(self.entities, left), rank_of(self.entities, right))
        } else {
            None
        }
    }

    /// The index of the reference entity. Meaningful when there is an entity.
    pub open spec fn reference(self) -> int {
        reference_of(self.links, self.entities.len())
    }

    /// The layer of each entity as propagation from the reference leaves it.
    pub open spec fn layers(self) -> Seq<int> {
        layers_from(self.distances, self.entities.len(), self.reference())
    }

    /// The position of each entity: its layer after normalisation.
    pub open spec fn positions(self) -> Seq<int> {
        normalized(self.layers())
    }
}

/// Computes a layer for each entity from the precedence relations between them.
pub struct LayerClassifier {
    relations: Vec<DirectedRelation>,
    links: Vec<(usize, usize)>,
    entities: Vec<String>,
    distances: DistanceMatrix,
}

impl View for LayerClassifier {
    type V = EngineState;

    /// The state that the classifier holds.
    closed spec fn view(&self) -> EngineState {
        EngineState {
            entities: self.entities.deep_view(),
            links: link_ids(self.links@),
            distances: self.distances@,
        }
    }
}

/// Registers `name` if it is new, making room for it in the distance map,
/// and gives its index.
fn intern(entities: &mut Vec<String>, distances: &mut DistanceMatrix, name: &String) -> (e: usize)
    requires
        old(distances).wf(),
        old(distances).size() == old(entities).len(),
        old(entities).deep_view().no_duplicates(),
    ensures
        final(distances).wf(),
        final(distances).size() == final(entities).len(),
        final(distances)@ == old(distances)@,
        final(entities).deep_view() == register(old(entities).deep_view(), name@),
        e < final(entities).len(),
        final(entities).deep_view()[e as int] == name@,
{
    match find_entity(entities, name) {
        Some(e) => e,
        None => {
            entities.push(name.clone());
            distances.grow();
            entities.len() - 1
        },
    }
}

impl LayerClassifier {
    /// The fields agree with each other: the distance map has room for
    /// exactly the entities, and the relation records name the entities that
    /// the links point at.
    pub closed spec fn consistent(&self) -> bool {
        &&& self.distances.wf()
        &&& self.distances.size() == self.entities.len()
        &&& self.relations.len() == self.links.len()
        &&& links_within(self.links@, self.entities.len() as nat)
        &&& forall|i: int|
            0 <= i < self.links.len() ==> (#[trigger] self.relations[i]).left@
                == self.entities[self.links[i].0 as int]@ && self.relations[i].right@
                == self.entities[self.links[i].1 as int]@
    }

    /// Well-formedness of a classifier.
    pub open spec fn wf(&self) -> bool {
        &&& self.consistent()
        &&& self@.inv()
    }

    /// A classifier with no entity and no relation.
    pub fn new() -> (classifier: LayerClassifier)
        ensures
            classifier.wf(),
            classifier@ == EngineState::empty(),
    {
        let classifier = LayerClassifier {
            relations: Vec::new(),
            links: Vec::new(),
            entities: Vec::new(),
            distances: DistanceMatrix::new(),
        };
        proof {
            assert(classifier@.entities =~= Seq::empty());
            assert(classifier@.links =~= Seq::empty());
        }
        classifier
    }

    /// Adds the relation "`left` before `right`".
    pub fn add_relation(&mut self, left: String, right: String)
        requires
            old(self).wf(),
        ensures
            final(self).wf(),
            final(self)@ == old(self)@.add(left@, right@),
            final(self)@.relations() == old(self)@.relations().push((left@, right@)),
            forall|x: Seq<char>|
                final(self)@.entities.contains(x) <==> old(self)@.entities.contains(x) || x
                    == left@ || x == right@,
    {
        proof {
            crate::history::lemma_add(self@, left@, right@);
        }
        let ghost before = self@;
        let ghost old_links = self.links@;
        let ghost old_names = self.entities.deep_view();
        let from = intern(&mut self.entities, &mut self.distances, &left);
        let to = intern(&mut self.entities, &mut self.distances, &right);
        let ghost names = self.entities.deep_view();
        self.relations.push(DirectedRelation { left, right });
        self.links.push((from, to));
        self.distances.put(from, to, 1);
        update_distances(&mut self.distances);
        proof {
            let after = before.add(left@, right@);
            assert(self@.links =~= after.links);
            assert forall|i: int| 0 <= i < self.links.len() implies (#[trigger] self.relations[i]).left@
                == self.entities[self.links[i].0 as int]@ && self.relations[i].right@
                == self.entities[self.links[i].1 as int]@ by {
                if i < old_links.len() {
                    assert(self.links[i] == old_links[i]);
                    assert(names[old_links[i].0 as int] == old_names[old_links[i].0 as int]);
                    assert(names[old_links[i].1 as int] == old_names[old_links[i].1 as int]);
                }
            }
        }
    }

    /// The position of each entity, in the order in which the entities were
    /// first seen: its layer as propagation from the reference leaves it,
    /// shifted so that the lowest position is 0 if a layer was negative.
    pub fn layer_positions(&self) -> (positions: Vec<u64>)
        requires
            self.wf(),
        ensures
            positions.len() == self@.entities.len(),
            position_values(positions@) == self@.positions(),
    {
        let n = self.entities.len();
        if n == 0 {
            return Vec::new();
        }
        let reference = select_reference(&self.links, n);
        proof {
            lemma_reference_is_chosen(self@.links, n as nat, reference as int);
        }
        let layers = assign_layers(&self.distances, reference);
        normalize(&layers)
    }

    /// Lays the entities out in layers: one bucket for each position that
    /// holds an entity, in ascending order of position, the names inside a
    /// bucket in lexicographic order. The buckets are disjoint and together
    /// hold every entity; with no entity there is no bucket.
    pub fn compute_layers(&self) -> (buckets: Vec<Vec<String>>)
        requires
            self.wf(),
        ensures
            is_layering(self@.entities, self@.positions(), buckets.deep_view()),
            is_partition(self@.entities, buckets.deep_view()),
            self@.entities.len() == 0 ==> buckets.len() == 0,
    {
        let positions = self.layer_positions();
        let buckets = group_by_layer(&self.entities, &positions);
        proof {
            if self@.entities.len() == 0 && buckets.len() > 0 {
                let shown = buckets.deep_view();
                assert(crate::grouping::in_bucket(shown, 0, 0));
            }
        }
        buckets
    }

    /// Counts the entities, the relation records and the entries of the
    /// distance map.
    pub fn get_stats(&self) -> (stats: Stats)
        requires
            self.wf(),
        ensures
            stats.entities == self@.entities.len(),
            stats.relations == self@.links.len(),
            self@.distances.dom().finite(),
            stats.distances == self@.distances.dom().len(),
    {
        Stats {
            entities: self.entities.len(),
            relations: self.relations.len(),
            distances: self.distances.entry_count(),
        }
    }

    /// The relation records, in the order in which they were added.
    pub fn relations(&self) -> (records: Vec<DirectedRelation>)
        requires
            self.wf(),
        ensures
            records.len() == self@.relations().len(),
            forall|i: int|
                0 <= i < records.len() ==> ((#[trigger] records[i]).left@, records[i].right@)
                    == self@.relations()[i],
    {
        let mut records: Vec<DirectedRelation> = Vec::new();
        let mut i: usize = 0;
        while i < self.relations.len()
            invariant
                self.consistent(),
                i <= self.relations.len(),
                records.len() == i,
                forall|x: int|
                    0 <= x < i ==> (#[trigger] records[x]).left@ == self.relations[x].left@
                        && records[x].right@ == self.relations[x].right@,
            decreases self.relations.len() - i,
        {
            let record = DirectedRelation {
                left: self.relations[i].left.clone(),
                right: self.relations[i].right.clone(),
            };
            records.push(record);
            i += 1;
        }
        records
    }

    /// The names of the entities, in the order in which they were first seen.
    pub fn entities(&self) -> (names: Vec<String>)
        requires
            self.wf(),
        ensures
            names.deep_view() == self@.entities,
    {
        let mut names: Vec<String> = Vec::new();
        let mut e: usize = 0;
        while e < self.entities.len()
            invariant
                e <= self.entities.len(),
                names.len() == e,
                forall|x: int| 0 <= x < e ==> (#[trigger] names[x])@ == self.entities[x]@,
            decreases self.entities.len() - e,
        {
            names.push(self.entities[e].clone());
            e += 1;
        }
        names
    }

    /// The distance recorded from the entity named `left` to the entity
    /// named `right`: the number of hops on the longest path known between
    /// them. `None` if either name is not registered or no path is known.
    pub fn distance(&self, left: &str, right: &str) -> (d: Option<i32>)
        requires
            self.wf(),
        ensures
            match d {
                Some(h) => self@.distance(left@, right@) == Some(h as int),
                None => self@.distance(left@, right@) is None,
            },
    {
        let from = find_entity(&self.entities, &left.to_owned());
        let to = find_entity(&self.entities, &right.to_owned());
        match from {
            Some(i) => match to {
                Some(j) => {
                    self.distances.get(i, j)
                },
                None => None,
            },
            None => None,
        }
    }

    /// The name of the reference entity: the entity with the greatest
    /// connection score, and of several the one seen first. `None` when
    /// there is no entity.
    pub fn reference_entity(&self) -> (name: Option<String>)
        requires
            self.wf(),
        ensures
            match name {
                Some(x) => self@.entities.len() > 0 && 0 <= self@.reference()
                    < self@.entities.len() && x@ == self@.entities[self@.reference()],
                None => self@.entities.len() == 0,
            },
    {
        let n = self.entities.len();
        if n == 0 {
            return None;
        }
        let reference = select_reference(&self.links, n);
        proof {
            lemma_reference_is_chosen(self@.links, n as nat, reference as int);
        }
        Some(self.entities[reference].clone())
    }

    /// The connection score of the entity named `name`: the number of
    /// relation records that touch it, and the sum over those records of
    /// that number for the entity at the other end. `None` if the name is
    /// not registered.
    pub fn connection_score(&self, name: &str) -> (score: Option<(usize, u128)>)
        requires
            self.wf(),
        ensures
            match score {
                Some(s) => self@.entities.contains(name@) && s.0 == primary(
                    self@.links,
                    rank_of(self@.entities, name@),
                ) && s.1 == secondary(self@.links, rank_of(self@.entities, name@)),
                None => !self@.entities.contains(name@),
            },
    {
        match find_entity(&self.entities, &name.to_owned()) {
            Some(e) => {
                let counts = count_connections(&self.links, self.entities.len());
                Some(reference_score(&self.links, &counts, e))
            },
            None => None,
        }
    }
}

} // verus!
