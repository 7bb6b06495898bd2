//! Propagation of layers from the reference entity.
//!
//! A placement gives each entity a layer or leaves it unplaced. It starts with
//! the reference alone, at layer 0. A sweep takes the entries of the distance
//! map row by row and lets each of them act on the placement; sweeps are
//! repeated until every entity is placed, a sweep changes nothing, or as many
//! sweeps were made as the square of the number of entities. An entity still
//! unplaced then settles at layer 0.

use vstd::prelude::*;
use crate::distances::{is_distance_map, DistanceMatrix};

verus! {

/// The layer nearest to `x` that a placement can hold.
pub open spec fn clamp_layer(x: int) -> int {
    if x < i64::MIN as int {
        i64::MIN as int
    } else if x > i64::MAX as int {
        i64::MAX as int
    } else {
        x
    }
}

/// The placement after the entry "`hops` from `from` to `to`" has acted on `p`.
///
/// With `from` placed and `to` not, `to` is placed `hops` layers after
/// `from`; with `to` placed and `from` not, `from` is placed `hops` layers
/// before `to`; with both placed, `to` is raised to `hops` layers after
/// `from` if it lies before that. An entry from an entity to itself asks for
/// nothing that a placement could grant and leaves it as it is.
pub open spec fn place_step(p: Seq<Option<int>>, from: int, to: int, hops: int) -> Seq<Option<int>> {
    if from == to {
        p
    } else {
        match (p[from], p[to]) {
            (Some(a), None) => p.update(to, Some(clamp_layer(a + hops))),
            (None, Some(b)) => p.update(from, Some(clamp_layer(b - hops))),
            (Some(a), Some(b)) => if b < clamp_layer(a + hops) {
                p.update(to, Some(clamp_layer(a + hops)))
            } else {
                p
            },
            (None, None) => p,
        }
    }
}

/// The placement after the pair `(i, j)` was visited: its entry, if the map
/// has one, has acted.
pub open spec fn visit(m: Map<(int, int), int>, p: Seq<Option<int>>, i: int, j: int) -> Seq<
    Option<int>,
> {
    if m.contains_key((i, j)) {
        place_step(p, i, j, m[(i, j)])
    } else {
        p
    }
}

/// The placement after the pairs `(i, 0)`, ..., `(i, upto - 1)` were visited in that order.
pub open spec fn sweep_row(m: Map<(int, int), int>, p: Seq<Option<int>>, i: int, upto: int) -> Seq<
    Option<int>,
>
    decreases upto,
{
    if upto <= 0 {
        p
    } else {
        visit(m, sweep_row(m, p, i, upto - 1), i, upto - 1)
    }
}

/// The placement after the rows `0`, ..., `upto - 1` of a map over `n`
/// entities were swept in that order.
pub open spec fn sweep_rows(m: Map<(int, int), int>, p: Seq<Option<int>>, n: int, upto: int) -> Seq<
    Option<int>,
>
    decreases upto,
{
    if upto <= 0 {
        p
    } else {
        sweep_row(m, sweep_rows(m, p, n, upto - 1), upto - 1, n)
    }
}

/// The placement after one sweep over a map of `n` entities.
pub open spec fn sweep(m: Map<(int, int), int>, p: Seq<Option<int>>, n: int) -> Seq<Option<int>> {
    sweep_rows(m, p, n, n)
}

/// Every entity has a layer.
pub open spec fn all_placed(p: Seq<Option<int>>) -> bool {
    forall|e: int| 0 <= e < p.len() ==> (#[trigger] p[e]) is Some
}

/// The placement that repeated sweeps lead to from `p`: they stop once every
/// entity is placed, once a sweep changes nothing, or after `budget` sweeps.
pub open spec fn propagate(m: Map<(int, int), int>, p: Seq<Option<int>>, n: int, budget: nat) -> Seq<
    Option<int>,
>
    decreases budget,
{
    if budget == 0 || all_placed(p) {
        p
    } else {
        let next = sweep(m, p, n);
        if next == p {
            p
        } else {
            propagate(m, next, n, (budget - 1) as nat)
        }
    }
}

/// The placement of `n` entities in which `reference` alone is placed, at layer 0.
pub open spec fn seed(n: nat, reference: int) -> Seq<Option<int>> {
    Seq::new(
        n,
        |e: int|
            if e == reference {
                Some(0int)
            } else {
                None
            },
    )
}

/// The layer of every entity once the unplaced ones have settled at layer 0.
pub open spec fn settle(p: Seq<Option<int>>) -> Seq<int> {
    Seq::new(
        p.len(),
        |e: int|
            match p[e] {
                Some(layer) => layer,
                None => 0,
            },
    )
}

/// The layers that propagation from `reference` gives the `n` entities of
/// the distance map `m`.
pub open spec fn layers_from(m: Map<(int, int), int>, n: nat, reference: int) -> Seq<int> {
    settle(propagate(m, seed(n, reference), n as int, n * n))
}

/// `q` places every entity that `p` places, none of them on an earlier layer.
pub open spec fn advances(p: Seq<Option<int>>, q: Seq<Option<int>>) -> bool {
    &&& p.len() == q.len()
    &&& forall|e: int|
        0 <= e < p.len() && (#[trigger] p[e]) is Some ==> q[e] is Some && p[e].unwrap()
            <= q[e].unwrap()
}

/// An entry that acts on a placement never unplaces an entity and never
/// lowers one.
pub proof fn lemma_place_step_advances(p: Seq<Option<int>>, from: int, to: int, hops: int)
    requires
        0 <= from < p.len(),
        0 <= to < p.len(),
    ensures
        advances(p, place_step(p, from, to, hops)),
{
}

/// Two placements that advance to each other are the same placement.
pub proof fn lemma_advances_antisymmetric(p: Seq<Option<int>>, q: Seq<Option<int>>)
    requires
        advances(p, q),
        advances(q, p),
    ensures
        p == q,
{
}

/// Within a row, the placement after more pairs advances from the placement
/// after fewer.
proof fn lemma_sweep_row_advances(
    m: Map<(int, int), int>,
    p: Seq<Option<int>>,
    i: int,
    fewer: int,
    more: int,
)
    requires
        is_distance_map(m, p.len()),
        0 <= fewer <= more,
    ensures
        sweep_row(m, p, i, more).len() == p.len(),
        advances(sweep_row(m, p, i, fewer), sweep_row(m, p, i, more)),
    decreases more,
{
    if more > 0 {
        lemma_sweep_row_advances(m, p, i, 0, more - 1);
        let before = sweep_row(m, p, i, more - 1);
        if m.contains_key((i, more - 1)) {
            lemma_place_step_advances(before, i, more - 1, m[(i, more - 1)]);
        }
        if fewer < more {
            lemma_sweep_row_advances(m, p, i, fewer, more - 1);
        }
    }
}

/// Within a sweep, the placement after more rows advances from the placement
/// after fewer.
proof fn lemma_sweep_rows_advances(
    m: Map<(int, int), int>,
    p: Seq<Option<int>>,
    n: int,
    fewer: int,
    more: int,
)
    requires
        is_distance_map(m, p.len()),
        0 <= fewer <= more,
        0 <= n,
    ensures
        sweep_rows(m, p, n, more).len() == p.len(),
        advances(sweep_rows(m, p, n, fewer), sweep_rows(m, p, n, more)),
    decreases more,
{
    if more > 0 {
        lemma_sweep_rows_advances(m, p, n, 0, more - 1);
        let before = sweep_rows(m, p, n, more - 1);
        lemma_sweep_row_advances(m, before, more - 1, 0, n);
        if fewer < more {
            lemma_sweep_rows_advances(m, p, n, fewer, more - 1);
        }
    }
}

/// The placement is settled: a sweep leaves it as it is.
pub open spec fn is_settled(m: Map<(int, int), int>, p: Seq<Option<int>>) -> bool {
    sweep(m, p, p.len() as int) == p
}

/// A settled placement agrees with every entry of the distance map between
/// two different entities: it places both ends or neither, and where it
/// places them the target lies at least as many layers after the source as
/// the entry has hops.
pub proof fn lemma_settled_is_consistent(
    m: Map<(int, int), int>,
    p: Seq<Option<int>>,
    i: int,
    j: int,
)
    requires
        is_distance_map(m, p.len()),
        is_settled(m, p),
        m.contains_key((i, j)),
        i != j,
    ensures
        p[i] is Some <==> p[j] is Some,
        p[i] is Some ==> p[j].unwrap() >= clamp_layer(p[i].unwrap() + m[(i, j)]),
{
    let n = p.len() as int;
    let row_start = sweep_rows(m, p, n, i);
    let row_end = sweep_rows(m, p, n, i + 1);
    lemma_sweep_rows_advances(m, p, n, 0, i);
    lemma_sweep_rows_advances(m, p, n, i, i + 1);
    lemma_sweep_rows_advances(m, p, n, i + 1, n);
    lemma_sweep_rows_advances(m, p, n, 0, i + 1);
    lemma_sweep_rows_advances(m, p, n, i, n);
    lemma_advances_antisymmetric(p, row_start);
    lemma_advances_antisymmetric(p, row_end);
    let before = sweep_row(m, p, i, j);
    let after = sweep_row(m, p, i, j + 1);
    lemma_sweep_row_advances(m, p, i, 0, j);
    lemma_sweep_row_advances(m, p, i, j, n);
    lemma_sweep_row_advances(m, p, i, 0, j + 1);
    lemma_sweep_row_advances(m, p, i, j + 1, n);
    lemma_advances_antisymmetric(p, before);
    lemma_advances_antisymmetric(p, after);
}

/// No entry of `m` joins an entity of `reach` to an entity outside it.
pub open spec fn is_apart(m: Map<(int, int), int>, reach: Set<int>) -> bool {
    forall|p: (int, int)| #[trigger] m.contains_key(p) ==> (reach.contains(p.0) <==> reach.contains(p.1))
}

/// Every entity that `p` places belongs to `reach`.
pub open spec fn placed_within(p: Seq<Option<int>>, reach: Set<int>) -> bool {
    forall|e: int| 0 <= e < p.len() && (#[trigger] p[e]) is Some ==> reach.contains(e)
}

/// Sweeping part of a row places no entity outside `reach`.
proof fn lemma_sweep_row_within(
    m: Map<(int, int), int>,
    p: Seq<Option<int>>,
    i: int,
    upto: int,
    reach: Set<int>,
)
    requires
        is_distance_map(m, p.len()),
        is_apart(m, reach),
        placed_within(p, reach),
    ensures
        sweep_row(m, p, i, upto).len() == p.len(),
        placed_within(sweep_row(m, p, i, upto), reach),
    decreases upto,
{
    if upto > 0 {
        lemma_sweep_row_within(m, p, i, upto - 1, reach);
    }
}

/// Sweeping some of the rows places no entity outside `reach`.
proof fn lemma_sweep_rows_within(
    m: Map<(int, int), int>,
    p: Seq<Option<int>>,
    n: int,
    upto: int,
    reach: Set<int>,
)
    requires
        is_distance_map(m, p.len()),
        is_apart(m, reach),
        placed_within(p, reach),
    ensures
        sweep_rows(m, p, n, upto).len() == p.len(),
        placed_within(sweep_rows(m, p, n, upto), reach),
    decreases upto,
{
    if upto > 0 {
        lemma_sweep_rows_within(m, p, n, upto - 1, reach);
        lemma_sweep_row_within(m, sweep_rows(m, p, n, upto - 1), upto - 1, n, reach);
    }
}

/// Propagation places no entity outside a set of entities that holds every
/// placed entity and that no entry of the map leads out of or into.
pub proof fn lemma_propagate_within(
    m: Map<(int, int), int>,
    p: Seq<Option<int>>,
    n: int,
    budget: nat,
    reach: Set<int>,
)
    requires
        is_distance_map(m, p.len()),
        is_apart(m, reach),
        placed_within(p, reach),
    ensures
        propagate(m, p, n, budget).len() == p.len(),
        placed_within(propagate(m, p, n, budget), reach),
    decreases budget,
{
    if budget > 0 && !all_placed(p) {
        lemma_sweep_rows_within(m, p, n, n, reach);
        if sweep(m, p, n) != p {
            lemma_propagate_within(m, sweep(m, p, n), n, (budget - 1) as nat, reach);
        }
    }
}

/// An entity that no chain of entries joins to the reference lies at layer 0:
/// if the reference belongs to a set of entities that no entry of the map
/// leads out of or into, every entity outside that set is given layer 0.
pub proof fn lemma_unreached_lie_at_zero(
    m: Map<(int, int), int>,
    n: nat,
    reference: int,
    reach: Set<int>,
    e: int,
)
    requires
        is_distance_map(m, n),
        is_apart(m, reach),
        reach.contains(reference),
        0 <= e < n,
        !reach.contains(e),
    ensures
        layers_from(m, n, reference)[e] == 0,
{
    lemma_propagate_within(m, seed(n, reference), n as int, n * n, reach);
}

/// The layers held in machine integers, read as integers.
pub open spec fn layer_values(layers: Seq<i64>) -> Seq<int> {
    Seq::new(layers.len(), |e: int| layers[e] as int)
}

/// The layers held in machine integers, read as a placement.
pub open spec fn placement(layers: Seq<Option<i64>>) -> Seq<Option<int>> {
    Seq::new(
        layers.len(),
        |e: int|
            match layers[e] {
                Some(layer) => Some(layer as int),
                None => None,
            },
    )
}

/// The layer `hops` after `layer`, or `hops` before it where `back` is set,
/// kept within what a placement can hold.
fn shift_layer(layer: i64, hops: i32, back: bool) -> (r: i64)
    ensures
        r == clamp_layer(
            if back {
                layer - hops
            } else {
                layer + hops
            },
        ),
{
    let wide: i128 = if back {
        layer as i128 - hops as i128
    } else {
        layer as i128 + hops as i128
    };
    if wide < i64::MIN as i128 {
        i64::MIN
    } else if wide > i64::MAX as i128 {
        i64::MAX
    } else {
        wide as i64
    }
}

/// Lets the entry "`hops` from `from` to `to`" act on the placement, and
/// says whether the placement changed.
pub fn place(layers: &mut Vec<Option<i64>>, from: usize, to: usize, hops: i32) -> (moved: bool)
    requires
        from < old(layers).len(),
        to < old(layers).len(),
    ensures
        final(layers).len() == old(layers).len(),
        placement(final(layers)@) == place_step(
            placement(old(layers)@),
            from as int,
            to as int,
            hops as int,
        ),
        moved == (placement(final(layers)@) != placement(old(layers)@)),
{
    if from == to {
        return false;
    }
    let source = layers[from];
    let target = layers[to];
    match source {
        Some(a) => {
            let wanted = shift_layer(a, hops, false);
            match target {
                None => {
                    layers.set(to, Some(wanted));
                    true
                },
                Some(b) => {
                    if b < wanted {
                        layers.set(to, Some(wanted));
                        true
                    } else {
                        false
                    }
                },
            }
        },
        None => {
            match target {
                Some(b) => {
                    let wanted = shift_layer(b, hops, true);
                    layers.set(from, Some(wanted));
                    true
                },
                None => false,
            }
        },
    }
}

/// Makes one sweep over the entries of the distance map, and says whether
/// the placement changed.
pub fn sweep_entries(m: &DistanceMatrix, layers: &mut Vec<Option<i64>>) -> (progress: bool)
    requires
        m.wf(),
        old(layers).len() == m.size(),
    ensures
        final(layers).len() == old(layers).len(),
        placement(final(layers)@) == sweep(m@, placement(old(layers)@), m.size() as int),
        progress == (placement(final(layers)@) != placement(old(layers)@)),
{
    let n = m.entity_count();
    let ghost start = placement(layers@);
    let mut progress = false;
    let mut i: usize = 0;
    while i < n
        invariant
            m.wf(),
            m.size() == n,
            layers.len() == n,
            i <= n,
            start.len() == n,
            placement(layers@) == sweep_rows(m@, start, n as int, i as int),
            advances(start, placement(layers@)),
            progress == (placement(layers@) != start),
        decreases n - i,
    {
        let ghost row_start = placement(layers@);
        let mut j: usize = 0;
        while j < n
            invariant
                m.wf(),
                m.size() == n,
                layers.len() == n,
                i < n,
                j <= n,
                start.len() == n,
                row_start.len() == n,
                placement(layers@) == sweep_row(m@, row_start, i as int, j as int),
                advances(start, placement(layers@)),
                progress == (placement(layers@) != start),
            decreases n - j,
        {
            let ghost prev = placement(layers@);
            match m.get(i, j) {
                Some(d) => {
                    let moved = place(layers, i, j, d);
                    proof {
                        lemma_place_step_advances(prev, i as int, j as int, d as int);
                        lemma_advances_strict(start, prev, placement(layers@));
                    }
                    if moved {
                        progress = true;
                    }
                },
                None => {},
            }
            j += 1;
        }
        i += 1;
    }
    progress
}

/// A placement that advances from `p` by way of a different placement `q`
/// differs from `p` if `q` does, and advances from `p`.
proof fn lemma_advances_strict(p: Seq<Option<int>>, q: Seq<Option<int>>, r: Seq<Option<int>>)
    requires
        advances(p, q),
        advances(q, r),
    ensures
        advances(p, r),
        (q != p || r != q) ==> r != p,
{
    if r == p {
        assert(q =~= p);
    }
}

/// Says whether every entity has a layer.
pub fn is_complete(layers: &Vec<Option<i64>>) -> (done: bool)
    ensures
        done == all_placed(placement(layers@)),
{
    let mut e: usize = 0;
    while e < layers.len()
        invariant
            e <= layers.len(),
            forall|x: int| 0 <= x < e ==> (#[trigger] placement(layers@)[x]) is Some,
        decreases layers.len() - e,
    {
        if layers[e].is_none() {
            assert(placement(layers@)[e as int] is None);
            return false;
        }
        e += 1;
    }
    true
}

/// Propagates layers from `reference` over the distance map and settles the
/// entities that stay unplaced at layer 0.
pub fn assign_layers(m: &DistanceMatrix, reference: usize) -> (layers: Vec<i64>)
    requires
        m.wf(),
        reference < m.size(),
    ensures
        layers.len() == m.size(),
        layer_values(layers@) == layers_from(m@, m.size(), reference as int),
{
    let n = m.entity_count();
    let mut placed: Vec<Option<i64>> = Vec::new();
    let mut e: usize = 0;
    while e < n
        invariant
            e <= n,
            placed.len() == e,
            forall|x: int|
                0 <= x < e ==> #[trigger] placed[x] == if x == reference {
                    Some(0i64)
                } else {
                    None
                },
        decreases n - e,
    {
        placed.push(if e == reference { Some(0) } else { None });
        e += 1;
    }
    assert(placement(placed@) =~= seed(n as nat, reference as int));
    assert(n * n <= u128::MAX) by (nonlinear_arith)
        requires
            n <= 0xffff_ffff_ffff_ffff,
    ;
    let budget: u128 = (n as u128) * (n as u128);
    let ghost first = placement(placed@);
    let mut round: u128 = 0;
    loop
        invariant_except_break
            propagate(m@, first, n as int, budget as nat) == propagate(
                m@,
                placement(placed@),
                n as int,
                (budget - round) as nat,
            ),
        invariant
            m.wf(),
            m.size() == n,
            placed.len() == n,
            round <= budget,
        ensures
            placement(placed@) == propagate(m@, first, n as int, budget as nat),
        decreases budget - round,
    {
        if round >= budget || is_complete(&placed) {
            break;
        }
        let progress = sweep_entries(m, &mut placed);
        round += 1;
        if !progress {
            break;
        }
    }
    let mut layers: Vec<i64> = Vec::new();
    let mut x: usize = 0;
    while x < n
        invariant
            x <= n,
            placed.len() == n,
            layers.len() == x,
            forall|y: int|
                0 <= y < x ==> #[trigger] layers[y] as int == settle(placement(placed@))[y],
        decreases n - x,
    {
        let layer = match placed[x] {
            Some(l) => l,
            None => 0,
        };
        layers.push(layer);
        x += 1;
    }
    layers
}

} // verus!
