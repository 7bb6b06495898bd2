//! Longest-path closure of the distance map.
//!
//! Relaxing through an intermediate entity `k` looks at every ordered pair
//! `(i, j)` with `i`, `j`, `k` pairwise distinct and both legs `(i, k)` and
//! `(k, j)` recorded, and keeps for `(i, j)` the larger of what is recorded
//! and the capped sum of the two legs. A pass relaxes through every entity in
//! index order; the closure repeats passes until one changes nothing, at most
//! once per entity.

use vstd::prelude::*;
use crate::distances::{capped_sum, hops, is_distance_map, join_hops, DistanceMatrix};

verus! {

/// Hop count of the path from `i` to `j` by way of `k`: defined when the
/// three are pairwise distinct and both legs are recorded.
pub open spec fn detour(m: Map<(int, int), int>, k: int, i: int, j: int) -> Option<int> {
    if i != j && i != k && j != k && m.contains_key((i, k)) && m.contains_key((k, j)) {
        Some(capped_sum(m[(i, k)], m[(k, j)]))
    } else {
        None
    }
}

/// What is recorded for `(i, j)` once `m` has been relaxed through `k`.
pub open spec fn relaxed(m: Map<(int, int), int>, k: int, i: int, j: int) -> Option<int> {
    match detour(m, k, i, j) {
        Some(via) => if m.contains_key((i, j)) && m[(i, j)] >= via {
            Some(m[(i, j)])
        } else {
            Some(via)
        },
        None => hops(m, i, j),
    }
}

/// The map `m` relaxed through the intermediate entity `k`.
pub open spec fn relax_through(m: Map<(int, int), int>, k: int) -> Map<(int, int), int> {
    Map::new(
        |p: (int, int)| relaxed(m, k, p.0, p.1) is Some,
        |p: (int, int)| relaxed(m, k, p.0, p.1).unwrap(),
    )
}

/// The map `m` relaxed through the entities `0`, `1`, ..., `upto - 1`, in that order.
pub open spec fn relax_pass(m: Map<(int, int), int>, upto: nat) -> Map<(int, int), int>
    decreases upto,
{
    if upto == 0 {
        m
    } else {
        relax_through(relax_pass(m, (upto - 1) as nat), upto - 1)
    }
}

/// The closure of `m` over `n` entities: passes are made until one leaves the
/// map as it was, and no more of them than `passes`.
pub open spec fn close(m: Map<(int, int), int>, n: nat, passes: nat) -> Map<(int, int), int>
    decreases passes,
{
    if passes == 0 {
        m
    } else {
        let next = relax_pass(m, n);
        if next == m {
            m
        } else {
            close(next, n, (passes - 1) as nat)
        }
    }
}

/// `b` keeps every entry of `a`, with a hop count at least as large.
pub open spec fn extends(a: Map<(int, int), int>, b: Map<(int, int), int>) -> bool {
    forall|p: (int, int)| #[trigger] a.contains_key(p) ==> b.contains_key(p) && a[p] <= b[p]
}

/// Two maps that extend each other are the same map.
pub proof fn lemma_extends_antisymmetric(a: Map<(int, int), int>, b: Map<(int, int), int>)
    requires
        extends(a, b),
        extends(b, a),
    ensures
        a == b,
{
}

/// Relaxing through one entity keeps every entry and lowers none, and the
/// result is again a distance map.
pub proof fn lemma_relax_through_extends(m: Map<(int, int), int>, n: nat, k: int)
    requires
        is_distance_map(m, n),
    ensures
        extends(m, relax_through(m, k)),
        is_distance_map(relax_through(m, k), n),
{
}

/// A pass keeps every entry and lowers none.
pub proof fn lemma_relax_pass_extends(m: Map<(int, int), int>, n: nat, upto: nat)
    requires
        is_distance_map(m, n),
    ensures
        extends(m, relax_pass(m, upto)),
        is_distance_map(relax_pass(m, upto), n),
    decreases upto,
{
    if upto > 0 {
        lemma_relax_pass_extends(m, n, (upto - 1) as nat);
        lemma_relax_through_extends(relax_pass(m, (upto - 1) as nat), n, upto - 1);
    }
}

/// Recomputation never removes an entry of the distance map and never
/// lowers one: the closure extends the map it starts from.
pub proof fn lemma_close_extends(m: Map<(int, int), int>, n: nat, passes: nat)
    requires
        is_distance_map(m, n),
    ensures
        extends(m, close(m, n, passes)),
        is_distance_map(close(m, n, passes), n),
    decreases passes,
{
    if passes > 0 {
        let next = relax_pass(m, n);
        lemma_relax_pass_extends(m, n, n);
        if next != m {
            lemma_close_extends(next, n, (passes - 1) as nat);
        }
    }
}

/// Within a pass, the map after more intermediate entities extends the map
/// after fewer.
proof fn lemma_relax_pass_grows(m: Map<(int, int), int>, n: nat, fewer: nat, more: nat)
    requires
        is_distance_map(m, n),
        fewer <= more,
    ensures
        extends(relax_pass(m, fewer), relax_pass(m, more)),
    decreases more,
{
    if fewer < more {
        lemma_relax_pass_grows(m, n, fewer, (more - 1) as nat);
        lemma_relax_pass_extends(m, n, (more - 1) as nat);
        lemma_relax_through_extends(relax_pass(m, (more - 1) as nat), n, more - 1);
    }
}

/// The map is closed over `n` entities: a pass leaves it as it is.
pub open spec fn is_closed(m: Map<(int, int), int>, n: nat) -> bool {
    relax_pass(m, n) == m
}

/// In a closed map the distance over two legs is never shorter than the legs
/// together: where `(i, k)` and `(k, j)` are recorded and the three entities
/// are distinct, `(i, j)` is recorded with at least their capped sum.
pub proof fn lemma_closed_triangle(m: Map<(int, int), int>, n: nat, i: int, j: int, k: int)
    requires
        is_distance_map(m, n),
        is_closed(m, n),
        detour(m, k, i, j) is Some,
    ensures
        m.contains_key((i, j)),
        m[(i, j)] >= detour(m, k, i, j).unwrap(),
{
    // A pass that ends where it began was at that map all along, so that
    // relaxing through `k` alone leaves the map as it is.
    let before = relax_pass(m, k as nat);
    let after = relax_pass(m, (k + 1) as nat);
    lemma_relax_pass_extends(m, n, k as nat);
    lemma_relax_pass_extends(m, n, (k + 1) as nat);
    lemma_relax_pass_grows(m, n, k as nat, n);
    lemma_relax_pass_grows(m, n, (k + 1) as nat, n);
    lemma_extends_antisymmetric(m, before);
    lemma_extends_antisymmetric(m, after);
}

/// A closure that one pass fewer would have reached as well is closed: it
/// stopped because a pass changed nothing, not because the passes ran out.
pub proof fn lemma_close_is_closed(m: Map<(int, int), int>, n: nat, passes: nat)
    requires
        passes > 0,
        close(m, n, passes) == close(m, n, (passes - 1) as nat),
    ensures
        is_closed(close(m, n, passes), n),
    decreases passes,
{
    let next = relax_pass(m, n);
    if next != m {
        if passes == 1 {
            assert(close(m, n, 1) == close(next, n, 0));
        } else {
            lemma_close_shift(m, n, (passes - 1) as nat);
            lemma_close_is_closed(next, n, (passes - 1) as nat);
        }
    }
}

/// The closure of `m` with one pass more is the closure, with as many
/// passes as before, of `m` after a pass.
proof fn lemma_close_shift(m: Map<(int, int), int>, n: nat, passes: nat)
    ensures
        close(m, n, passes + 1) == close(relax_pass(m, n), n, passes),
    decreases passes,
{
    let next = relax_pass(m, n);
    if next == m {
        lemma_close_fixed(m, n, passes);
    }
}

/// A closed map is its own closure.
pub proof fn lemma_close_fixed(m: Map<(int, int), int>, n: nat, passes: nat)
    requires
        relax_pass(m, n) == m,
    ensures
        close(m, n, passes) == m,
{
}

/// The map in which the pairs before `(i, j)`, row by row, are relaxed
/// through `k` and the others are as in `m`.
spec fn relax_before(m: Map<(int, int), int>, k: int, i: int, j: int) -> Map<(int, int), int> {
    Map::new(
        |p: (int, int)|
            (if p.0 < i || (p.0 == i && p.1 < j) {
                relaxed(m, k, p.0, p.1)
            } else {
                hops(m, p.0, p.1)
            }) is Some,
        |p: (int, int)|
            (if p.0 < i || (p.0 == i && p.1 < j) {
                relaxed(m, k, p.0, p.1)
            } else {
                hops(m, p.0, p.1)
            }).unwrap(),
    )
}

/// Relaxes the map through the intermediate entity `k`, and says whether any
/// entry was added or raised.
pub fn relax_via(m: &mut DistanceMatrix, k: usize) -> (changed: bool)
    requires
        old(m).wf(),
        k < old(m).size(),
    ensures
        final(m).wf(),
        final(m).size() == old(m).size(),
        final(m)@ == relax_through(old(m)@, k as int),
        changed == (final(m)@ != old(m)@),
{
    let n = m.entity_count();
    let ghost start = m@;
    let mut changed = false;
    let mut i: usize = 0;
    while i < n
        invariant
            m.wf(),
            m.size() == n,
            k < n,
            i <= n,
            is_distance_map(start, n as nat),
            m@ == relax_before(start, k as int, i as int, 0),
            changed == (m@ != start),
        decreases n - i,
    {
        let mut j: usize = 0;
        while j < n
            invariant
                m.wf(),
                m.size() == n,
                k < n,
                i < n,
                j <= n,
                is_distance_map(start, n as nat),
                m@ == relax_before(start, k as int, i as int, j as int),
                changed == (m@ != start),
            decreases n - j,
        {
            if i != j && i != k && j != k {
                if let Some(a) = m.get(i, k) {
                    if let Some(b) = m.get(k, j) {
                        let via = join_hops(a, b);
                        let raise = match m.get(i, j) {
                            Some(current) => via > current,
                            None => true,
                        };
                        if raise {
                            m.put(i, j, via);
                            changed = true;
                        }
                    }
                }
            }
            j += 1;
        }
        i += 1;
    }
    changed
}

/// Makes one pass: relaxes the map through every entity in index order, and
/// says whether any entry was added or raised.
pub fn relax_all(m: &mut DistanceMatrix) -> (changed: bool)
    requires
        old(m).wf(),
    ensures
        final(m).wf(),
        final(m).size() == old(m).size(),
        final(m)@ == relax_pass(old(m)@, old(m).size()),
        changed == (final(m)@ != old(m)@),
{
    let n = m.entity_count();
    let ghost start = m@;
    let mut changed = false;
    let mut k: usize = 0;
    while k < n
        invariant
            m.wf(),
            m.size() == n,
            k <= n,
            is_distance_map(start, n as nat),
            m@ == relax_pass(start, k as nat),
            extends(start, m@),
            changed == (m@ != start),
        decreases n - k,
    {
        let ghost prev = m@;
        let moved = relax_via(m, k);
        proof {
            lemma_relax_through_extends(prev, n as nat, k as int);
            if m@ == start {
                lemma_extends_antisymmetric(start, prev);
            }
        }
        if moved {
            changed = true;
        }
        k += 1;
    }
    changed
}

/// Brings the distance map to its closure: passes are made until one changes
/// nothing, at most one per entity.
pub fn update_distances(m: &mut DistanceMatrix)
    requires
        old(m).wf(),
    ensures
        final(m).wf(),
        final(m).size() == old(m).size(),
        final(m)@ == close(old(m)@, old(m).size(), old(m).size()),
{
    let n = m.entity_count();
    let ghost start = m@;
    let mut pass: usize = 0;
    while pass < n
        invariant_except_break
            close(start, n as nat, n as nat) == close(m@, n as nat, (n - pass) as nat),
        invariant
            m.wf(),
            m.size() == n,
            pass <= n,
        ensures
            m@ == close(start, n as nat, n as nat),
        decreases n - pass,
    {
        let changed = relax_all(m);
        pass += 1;
        if !changed {
            break;
        }
    }
}

} // verus!
