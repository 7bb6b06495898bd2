//! The distance map: for an ordered pair of entities, the number of relation
//! hops on the longest path known from the first to the second.
//!
//! Entities are named by their index in registration order. The map is held
//! as a square table with one row and one column per entity; its view is the
//! partial map from index pairs to hop counts.

use vstd::prelude::*;

verus! {

/// Largest hop count a distance can hold. A longer path is recorded with this value.
pub const MAX_DISTANCE: i32 = 2147483647;

/// Sum of two hop counts, capped at `MAX_DISTANCE`.
pub open spec fn capped_sum(a: int, b: int) -> int {
    if a + b > MAX_DISTANCE as int {
        MAX_DISTANCE as int
    } else {
        a + b
    }
}

/// A distance map over `n` entities: every key is a pair of entity indices,
/// every value a positive hop count no greater than `MAX_DISTANCE`.
pub open spec fn is_distance_map(m: Map<(int, int), int>, n: nat) -> bool {
    forall|p: (int, int)| #[trigger]
        m.contains_key(p) ==> 0 <= p.0 < n && 0 <= p.1 < n && 1 <= m[p] <= MAX_DISTANCE as int
}

/// The hop count recorded for the pair `(i, j)`, if there is one.
pub open spec fn hops(m: Map<(int, int), int>, i: int, j: int) -> Option<int> {
    if m.contains_key((i, j)) {
        Some(m[(i, j)])
    } else {
        None
    }
}

/// The pair `p` comes before `(i, j)` when the pairs are read row by row.
pub open spec fn lies_before(p: (int, int), i: int, j: int) -> bool {
    p.0 < i || (p.0 == i && p.1 < j)
}

/// Executable form of `capped_sum` for two recorded hop counts.
pub fn join_hops(a: i32, b: i32) -> (r: i32)
    requires
        a >= 0,
        b >= 0,
    ensures
        r == capped_sum(a as int, b as int),
{
    if a > MAX_DISTANCE - b {
        MAX_DISTANCE
    } else {
        a + b
    }
}

/// The distance map of the engine.
pub struct DistanceMatrix {
    cells: Vec<Vec<Option<i32>>>,
}

impl View for DistanceMatrix {
    type V = Map<(int, int), int>;

    /// The partial map from pairs of entity indices to hop counts.
    closed spec fn view(&self) -> Map<(int, int), int> {
        Map::new(
            |p: (int, int)|
                0 <= p.0 < self.cells.len() && 0 <= p.1 < self.cells[p.0].len()
                    && self.cells[p.0][p.1] is Some,
            |p: (int, int)| self.cells[p.0][p.1].unwrap() as int,
        )
    }
}

impl DistanceMatrix {
    /// Number of entities the map has room for.
    pub closed spec fn size(&self) -> nat {
        self.cells.len() as nat
    }

    /// The table is square.
    pub closed spec fn is_square(&self) -> bool {
        forall|i: int| 0 <= i < self.cells.len() ==> (#[trigger] self.cells[i]).len() == self.cells.len()
    }

    /// Well-formedness: a square table that holds a distance map.
    pub open spec fn wf(&self) -> bool {
        &&& self.is_square()
        &&& is_distance_map(self@, self.size())
    }

    /// A map over no entity, with no entry.
    pub fn new() -> (m: DistanceMatrix)
        ensures
            m.wf(),
            m.size() == 0,
            m@ == Map::<(int, int), int>::empty(),
    {
        DistanceMatrix { cells: Vec::new() }
    }

    /// Number of entities the map has room for.
    pub fn entity_count(&self) -> (n: usize)
        ensures
            n == self.size(),
    {
        self.cells.len()
    }

    /// Makes room for one more entity. No entry is added or changed.
    pub fn grow(&mut self)
        requires
            old(self).wf(),
        ensures
            final(self).wf(),
            final(self).size() == old(self).size() + 1,
            final(self)@ == old(self)@,
    {
        let n = self.cells.len();
        let ghost before = *self;
        let mut r: usize = 0;
        while r < n
            invariant
                r <= n,
                n == before.cells.len(),
                before.is_square(),
                self.cells.len() == n,
                forall|i: int| 0 <= i < r ==> #[trigger] self.cells[i]@ == before.cells[i]@.push(None),
                forall|i: int| r <= i < n ==> #[trigger] self.cells[i] == before.cells[i],
            decreases n - r,
        {
            self.cells[r].push(None);
            r += 1;
        }
        let mut row: Vec<Option<i32>> = Vec::new();
        let mut c: usize = 0;
        while c < n
            invariant
                c <= n,
                row.len() == c,
                forall|j: int| 0 <= j < c ==> #[trigger] row[j] is None,
            decreases n - c,
        {
            row.push(None);
            c += 1;
        }
        row.push(None);
        self.cells.push(row);
        assert(self@ =~= before@);
    }

    /// The hop count recorded for `(i, j)`, if there is one.
    pub fn get(&self, i: usize, j: usize) -> (h: Option<i32>)
        requires
            self.wf(),
            i < self.size(),
            j < self.size(),
        ensures
            match h {
                Some(d) => hops(self@, i as int, j as int) == Some(d as int),
                None => hops(self@, i as int, j as int) is None,
            },
    {
        self.cells[i][j]
    }

    /// Records `d` hops for `(i, j)`, in place of what was recorded for that pair.
    pub fn put(&mut self, i: usize, j: usize, d: i32)
        requires
            old(self).wf(),
            i < old(self).size(),
            j < old(self).size(),
            d >= 1,
        ensures
            final(self).wf(),
            final(self).size() == old(self).size(),
            final(self)@ == old(self)@.insert((i as int, j as int), d as int),
    {
        let ghost before = self@;
        self.cells[i][j] = Some(d);
        assert(self@ =~= before.insert((i as int, j as int), d as int));
    }

    /// Number of entries of the map.
    pub fn entry_count(&self) -> (count: u128)
        requires
            self.wf(),
        ensures
            self@.dom().finite(),
            count == self@.dom().len(),
    {
        let n = self.cells.len();
        let ghost mut seen: Set<(int, int)> = Set::empty();
        let mut count: u128 = 0;
        let mut i: usize = 0;
        while i < n
            invariant
                self.wf(),
                n == self.cells.len(),
                i <= n,
                seen.finite(),
                count == seen.len(),
                count <= i * n,
                forall|p: (int, int)|
                    seen.contains(p) <==> self@.contains_key(p) && lies_before(p, i as int, 0),
            decreases n - i,
        {
            let mut j: usize = 0;
            while j < n
                invariant
                    self.wf(),
                    n == self.cells.len(),
                    i < n,
                    j <= n,
                    seen.finite(),
                    count == seen.len(),
                    count <= i * n + j,
                    forall|p: (int, int)|
                        seen.contains(p) <==> self@.contains_key(p) && lies_before(
                            p,
                            i as int,
                            j as int,
                        ),
                decreases n - j,
            {
                proof {
                    assert(i * n + n <= n * n) by (nonlinear_arith)
                        requires
                            i < n,
                    ;
                    assert(n * n <= u128::MAX) by (nonlinear_arith)
                        requires
                            n <= 0xffff_ffff_ffff_ffff,
                    ;
                }
                if self.cells[i][j].is_some() {
                    count += 1;
                    proof {
                        seen = seen.insert((i as int, j as int));
                    }
                }
                j += 1;
            }
            proof {
                assert((i + 1) * n == i * n + n) by (nonlinear_arith);
            }
            i += 1;
        }
        proof {
            assert(seen =~= self@.dom());
        }
        count
    }
}

} // verus!
