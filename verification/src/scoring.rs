//! Choice of the reference entity.
//!
//! A relation is read here as a pair of entity indices. An entity's score has
//! two parts: the number of relation records that touch it, and the sum, over
//! those records, of the first part of the entity at the other end. The
//! reference is the entity with the greatest score, the first part weighing
//! more; of several with the greatest score it is the one registered first.

use vstd::prelude::*;

verus! {

/// The relation `link` has `e` on one side or the other.
pub open spec fn touches(link: (int, int), e: int) -> bool {
    link.0 == e || link.1 == e
}

/// Some relation has `e` on one side or the other.
pub open spec fn is_touched(links: Seq<(int, int)>, e: int) -> bool {
    exists|i: int| 0 <= i < links.len() && #[trigger] touches(links[i], e)
}

/// The entity at the other end of a relation that touches `e`. For a relation
/// of `e` to itself this is `e`.
pub open spec fn other_end(link: (int, int), e: int) -> int {
    if link.0 == e {
        link.1
    } else {
        link.0
    }
}

/// How many of the first `upto` relations touch `e`.
pub open spec fn primary_upto(links: Seq<(int, int)>, e: int, upto: int) -> nat
    decreases upto,
{
    if upto <= 0 {
        0
    } else {
        primary_upto(links, e, upto - 1) + if touches(links[upto - 1], e) {
            1nat
        } else {
            0nat
        }
    }
}

/// First part of the score: the number of relation records that touch `e`,
/// a pair recorded twice counting twice.
pub open spec fn primary(links: Seq<(int, int)>, e: int) -> nat {
    primary_upto(links, e, links.len() as int)
}

/// The second part of the score, summed over the first `upto` relations only.
pub open spec fn secondary_upto(links: Seq<(int, int)>, e: int, upto: int) -> nat
    decreases upto,
{
    if upto <= 0 {
        0
    } else {
        secondary_upto(links, e, upto - 1) + if touches(links[upto - 1], e) {
            primary(links, other_end(links[upto - 1], e))
        } else {
            0nat
        }
    }
}

/// Second part of the score: over every relation record that touches `e`,
/// the sum of the first part of the entity at its other end.
pub open spec fn secondary(links: Seq<(int, int)>, e: int) -> nat {
    secondary_upto(links, e, links.len() as int)
}

/// The score of `a` is strictly greater than that of `b`.
pub open spec fn outranks(links: Seq<(int, int)>, a: int, b: int) -> bool {
    primary(links, a) > primary(links, b) || (primary(links, a) == primary(links, b) && secondary(
        links,
        a,
    ) > secondary(links, b))
}

/// `r` is the reference among the entities `0..n`: none outranks it, and it
/// outranks every entity registered before it.
pub open spec fn is_reference(links: Seq<(int, int)>, n: nat, r: int) -> bool {
    &&& 0 <= r < n
    &&& forall|e: int| 0 <= e < n ==> !outranks(links, e, r)
    &&& forall|e: int| 0 <= e < r ==> outranks(links, r, e)
}

/// The reference among the entities `0..n`. Meaningful when `n > 0`.
pub open spec fn reference_of(links: Seq<(int, int)>, n: nat) -> int {
    choose|r: int| is_reference(links, n, r)
}

/// There is one reference at most.
pub proof fn lemma_reference_unique(links: Seq<(int, int)>, n: nat, r: int, s: int)
    requires
        is_reference(links, n, r),
        is_reference(links, n, s),
    ensures
        r == s,
{
    if r < s {
        assert(outranks(links, s, r));
    } else if s < r {
        assert(outranks(links, r, s));
    }
}

/// An entity that satisfies `is_reference` is the one `reference_of` names.
pub proof fn lemma_reference_is_chosen(links: Seq<(int, int)>, n: nat, r: int)
    requires
        is_reference(links, n, r),
    ensures
        reference_of(links, n) == r,
{
    lemma_reference_unique(links, n, r, reference_of(links, n));
}

/// The first of the best among the entities `0..upto`: the entity that
/// none of them outranks and that outranks each of them before it.
spec fn leader(links: Seq<(int, int)>, upto: nat) -> int
    decreases upto,
{
    if upto <= 1 {
        0
    } else if outranks(links, upto - 1, leader(links, (upto - 1) as nat)) {
        upto - 1
    } else {
        leader(links, (upto - 1) as nat)
    }
}

/// The leader among `0..upto` is the reference among them.
proof fn lemma_leader(links: Seq<(int, int)>, upto: nat)
    requires
        upto > 0,
    ensures
        is_reference(links, upto, leader(links, upto)),
    decreases upto,
{
    if upto > 1 {
        lemma_leader(links, (upto - 1) as nat);
        let earlier = leader(links, (upto - 1) as nat);
        let last = upto - 1;
        let r = leader(links, upto);
        assert(is_reference(links, (upto - 1) as nat, earlier));
        assert forall|e: int| 0 <= e < upto implies !outranks(links, e, r) by {
            if e < last {
                assert(!outranks(links, e, earlier));
            }
        }
        assert forall|e: int| 0 <= e < r implies outranks(links, r, e) by {
            if r == last {
                assert(!outranks(links, e, earlier));
            } else {
                assert(outranks(links, earlier, e));
            }
        }
    }
}

/// Where there is an entity there is a reference, and `reference_of` names it.
pub proof fn lemma_reference_exists(links: Seq<(int, int)>, n: nat)
    requires
        n > 0,
    ensures
        is_reference(links, n, reference_of(links, n)),
{
    lemma_leader(links, n);
}

/// The relations held as machine indices, read as pairs of integers.
pub open spec fn link_ids(links: Seq<(usize, usize)>) -> Seq<(int, int)> {
    Seq::new(links.len(), |i: int| (links[i].0 as int, links[i].1 as int))
}

/// Both ends of every relation are entities among `0..n`.
pub open spec fn links_within(links: Seq<(usize, usize)>, n: nat) -> bool {
    forall|i: int| 0 <= i < links.len() ==> (#[trigger] links[i]).0 < n && links[i].1 < n
}

/// For each entity among `0..n`, the number of relation records that touch it.
pub fn count_connections(links: &Vec<(usize, usize)>, n: usize) -> (counts: Vec<usize>)
    ensures
        counts.len() == n,
        forall|e: int| 0 <= e < n ==> #[trigger] counts[e] == primary(link_ids(links@), e),
{
    let ghost ids = link_ids(links@);
    let mut counts: Vec<usize> = Vec::new();
    let mut e: usize = 0;
    while e < n
        invariant
            e <= n,
            ids == link_ids(links@),
            counts.len() == e,
            forall|x: int| 0 <= x < e ==> #[trigger] counts[x] == primary(ids, x),
        decreases n - e,
    {
        let mut count: usize = 0;
        let mut i: usize = 0;
        while i < links.len()
            invariant
                i <= links.len(),
                ids == link_ids(links@),
                count == primary_upto(ids, e as int, i as int),
                count <= i,
            decreases links.len() - i,
        {
            let link = links[i];
            if link.0 == e || link.1 == e {
                count += 1;
            }
            i += 1;
        }
        counts.push(count);
        e += 1;
    }
    counts
}

/// The score of entity `e`, from the connection counts of all entities.
pub fn reference_score(links: &Vec<(usize, usize)>, counts: &Vec<usize>, e: usize) -> (score: (
    usize,
    u128,
))
    requires
        links_within(links@, counts.len() as nat),
        e < counts.len(),
        forall|x: int|
            0 <= x < counts.len() ==> #[trigger] counts[x] == primary(link_ids(links@), x),
    ensures
        score.0 == primary(link_ids(links@), e as int),
        score.1 == secondary(link_ids(links@), e as int),
{
    let ghost ids = link_ids(links@);
    let mut sum: u128 = 0;
    let mut i: usize = 0;
    while i < links.len()
        invariant
            i <= links.len(),
            ids == link_ids(links@),
            links_within(links@, counts.len() as nat),
            e < counts.len(),
            forall|x: int| 0 <= x < counts.len() ==> #[trigger] counts[x] == primary(ids, x),
            sum == secondary_upto(ids, e as int, i as int),
            sum <= i * usize::MAX,
        decreases links.len() - i,
    {
        let link = links[i];
        proof {
            assert((i + 1) * usize::MAX == i * usize::MAX + usize::MAX) by (nonlinear_arith);
            assert((i + 1) * usize::MAX <= usize::MAX * usize::MAX) by (nonlinear_arith)
                requires
                    i + 1 <= usize::MAX,
            ;
            assert(usize::MAX * usize::MAX <= u128::MAX) by (nonlinear_arith)
                requires
                    usize::MAX <= 0xffff_ffff_ffff_ffff,
            ;
        }
        if link.0 == e {
            sum += counts[link.1] as u128;
        } else if link.1 == e {
            sum += counts[link.0] as u128;
        }
        i += 1;
    }
    (counts[e], sum)
}

/// The reference entity among `0..n`.
pub fn select_reference(links: &Vec<(usize, usize)>, n: usize) -> (r: usize)
    requires
        n > 0,
        links_within(links@, n as nat),
    ensures
        is_reference(link_ids(links@), n as nat, r as int),
{
    let ghost ids = link_ids(links@);
    let counts = count_connections(links, n);
    let mut best: usize = 0;
    let mut best_score = reference_score(links, &counts, 0);
    let mut e: usize = 1;
    while e < n
        invariant
            1 <= e <= n,
            best < e,
            ids == link_ids(links@),
            counts.len() == n,
            links_within(links@, n as nat),
            forall|x: int| 0 <= x < n ==> #[trigger] counts[x] == primary(ids, x),
            best_score.0 == primary(ids, best as int),
            best_score.1 == secondary(ids, best as int),
            forall|x: int| 0 <= x < e ==> !outranks(ids, x, best as int),
            forall|x: int| 0 <= x < best ==> outranks(ids, best as int, x),
        decreases n - e,
    {
        let score = reference_score(links, &counts, e);
        if score.0 > best_score.0 || (score.0 == best_score.0 && score.1 > best_score.1) {
            proof {
                assert forall|x: int| 0 <= x < e implies outranks(ids, e as int, x) && !outranks(
                    ids,
                    x,
                    e as int,
                ) by {
                    assert(!outranks(ids, x, best as int));
                }
            }
            best = e;
            best_score = score;
        }
        e += 1;
    }
    best
}

} // verus!
