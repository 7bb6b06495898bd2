//! Normalisation of the layers and grouping of the entities by layer.
//!
//! Layers are shifted so that the lowest is 0 if it was negative. The
//! entities are then listed in buckets, one bucket for each layer that holds
//! an entity, the buckets in ascending order of layer and the names inside a
//! bucket in lexicographic order.

use vstd::prelude::*;
use crate::registry::rank_of;
use crate::text::{lemma_name_lt_total, lemma_name_lt_transitive, name_less, name_lt};

verus! {

/// The layers shifted so that the lowest is 0, if the lowest was negative;
/// the layers as they are otherwise.
pub open spec fn normalized(layers: Seq<int>) -> Seq<int> {
    if layers.len() > 0 && layers.min() < 0 {
        Seq::new(layers.len(), |e: int| layers[e] - layers.min())
    } else {
        layers
    }
}

/// Normalisation keeps the number of layers and the distance between any
/// two of them, leaves no position negative, and brings the lowest position
/// to 0 where a layer was negative.
pub proof fn lemma_normalized(layers: Seq<int>)
    ensures
        normalized(layers).len() == layers.len(),
        forall|e: int| 0 <= e < layers.len() ==> #[trigger] normalized(layers)[e] >= 0,
        forall|d: int, e: int|
            0 <= d < layers.len() && 0 <= e < layers.len() ==> #[trigger] normalized(layers)[d]
                - #[trigger] normalized(layers)[e] == layers[d] - layers[e],
        layers.len() > 0 && layers.min() < 0 ==> normalized(layers).contains(0),
{
    layers.min_ensures();
    if layers.len() > 0 && layers.min() < 0 {
        let e = choose|e: int| 0 <= e < layers.len() && layers[e] == layers.min();
        assert(normalized(layers)[e] == 0);
    }
}

/// The positions held in machine integers, read as integers.
pub open spec fn position_values(positions: Seq<u64>) -> Seq<int> {
    Seq::new(positions.len(), |e: int| positions[e] as int)
}

/// The position of the entity named `x`.
pub open spec fn layer_of(names: Seq<Seq<char>>, positions: Seq<int>, x: Seq<char>) -> int {
    positions[rank_of(names, x)]
}

/// `p` is a place in bucket `b`.
pub open spec fn in_bucket(buckets: Seq<Seq<Seq<char>>>, b: int, p: int) -> bool {
    0 <= b < buckets.len() && 0 <= p < buckets[b].len()
}

/// Some bucket holds the name `x`.
pub open spec fn is_listed(buckets: Seq<Seq<Seq<char>>>, x: Seq<char>) -> bool {
    exists|b: int, p: int| #[trigger] in_bucket(buckets, b, p) && buckets[b][p] == x
}

/// `buckets` is the grouping by layer of the entities `names`, the entity
/// `names[e]` lying at `positions[e]`: no bucket is empty, the buckets hold
/// names of entities and every entity's name, the names inside a bucket
/// ascend, and one name lies in an earlier bucket than another exactly when
/// its entity lies at a lower position.
pub open spec fn is_layering(
    names: Seq<Seq<char>>,
    positions: Seq<int>,
    buckets: Seq<Seq<Seq<char>>>,
) -> bool {
    &&& forall|b: int| 0 <= b < buckets.len() ==> (#[trigger] buckets[b]).len() > 0
    &&& forall|b: int, p: int| #[trigger]
        in_bucket(buckets, b, p) ==> names.contains(buckets[b][p])
    &&& forall|e: int| 0 <= e < names.len() ==> #[trigger] is_listed(buckets, names[e])
    &&& forall|b: int, p: int, q: int|
        #![trigger in_bucket(buckets, b, p), in_bucket(buckets, b, q)]
        in_bucket(buckets, b, p) && in_bucket(buckets, b, q) && p < q ==> name_lt(
            buckets[b][p],
            buckets[b][q],
        )
    &&& forall|b: int, p: int, c: int, q: int|
        #![trigger in_bucket(buckets, b, p), in_bucket(buckets, c, q)]
        in_bucket(buckets, b, p) && in_bucket(buckets, c, q) ==> (b < c <==> layer_of(
            names,
            positions,
            buckets[b][p],
        ) < layer_of(names, positions, buckets[c][q]))
}

/// The buckets are disjoint, no bucket holds a name twice, and together they
/// hold exactly the names of the entities.
pub open spec fn is_partition(names: Seq<Seq<char>>, buckets: Seq<Seq<Seq<char>>>) -> bool {
    &&& forall|b: int, p: int, c: int, q: int|
        #![trigger in_bucket(buckets, b, p), in_bucket(buckets, c, q)]
        in_bucket(buckets, b, p) && in_bucket(buckets, c, q) && buckets[b][p] == buckets[c][q]
            ==> b == c && p == q
    &&& forall|x: Seq<char>| names.contains(x) <==> #[trigger] is_listed(buckets, x)
}

/// Shifts the layers so that the lowest is 0 if it was negative.
pub fn normalize(layers: &Vec<i64>) -> (positions: Vec<u64>)
    ensures
        positions.len() == layers.len(),
        position_values(positions@) == normalized(crate::placement::layer_values(layers@)),
{
    let ghost values = crate::placement::layer_values(layers@);
    let n = layers.len();
    let mut positions: Vec<u64> = Vec::new();
    if n == 0 {
        return positions;
    }
    let mut lowest: i64 = layers[0];
    let ghost mut at: int = 0;
    let mut e: usize = 1;
    while e < n
        invariant
            1 <= e <= n,
            n == layers.len(),
            0 <= at < e,
            layers[at] == lowest,
            forall|x: int| 0 <= x < e ==> lowest <= #[trigger] layers[x],
        decreases n - e,
    {
        if layers[e] < lowest {
            lowest = layers[e];
            proof {
                at = e as int;
            }
        }
        e += 1;
    }
    proof {
        values.min_ensures();
        assert(values[at] == lowest as int);
    }
    let mut x: usize = 0;
    while x < n
        invariant
            x <= n,
            n == layers.len(),
            positions.len() == x,
            values == crate::placement::layer_values(layers@),
            values.min() == lowest as int,
            forall|y: int| 0 <= y < n ==> lowest <= #[trigger] layers[y],
            forall|y: int| 0 <= y < x ==> (#[trigger] positions[y]) as int == normalized(values)[y],
        decreases n - x,
    {
        let position: u64 = if lowest < 0 {
            (layers[x] as i128 - lowest as i128) as u64
        } else {
            layers[x] as u64
        };
        positions.push(position);
        x += 1;
    }
    positions
}

/// The positions that hold an entity, each once, in ascending order.
pub fn distinct_levels(positions: &Vec<u64>) -> (levels: Vec<u64>)
    ensures
        forall|a: int, b: int| 0 <= a < b < levels.len() ==> levels[a] < levels[b],
        forall|t: int| 0 <= t < levels.len() ==> positions@.contains(#[trigger] levels[t]),
        forall|e: int| 0 <= e < positions.len() ==> levels@.contains(#[trigger] positions[e]),
{
    let mut levels: Vec<u64> = Vec::new();
    let mut e: usize = 0;
    while e < positions.len()
        invariant
            e <= positions.len(),
            forall|a: int, b: int| 0 <= a < b < levels.len() ==> levels[a] < levels[b],
            forall|t: int| 0 <= t < levels.len() ==> positions@.contains(#[trigger] levels[t]),
            forall|x: int| 0 <= x < e ==> levels@.contains(#[trigger] positions[x]),
        decreases positions.len() - e,
    {
        let value = positions[e];
        let mut t: usize = 0;
        while t < levels.len() && levels[t] < value
            invariant
                t <= levels.len(),
                forall|u: int| 0 <= u < t ==> levels[u] < value,
            decreases levels.len() - t,
        {
            t += 1;
        }
        if t == levels.len() || levels[t] != value {
            let ghost before = levels@;
            levels.insert(t, value);
            proof {
                before.insert_ensures(t as int, value);
                assert forall|x: int| 0 <= x < e + 1 implies levels@.contains(
                    #[trigger] positions[x],
                ) by {
                    if x < e {
                        let w = choose|w: int| 0 <= w < before.len() && before[w] == positions[x];
                        if w < t {
                            assert(levels[w] == positions[x]);
                        } else {
                            assert(levels[w + 1] == positions[x]);
                        }
                    } else {
                        assert(levels[t as int] == positions[x]);
                    }
                }
                assert forall|u: int| 0 <= u < levels.len() implies positions@.contains(
                    #[trigger] levels[u],
                ) by {
                    if u < t {
                        assert(levels[u] == before[u]);
                    } else if u == t {
                        assert(positions[e as int] == levels[u]);
                    } else {
                        assert(levels[u] == before[u - 1]);
                    }
                }
            }
        }
        e += 1;
    }
    levels
}

/// The entity `e` is listed in `ids`.
pub open spec fn holds(ids: Seq<usize>, e: int) -> bool {
    exists|p: int| 0 <= p < ids.len() && #[trigger] ids[p] == e
}

/// `ids` lists the entities that lie at `level`, each once, in ascending
/// order of their names.
pub open spec fn is_bucket_of(
    names: Seq<Seq<char>>,
    positions: Seq<u64>,
    level: u64,
    ids: Seq<usize>,
) -> bool {
    &&& forall|p: int|
        0 <= p < ids.len() ==> (#[trigger] ids[p]) < names.len() && positions[ids[p] as int]
            == level
    &&& forall|e: int|
        0 <= e < positions.len() && #[trigger] positions[e] == level ==> holds(ids, e)
    &&& forall|p: int, q: int|
        0 <= p < q < ids.len() ==> name_lt(
            names[(#[trigger] ids[p]) as int],
            names[(#[trigger] ids[q]) as int],
        )
}

/// The entities that lie at `level`, in ascending order of their names.
pub fn members_of(names: &Vec<String>, positions: &Vec<u64>, level: u64) -> (ids: Vec<usize>)
    requires
        names.len() == positions.len(),
        names.deep_view().no_duplicates(),
    ensures
        is_bucket_of(names.deep_view(), positions@, level, ids@),
{
    let ghost labels = names.deep_view();
    let n = names.len();
    let mut ids: Vec<usize> = Vec::new();
    let mut e: usize = 0;
    while e < n
        invariant
            e <= n,
            n == names.len(),
            n == positions.len(),
            labels == names.deep_view(),
            labels.no_duplicates(),
            forall|p: int|
                0 <= p < ids.len() ==> (#[trigger] ids[p]) < e && positions[ids[p] as int] == level,
            forall|x: int| 0 <= x < e && #[trigger] positions[x] == level ==> holds(ids@, x),
            forall|p: int, q: int|
                0 <= p < q < ids.len() ==> name_lt(
                    labels[(#[trigger] ids[p]) as int],
                    labels[(#[trigger] ids[q]) as int],
                ),
        decreases n - e,
    {
        if positions[e] == level {
            let mut t: usize = 0;
            while t < ids.len() && name_less(names[ids[t]].as_str(), names[e].as_str())
                invariant
                    t <= ids.len(),
                    e < n,
                    n == names.len(),
                    labels == names.deep_view(),
                    forall|p: int| 0 <= p < ids.len() ==> (#[trigger] ids[p]) < e,
                    forall|u: int|
                        0 <= u < t ==> name_lt(labels[(#[trigger] ids[u]) as int], labels[e as int]),
                decreases ids.len() - t,
            {
                t += 1;
            }
            let ghost before = ids@;
            ids.insert(t, e);
            proof {
                before.insert_ensures(t as int, e);
                assert forall|p: int, q: int| 0 <= p < q < ids.len() implies name_lt(
                    labels[(#[trigger] ids[p]) as int],
                    labels[(#[trigger] ids[q]) as int],
                ) by {
                    let old_p = if p < t { p } else { p - 1 };
                    let old_q = if q < t { q } else { q - 1 };
                    if q == t {
                        assert(ids[p] == before[p]);
                    } else if p == t {
                        // the name at `t` before the insertion does not come before the new one
                        assert(ids[q] == before[old_q]);
                        assert(before[t as int] < e);
                        assert(labels[before[t as int] as int] != labels[e as int]);
                        lemma_name_lt_total(labels[before[t as int] as int], labels[e as int]);
                        if old_q > t {
                            assert(name_lt(
                                labels[before[t as int] as int],
                                labels[before[old_q] as int],
                            ));
                            lemma_name_lt_transitive(
                                labels[e as int],
                                labels[before[t as int] as int],
                                labels[before[old_q] as int],
                            );
                        }
                    } else {
                        assert(ids[p] == before[old_p]);
                        assert(ids[q] == before[old_q]);
                    }
                }
                assert forall|x: int|
                    0 <= x < e + 1 && #[trigger] positions[x] == level implies holds(ids@, x) by {
                    if x < e {
                        assert(holds(before, x));
                        let w = choose|w: int| 0 <= w < before.len() && #[trigger] before[w] == x;
                        if w < t {
                            assert(ids[w] == x);
                        } else {
                            assert(ids[w + 1] == x);
                        }
                    } else {
                        assert(ids[t as int] == x);
                    }
                }
                assert forall|p: int| 0 <= p < ids.len() implies (#[trigger] ids[p]) < e + 1
                    && positions[ids[p] as int] == level by {
                    if p < t {
                        assert(ids[p] == before[p]);
                    } else if p > t {
                        assert(ids[p] == before[p - 1]);
                    }
                }
            }
        }
        e += 1;
    }
    ids
}

/// Buckets built level by level, each from the entities at its level in
/// ascending order of name, are the grouping by layer.
proof fn lemma_buckets_are_layering(
    names: Seq<Seq<char>>,
    positions: Seq<u64>,
    levels: Seq<u64>,
    groups: Seq<Seq<usize>>,
    buckets: Seq<Seq<Seq<char>>>,
)
    requires
        names.len() == positions.len(),
        names.no_duplicates(),
        forall|a: int, b: int| 0 <= a < b < levels.len() ==> levels[a] < levels[b],
        forall|t: int| 0 <= t < levels.len() ==> positions.contains(#[trigger] levels[t]),
        forall|e: int| 0 <= e < positions.len() ==> levels.contains(#[trigger] positions[e]),
        groups.len() == levels.len(),
        buckets.len() == levels.len(),
        forall|c: int|
            0 <= c < levels.len() ==> is_bucket_of(names, positions, levels[c], #[trigger] groups[c]),
        forall|c: int| 0 <= c < levels.len() ==> (#[trigger] buckets[c]).len() == groups[c].len(),
        forall|c: int, p: int|
            0 <= c < levels.len() && 0 <= p < groups[c].len() ==> #[trigger] buckets[c][p]
                == names[groups[c][p] as int],
    ensures
        is_layering(names, position_values(positions), buckets),
{
    assert forall|e: int| 0 <= e < names.len() implies #[trigger] is_listed(buckets, names[e]) by {
        assert(levels.contains(positions[e]));
        let b = choose|b: int| 0 <= b < levels.len() && levels[b] == positions[e];
        assert(is_bucket_of(names, positions, levels[b], groups[b]));
        assert(holds(groups[b], e));
        let p = choose|p: int| 0 <= p < groups[b].len() && #[trigger] groups[b][p] == e;
        assert(in_bucket(buckets, b, p) && buckets[b][p] == names[e]);
    }
}

/// The grouping by layer is a partition of the entities: the buckets are
/// disjoint, and their union is the set of entity names.
pub proof fn lemma_layering_is_partition(
    names: Seq<Seq<char>>,
    positions: Seq<int>,
    buckets: Seq<Seq<Seq<char>>>,
)
    requires
        is_layering(names, positions, buckets),
    ensures
        is_partition(names, buckets),
{
}

/// The names of `s` ascend strictly.
pub open spec fn ascends(s: Seq<Seq<char>>) -> bool {
    forall|p: int, q: int| 0 <= p < q < s.len() ==> name_lt(#[trigger] s[p], #[trigger] s[q])
}

/// Two strictly ascending lists of names with the same members are the same list.
pub proof fn lemma_ascending_unique(s: Seq<Seq<char>>, t: Seq<Seq<char>>)
    requires
        ascends(s),
        ascends(t),
        forall|x: Seq<char>| s.contains(x) <==> t.contains(x),
    ensures
        s == t,
    decreases s.len(),
{
    if s.len() == 0 {
        if t.len() > 0 {
            assert(t.contains(t[0]));
        }
        assert(s =~= t);
    } else {
        assert(s.contains(s[0]));
        let q = choose|q: int| 0 <= q < t.len() && t[q] == s[0];
        assert(t.contains(t[0]));
        let p = choose|p: int| 0 <= p < s.len() && s[p] == t[0];
        if q > 0 {
            assert(name_lt(t[0], t[q]));
            if p > 0 {
                assert(name_lt(s[0], s[p]));
                lemma_name_lt_transitive(s[0], t[0], s[0]);
            }
            crate::text::lemma_name_lt_irreflexive(s[0]);
        }
        assert(s[0] == t[0]);
        let s1 = s.drop_first();
        let t1 = t.drop_first();
        assert forall|x: Seq<char>| s1.contains(x) <==> t1.contains(x) by {
            crate::text::lemma_name_lt_irreflexive(x);
            if s1.contains(x) {
                let i = choose|i: int| 0 <= i < s1.len() && s1[i] == x;
                assert(s[i + 1] == x);
                assert(name_lt(s[0], s[i + 1]));
                assert(s.contains(x));
                let j = choose|j: int| 0 <= j < t.len() && t[j] == x;
                assert(j > 0);
                assert(t1[j - 1] == x);
            }
            if t1.contains(x) {
                let j = choose|j: int| 0 <= j < t1.len() && t1[j] == x;
                assert(t[j + 1] == x);
                assert(name_lt(t[0], t[j + 1]));
                assert(t.contains(x));
                let i = choose|i: int| 0 <= i < s.len() && s[i] == x;
                assert(i > 0);
                assert(s1[i - 1] == x);
            }
        }
        lemma_ascending_unique(s1, t1);
        assert(s =~= seq![s[0]] + s1);
        assert(t =~= seq![t[0]] + t1);
    }
}

/// Of two groupings by layer of the same entities at the same positions,
/// the second has every bucket of the first, with every name that the first
/// holds there.
proof fn lemma_bucket_within(
    names: Seq<Seq<char>>,
    positions: Seq<int>,
    first: Seq<Seq<Seq<char>>>,
    second: Seq<Seq<Seq<char>>>,
    b: int,
)
    requires
        is_layering(names, positions, first),
        is_layering(names, positions, second),
        0 <= b < first.len(),
    ensures
        b < second.len(),
        forall|x: Seq<char>| first[b].contains(x) ==> second[b].contains(x),
    decreases b,
{
    lemma_layering_is_partition(names, positions, first);
    lemma_layering_is_partition(names, positions, second);
    assert forall|p: int| 0 <= p < first[b].len() implies b < second.len() && second[b].contains(
        #[trigger] first[b][p],
    ) by {
        let x = first[b][p];
        assert(in_bucket(first, b, p));
        assert(names.contains(x));
        assert(is_listed(second, x));
        let (c, q) = choose|c: int, q: int| #[trigger]
            in_bucket(second, c, q) && second[c][q] == x;
        assert(in_bucket(second, c, q));
        if c < b {
            lemma_bucket_within(names, positions, second, first, c);
            assert(second[c].contains(x));
            assert(first[c].contains(x));
            let slot = choose|slot: int| 0 <= slot < first[c].len() && first[c][slot] == x;
            assert(in_bucket(first, c, slot));
            assert(false);
        } else if c > b {
            assert(second[b].len() > 0);
            let y = second[b][0];
            assert(in_bucket(second, b, 0));
            assert(names.contains(y));
            assert(is_listed(first, y));
            let (d, r) = choose|d: int, r: int| #[trigger]
                in_bucket(first, d, r) && first[d][r] == y;
            assert(in_bucket(first, d, r));
            assert(layer_of(names, positions, y) < layer_of(names, positions, x));
            assert(d < b);
            lemma_bucket_within(names, positions, first, second, d);
            assert(first[d].contains(y));
            assert(second[d].contains(y));
            let slot = choose|slot: int| 0 <= slot < second[d].len() && second[d][slot] == y;
            assert(in_bucket(second, d, slot));
            assert(false);
        }
        assert(second[b][q] == x);
    }
    assert(first[b].len() > 0);
    assert(second[b].contains(first[b][0]));
}

/// The grouping by layer is determined by the entities and their positions:
/// any two groupings of the same entities at the same positions are equal.
pub proof fn lemma_layering_unique(
    names: Seq<Seq<char>>,
    positions: Seq<int>,
    first: Seq<Seq<Seq<char>>>,
    second: Seq<Seq<Seq<char>>>,
)
    requires
        is_layering(names, positions, first),
        is_layering(names, positions, second),
    ensures
        first == second,
{
    if first.len() > 0 {
        lemma_bucket_within(names, positions, first, second, first.len() - 1);
    }
    if second.len() > 0 {
        lemma_bucket_within(names, positions, second, first, second.len() - 1);
    }
    assert(first.len() == second.len());
    assert forall|b: int| 0 <= b < first.len() implies first[b] == second[b] by {
        lemma_bucket_within(names, positions, first, second, b);
        lemma_bucket_within(names, positions, second, first, b);
        assert(ascends(first[b])) by {
            assert forall|p: int, q: int| 0 <= p < q < first[b].len() implies name_lt(
                #[trigger] first[b][p],
                #[trigger] first[b][q],
            ) by {
                assert(in_bucket(first, b, p) && in_bucket(first, b, q));
            }
        }
        assert(ascends(second[b])) by {
            assert forall|p: int, q: int| 0 <= p < q < second[b].len() implies name_lt(
                #[trigger] second[b][p],
                #[trigger] second[b][q],
            ) by {
                assert(in_bucket(second, b, p) && in_bucket(second, b, q));
            }
        }
        lemma_ascending_unique(first[b], second[b]);
    }
    assert(first =~= second);
}

/// Groups the entities by position: one bucket for each position that holds
/// an entity, in ascending order of position, the names inside a bucket in
/// lexicographic order.
pub fn group_by_layer(names: &Vec<String>, positions: &Vec<u64>) -> (buckets: Vec<Vec<String>>)
    requires
        names.len() == positions.len(),
        names.deep_view().no_duplicates(),
    ensures
        is_layering(names.deep_view(), position_values(positions@), buckets.deep_view()),
        is_partition(names.deep_view(), buckets.deep_view()),
{
    let ghost labels = names.deep_view();
    let levels = distinct_levels(positions);
    let mut buckets: Vec<Vec<String>> = Vec::new();
    let ghost mut groups: Seq<Seq<usize>> = Seq::empty();
    let mut b: usize = 0;
    while b < levels.len()
        invariant
            b <= levels.len(),
            names.len() == positions.len(),
            labels == names.deep_view(),
            labels.no_duplicates(),
            buckets.len() == b,
            groups.len() == b,
            forall|c: int|
                0 <= c < b ==> is_bucket_of(labels, positions@, levels[c], #[trigger] groups[c]),
            forall|c: int| 0 <= c < b ==> (#[trigger] buckets[c]).len() == groups[c].len(),
            forall|c: int, p: int|
                0 <= c < b && 0 <= p < groups[c].len() ==> (#[trigger] buckets[c][p])@
                    == labels[groups[c][p] as int],
        decreases levels.len() - b,
    {
        let ids = members_of(names, positions, levels[b]);
        let mut bucket: Vec<String> = Vec::new();
        let mut p: usize = 0;
        while p < ids.len()
            invariant
                p <= ids.len(),
                labels == names.deep_view(),
                is_bucket_of(labels, positions@, levels[b as int], ids@),
                bucket.len() == p,
                forall|q: int| 0 <= q < p ==> (#[trigger] bucket[q])@ == labels[ids[q] as int],
            decreases ids.len() - p,
        {
            let name = names[ids[p]].clone();
            bucket.push(name);
            p += 1;
        }
        buckets.push(bucket);
        proof {
            groups = groups.push(ids@);
        }
        b += 1;
    }
    proof {
        let shown = buckets.deep_view();
        assert forall|c: int, p: int|
            0 <= c < levels.len() && 0 <= p < groups[c].len() implies #[trigger] shown[c][p]
            == labels[groups[c][p] as int] by {
            assert(shown[c][p] == buckets[c][p]@);
        }
        assert forall|c: int| 0 <= c < levels.len() implies (#[trigger] shown[c]).len()
            == groups[c].len() by {
            assert(shown[c].len() == buckets[c].len());
        }
        lemma_buckets_are_layering(labels, positions@, levels@, groups, shown);
        lemma_layering_is_partition(labels, position_values(positions@), shown);
    }
    buckets
}

} // verus!
