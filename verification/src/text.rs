//! The order in which entity names are listed: lexicographic, character by
//! character, a character ranking by its code point.

use vstd::prelude::*;
use vstd::std_specs::iter::IteratorSpec;

verus! {

/// `a` and `b` agree on their first `k` characters, and at position `k`
/// either `a` has ended and `b` has not, or `a` holds the smaller character.
pub open spec fn precedes_at(a: Seq<char>, b: Seq<char>, k: int) -> bool {
    &&& 0 <= k <= a.len()
    &&& k < b.len()
    &&& forall|t: int| 0 <= t < k ==> a[t] == b[t]
    &&& k < a.len() ==> (a[k] as int) < (b[k] as int)
}

/// `a` comes strictly before `b` in lexicographic order.
pub open spec fn name_lt(a: Seq<char>, b: Seq<char>) -> bool {
    exists|k: int| precedes_at(a, b, k)
}

/// No name comes before itself.
pub proof fn lemma_name_lt_irreflexive(a: Seq<char>)
    ensures
        !name_lt(a, a),
{
}

/// The order is transitive.
pub proof fn lemma_name_lt_transitive(a: Seq<char>, b: Seq<char>, c: Seq<char>)
    requires
        name_lt(a, b),
        name_lt(b, c),
    ensures
        name_lt(a, c),
{
    let k1 = choose|k: int| precedes_at(a, b, k);
    let k2 = choose|k: int| precedes_at(b, c, k);
    let k = if k1 <= k2 { k1 } else { k2 };
    assert(precedes_at(a, c, k));
}

/// Of two names that agree on their first `k` characters and differ, one
/// comes before the other.
proof fn lemma_differ_from(a: Seq<char>, b: Seq<char>, k: int)
    requires
        0 <= k <= a.len(),
        k <= b.len(),
        forall|t: int| 0 <= t < k ==> a[t] == b[t],
        a != b,
    ensures
        name_lt(a, b) || name_lt(b, a),
    decreases a.len() - k,
{
    if k == a.len() {
        if k == b.len() {
            assert(a =~= b);
        } else {
            assert(precedes_at(a, b, k));
        }
    } else if k == b.len() {
        assert(precedes_at(b, a, k));
    } else if a[k] == b[k] {
        lemma_differ_from(a, b, k + 1);
    } else if (a[k] as int) < (b[k] as int) {
        assert(precedes_at(a, b, k));
    } else {
        assert(precedes_at(b, a, k));
    }
}

/// Of two different names, one comes before the other.
pub proof fn lemma_name_lt_total(a: Seq<char>, b: Seq<char>)
    requires
        a != b,
    ensures
        name_lt(a, b) || name_lt(b, a),
{
    lemma_differ_from(a, b, 0);
}

/// Says whether `a` comes strictly before `b`.
pub fn name_less(a: &str, b: &str) -> (r: bool)
    ensures
        r == name_lt(a@, b@),
{
    broadcast use vstd::string::group_string_axioms;

    let mut x = a.chars();
    let mut y = b.chars();
    let ghost mut k: int = 0;
    loop
        invariant
            0 <= k <= a@.len(),
            k <= b@.len(),
            forall|t: int| 0 <= t < k ==> a@[t] == b@[t],
            x.remaining() == a@.skip(k),
            y.remaining() == b@.skip(k),
        decreases a@.len() - k,
    {
        let right = y.next();
        match right {
            None => {
                return false;
            },
            Some(d) => {
                let left = x.next();
                match left {
                    None => {
                        assert(precedes_at(a@, b@, k));
                        return true;
                    },
                    Some(c) => {
                        if c != d {
                            let before = c < d;
                            proof {
                                if before {
                                    assert(precedes_at(a@, b@, k));
                                } else {
                                    assert forall|t: int| !precedes_at(a@, b@, t) by {}
                                }
                            }
                            return before;
                        }
                        proof {
                            k = k + 1;
                        }
                    },
                }
            },
        }
    }
}

} // verus!
