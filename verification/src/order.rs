//! The mass-descending processing order shared by the maintenance passes.
//!
//! Both the parent-tree reconstruction and the sibling selection walk the
//! bodies from the heaviest down. Bodies are handled as `(index, mass key)`
//! pairs; on equal mass keys the smaller index goes first, which makes the
//! order total and the sorted sequence unique.

use vstd::prelude::*;
use vstd::relations::{sorted_by, total_ordering};
use vstd::seq_lib::lemma_sorted_unique;

verus! {

/// Does `a` come no later than `b` in the processing order? Heavier mass
/// first; on equal masses the smaller body index first.
pub open spec fn mass_order(a: (usize, u64), b: (usize, u64)) -> bool {
    a.1 > b.1 || (a.1 == b.1 && a.0 <= b.0)
}

/// [`mass_order`] as a relation value, for use with ordering lemmas.
pub open spec fn mass_order_fn() -> spec_fn((usize, u64), (usize, u64)) -> bool {
    |a: (usize, u64), b: (usize, u64)| mass_order(a, b)
}

/// The processing order is a total ordering: reflexive, antisymmetric,
/// transitive and strongly connected.
pub proof fn lemma_mass_order_total()
    ensures
        total_ordering(mass_order_fn()),
{
    let leq = mass_order_fn();
    assert forall|a: (usize, u64), b: (usize, u64)| #[trigger] leq(a, b) && #[trigger] leq(
        b,
        a,
    ) implies a == b by {
        assert(a.0 == b.0 && a.1 == b.1);
    }
}

/// The index of an element that precedes every element of `v`.
fn best_index(v: &Vec<(usize, u64)>) -> (r: usize)
    requires
        v@.len() > 0,
    ensures
        r < v@.len(),
        forall|k: int| 0 <= k < v@.len() ==> mass_order(v@[r as int], v@[k]),
{
    let mut best: usize = 0;
    let mut i: usize = 1;
    while i < v.len()
        invariant
            best < i,
            i <= v@.len(),
            forall|k: int| 0 <= k < i ==> mass_order(v@[best as int], v@[k]),
        decreases v@.len() - i,
    {
        let (bi, bm) = v[best];
        let (ci, cm) = v[i];
        if cm > bm || (cm == bm && ci < bi) {
            best = i;
        }
        i += 1;
    }
    best
}

/// Sorts `(index, mass key)` pairs into processing order: mass descending,
/// index ascending on ties. The result is exactly the canonical sorted
/// permutation of the input.
pub fn sort_by_mass(list: Vec<(usize, u64)>) -> (r: Vec<(usize, u64)>)
    ensures
        r@ == list@.sort_by(mass_order_fn()),
        r@.to_multiset() == list@.to_multiset(),
        sorted_by(r@, mass_order_fn()),
{
    let ghost orig = list@;
    let mut work = list;
    let mut out: Vec<(usize, u64)> = Vec::new();
    proof {
        broadcast use vstd::seq_lib::group_to_multiset_ensures;
        broadcast use vstd::multiset::group_multiset_axioms;

        assert(out@.to_multiset().add(work@.to_multiset()) =~= orig.to_multiset());
    }
    while work.len() > 0
        invariant
            out@.to_multiset().add(work@.to_multiset()) == orig.to_multiset(),
            sorted_by(out@, mass_order_fn()),
            forall|a: int, b: int|
                0 <= a < out@.len() && 0 <= b < work@.len() ==> mass_order(out@[a], work@[b]),
        decreases work@.len(),
    {
        let ghost pre_out = out@;
        let ghost pre_work = work@;
        let b = best_index(&work);
        let item = work.remove(b);
        out.push(item);
        proof {
            broadcast use vstd::seq_lib::group_to_multiset_ensures;
            broadcast use vstd::multiset::group_multiset_axioms;

            assert(pre_work.to_multiset().contains(item));
            assert(out@.to_multiset().add(work@.to_multiset()) =~= orig.to_multiset());
            assert forall|a: int, b2: int|
                0 <= a < out@.len() && 0 <= b2 < work@.len() implies mass_order(
                out@[a],
                work@[b2],
            ) by {
                assert(work@[b2] == pre_work.remove(b as int)[b2]);
                if b2 < b {
                    assert(work@[b2] == pre_work[b2]);
                } else {
                    assert(work@[b2] == pre_work[b2 + 1]);
                }
            }
        }
    }
    proof {
        broadcast use vstd::seq_lib::group_to_multiset_ensures;
        broadcast use vstd::multiset::group_multiset_axioms;

        lemma_mass_order_total();
        assert(out@.to_multiset() =~= orig.to_multiset());
        orig.lemma_sort_by_ensures(mass_order_fn());
        lemma_sorted_unique(out@, orig.sort_by(mass_order_fn()), mass_order_fn());
        assert(out@ == orig.sort_by(mass_order_fn()));
    }
    out
}

} // verus!
