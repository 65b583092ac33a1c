//! Parent-tree and sphere-of-influence reconstruction.
//!
//! Run once at load, or on demand after structural changes, this pass
//! assigns every body the dominant gravitational parent: the bodies are
//! handled from the heaviest down, and each one is captured by the
//! nearest already-handled body whose sphere of influence strictly
//! exceeds their distance. The heaviest body itself becomes the single
//! root with an infinite sphere of influence. Handling heavier bodies
//! first is load-bearing: every candidate parent a body looks at has
//! already been fully resolved.
//!
//! Distances and candidate spheres of influence are supplied by the host
//! as magnitude keys; `soi_cand[i][j]` is the key of the Hill-sphere
//! radius body `i` would get if parented to body `j`.

use vstd::prelude::*;
use vstd::relations::sorted_by;
use crate::orbital::SphereOfInfluence;
use crate::order::{mass_order, mass_order_fn, sort_by_mass};

verus! {

/// Where a body ended up in the reconstructed tree.
#[derive(Debug)]
pub struct Placement {
    /// The id of the chosen dominant parent; `None` only for the root.
    pub parent: Option<usize>,
    /// The body's sphere of influence relative to its parent.
    pub soi: SphereOfInfluence,
    /// The ids of the bodies this one captured.
    pub children: Vec<usize>,
}

/// Body `i` is handled before body `j`: strictly heavier, or equally
/// heavy with the smaller index.
pub open spec fn precedes(m: Seq<u64>, i: int, j: int) -> bool {
    m[i] > m[j] || (m[i] == m[j] && i < j)
}

/// Body `i` is the root of the tree: it is handled before every other
/// body, so it is a body of globally greatest mass.
pub open spec fn is_root(m: Seq<u64>, i: int) -> bool {
    &&& 0 <= i < m.len()
    &&& forall|j: int| 0 <= j < m.len() && j != i ==> precedes(m, i, j)
}

/// In the finished tree `r`, the earlier-handled body `j` can capture
/// body `i`: `j`'s sphere of influence strictly exceeds their distance.
pub open spec fn captures(
    m: Seq<u64>,
    r: Seq<Placement>,
    dist: Seq<Vec<u64>>,
    j: int,
    i: int,
) -> bool {
    &&& 0 <= j < m.len()
    &&& precedes(m, j, i)
    &&& r[j].soi.exceeds(dist[i]@[j])
}

/// `j` is the parent picked for `i`: a capturing body, closer than every
/// other capturing body, the earlier-handled one winning distance ties.
pub open spec fn chosen_parent(
    m: Seq<u64>,
    r: Seq<Placement>,
    dist: Seq<Vec<u64>>,
    j: int,
    i: int,
) -> bool {
    &&& captures(m, r, dist, j, i)
    &&& forall|q: int|
        #[trigger] captures(m, r, dist, q, i) && q != j ==> dist[i]@[j] < dist[i]@[q] || (dist[i]@[j]
            == dist[i]@[q] && precedes(m, j, q))
}

/// Each body index paired with its mass key.
pub open spec fn index_pairs(m: Seq<u64>) -> Seq<(usize, u64)> {
    Seq::new(m.len(), |k: int| (k as usize, m[k]))
}

/// The bodies in the order the reconstruction handles them.
pub open spec fn processing(m: Seq<u64>) -> Seq<(usize, u64)> {
    index_pairs(m).sort_by(mass_order_fn())
}

/// Body `j` appears somewhere in the processing order.
pub open spec fn has_position(m: Seq<u64>, j: int) -> bool {
    exists|t: int| 0 <= t < m.len() && #[trigger] processing(m)[t].0 == j
}

/// The processing order enumerates every body exactly once, heaviest
/// first, and agrees with [`precedes`] on the body indices.
proof fn lemma_processing_facts(m: Seq<u64>)
    requires
        m.len() <= usize::MAX,
    ensures
        processing(m).len() == m.len(),
        forall|t: int|
            0 <= t < m.len() ==> 0 <= #[trigger] processing(m)[t].0 < m.len() && processing(
                m,
            )[t].1 == m[processing(m)[t].0 as int],
        forall|t1: int, t2: int|
            0 <= t1 < t2 < m.len() ==> #[trigger] processing(m)[t1].0 != #[trigger] processing(
                m,
            )[t2].0,
        forall|j: int| 0 <= j < m.len() ==> #[trigger] has_position(m, j),
        forall|t1: int, t2: int|
            0 <= t1 < t2 < m.len() ==> precedes(
                m,
                #[trigger] processing(m)[t1].0 as int,
                #[trigger] processing(m)[t2].0 as int,
            ),
{
    broadcast use vstd::seq_lib::group_to_multiset_ensures;
    broadcast use vstd::multiset::group_multiset_axioms;

    let pr = index_pairs(m);
    let st = processing(m);
    crate::order::lemma_mass_order_total();
    pr.lemma_sort_by_ensures(mass_order_fn());
    assert(st.to_multiset() == pr.to_multiset());
    assert(st.to_multiset().len() == pr.to_multiset().len());
    assert(st.len() == m.len());

    // every handled entry is one of the index pairs
    assert forall|t: int| 0 <= t < m.len() implies 0 <= #[trigger] st[t].0 < m.len() && st[t].1
        == m[st[t].0 as int] by {
        assert(st.contains(st[t]));
        assert(st.to_multiset().contains(st[t]));
        assert(pr.to_multiset().contains(st[t]));
        assert(pr.contains(st[t]));
        let k = choose|k: int| 0 <= k < pr.len() && pr[k] == st[t];
        assert(pr[k] == (k as usize, m[k]));
    }

    // no body index appears twice
    assert(pr.no_duplicates()) by {
        assert forall|a: int, b: int|
            0 <= a < pr.len() && 0 <= b < pr.len() && a != b implies pr[a] != pr[b] by {
            assert(pr[a].0 == a as usize && pr[b].0 == b as usize);
        }
    }
    pr.lemma_multiset_has_no_duplicates();
    st.lemma_multiset_has_no_duplicates_conv();
    assert forall|t1: int, t2: int| 0 <= t1 < t2 < m.len() implies #[trigger] st[t1].0
        != #[trigger] st[t2].0 by {
        if st[t1].0 == st[t2].0 {
            assert(st[t1].1 == m[st[t1].0 as int] && st[t2].1 == m[st[t2].0 as int]);
            assert(st[t1] == st[t2]);
        }
    }

    // every body index appears
    assert forall|j: int| 0 <= j < m.len() implies #[trigger] has_position(m, j) by {
        assert(pr[j] == (j as usize, m[j]));
        assert(pr.contains(pr[j]));
        assert(pr.to_multiset().contains(pr[j]));
        assert(st.to_multiset().contains(pr[j]));
        assert(st.contains(pr[j]));
        let t = choose|t: int| 0 <= t < st.len() && st[t] == pr[j];
        assert(st[t].0 == j);
    }

    // the order of handling is exactly `precedes` on body indices
    assert forall|t1: int, t2: int| 0 <= t1 < t2 < m.len() implies precedes(
        m,
        #[trigger] st[t1].0 as int,
        #[trigger] st[t2].0 as int,
    ) by {
        assert(sorted_by(st, mass_order_fn()));
        assert(mass_order_fn()(st[t1], st[t2]));
        assert(mass_order(st[t1], st[t2]));
    }
}

/// Body `i` lies among the first `k` bodies of the processing order.
spec fn handled(m: Seq<u64>, i: int, k: int) -> bool {
    exists|t: int| 0 <= t < k && #[trigger] processing(m)[t].0 == i
}

/// Body `i`'s finished placement is correct: the root is unparented with
/// an infinite sphere of influence; every other body is captured by its
/// chosen parent and carries the Hill-sphere key for that parent.
pub open spec fn placed_ok(
    ids: Seq<usize>,
    m: Seq<u64>,
    dist: Seq<Vec<u64>>,
    soi_cand: Seq<Vec<u64>>,
    r: Seq<Placement>,
    i: int,
) -> bool {
    if is_root(m, i) {
        r[i].parent is None && r[i].soi == SphereOfInfluence::Infinite
    } else {
        exists|p: int|
            #[trigger] chosen_parent(m, r, dist, p, i) && r[i].parent == Some(ids[p]) && r[i].soi
                == SphereOfInfluence::Finite(soi_cand[i]@[p])
    }
}

/// Body `p`'s children list holds exactly the ids parented to `p`, each
/// once, and nothing else.
pub open spec fn children_ok(ids: Seq<usize>, r: Seq<Placement>, p: int) -> bool {
    &&& r[p].children@.no_duplicates()
    &&& forall|i: int|
        0 <= i < r.len() ==> (#[trigger] r[p].children@.contains(ids[i]) <==> r[i].parent == Some(
            ids[p],
        ))
    &&& forall|c: usize|
        #[trigger] r[p].children@.contains(c) ==> exists|i: int| 0 <= i < r.len() && ids[i] == c
}

/// There is exactly one root: some body is handled before every other
/// body, and no two bodies can both be.
pub proof fn lemma_single_root(m: Seq<u64>)
    requires
        1 <= m.len() <= usize::MAX,
    ensures
        exists|i: int| #[trigger] is_root(m, i),
        forall|i: int, j: int| #[trigger] is_root(m, i) && #[trigger] is_root(m, j) ==> i == j,
{
    lemma_processing_facts(m);
    let st = processing(m);
    let rt = st[0].0 as int;
    assert(is_root(m, rt)) by {
        assert forall|j: int| 0 <= j < m.len() && j != rt implies precedes(m, rt, j) by {
            assert(has_position(m, j));
            let t = choose|t: int| 0 <= t < m.len() && #[trigger] st[t].0 == j;
            assert(t != 0);
            assert(precedes(m, st[0].0 as int, st[t].0 as int));
        }
    }
    assert forall|i: int, j: int| #[trigger] is_root(m, i) && #[trigger] is_root(m, j) implies i
        == j by {
        if i != j {
            assert(precedes(m, i, j));
            assert(precedes(m, j, i));
        }
    }
}

/// Body `i` has a parent strictly heavier than itself.
pub open spec fn heavier_parent(ids: Seq<usize>, m: Seq<u64>, r: Seq<Placement>, i: int) -> bool {
    exists|p: int| 0 <= p < r.len() && r[i].parent == Some(#[trigger] ids[p]) && m[p] > m[i]
}

/// In a reconstructed tree over bodies of pairwise distinct mass keys,
/// every body but the root ends with a parent of strictly greater mass.
/// (On equal mass keys the parent is merely handled earlier, so the bound
/// weakens to greater-or-equal; distinctness is assumed here.)
pub proof fn lemma_parents_strictly_heavier(
    ids: Seq<usize>,
    m: Seq<u64>,
    dist: Seq<Vec<u64>>,
    soi_cand: Seq<Vec<u64>>,
    r: Seq<Placement>,
)
    requires
        m.len() == ids.len(),
        r.len() == ids.len(),
        forall|i: int| 0 <= i < ids.len() ==> #[trigger] placed_ok(ids, m, dist, soi_cand, r, i),
        forall|i: int, j: int|
            0 <= i < ids.len() && 0 <= j < ids.len() && i != j ==> m[i] != m[j],
    ensures
        forall|i: int|
            0 <= i < r.len() && !is_root(m, i) ==> #[trigger] heavier_parent(ids, m, r, i),
{
    assert forall|i: int| 0 <= i < r.len() && !is_root(m, i) implies #[trigger] heavier_parent(
        ids,
        m,
        r,
        i,
    ) by {
        assert(placed_ok(ids, m, dist, soi_cand, r, i));
        let p = choose|p: int|
            #[trigger] chosen_parent(m, r, dist, p, i) && r[i].parent == Some(ids[p]) && r[i].soi
                == SphereOfInfluence::Finite(soi_cand[i]@[p]);
        assert(precedes(m, p, i));
        assert(p != i);
        assert(m[p] > m[i]);
    }
}

/// The children of body `p` stand in handling order: of two entries, the
/// earlier one belongs to the body that was captured first.
pub open spec fn children_in_order(
    ids: Seq<usize>,
    m: Seq<u64>,
    r: Seq<Placement>,
    p: int,
) -> bool {
    forall|k1: int, k2: int, i1: int, i2: int|
        0 <= k1 < k2 < r[p].children@.len() && 0 <= i1 < ids.len() && 0 <= i2 < ids.len()
            && #[trigger] ids[i1] == #[trigger] r[p].children@[k1] && #[trigger] ids[i2]
            == #[trigger] r[p].children@[k2] ==> precedes(m, i1, i2)
}

/// Rebuilds the parent tree and every sphere of influence from scratch.
///
/// `masses[i]` is body `i`'s mass key, `dist[i][j]` the key of the
/// distance between bodies `i` and `j`, and `soi_cand[i][j]` the key of
/// the Hill-sphere radius body `i` would get were it parented to body
/// `j`. Bodies are handled heaviest first; each one is captured by the
/// nearest already-handled body whose sphere of influence strictly
/// exceeds their distance, the earlier-handled body winning distance
/// ties. The heaviest body always ends up the single root, unparented
/// and with an infinite sphere of influence, and — since the root
/// reaches everything — every other body always finds a parent.
#[verifier::loop_isolation(false)]
#[verifier::rlimit(60)]
pub fn reform_parent_tree(
    ids: &Vec<usize>,
    masses: &Vec<u64>,
    dist: &Vec<Vec<u64>>,
    soi_cand: &Vec<Vec<u64>>,
) -> (r: Vec<Placement>)
    requires
        masses@.len() == ids@.len(),
        dist@.len() == ids@.len(),
        soi_cand@.len() == ids@.len(),
        forall|i: int| 0 <= i < ids@.len() ==> #[trigger] dist@[i]@.len() == ids@.len(),
        forall|i: int| 0 <= i < ids@.len() ==> #[trigger] soi_cand@[i]@.len() == ids@.len(),
        forall|i: int, j: int|
            0 <= i < ids@.len() && 0 <= j < ids@.len() && i != j ==> ids@[i] != ids@[j],
    ensures
        r@.len() == ids@.len(),
        forall|i: int|
            0 <= i < ids@.len() ==> #[trigger] placed_ok(ids@, masses@, dist@, soi_cand@, r@, i),
        forall|p: int| 0 <= p < ids@.len() ==> #[trigger] children_ok(ids@, r@, p),
        forall|p: int|
            0 <= p < ids@.len() ==> #[trigger] children_in_order(ids@, masses@, r@, p),
        forall|i: int|
            0 <= i < ids@.len() ==> ((#[trigger] r@[i].parent) is None <==> is_root(masses@, i)),
{
    let ghost m = masses@;
    let ghost idv = ids@;
    let n = ids.len();
    proof {
        lemma_processing_facts(m);
    }
    let ghost st = processing(m);

    // the processing order, heaviest body first
    let mut pairs: Vec<(usize, u64)> = Vec::new();
    let mut i: usize = 0;
    proof {
        assert(index_pairs(m).take(0) =~= Seq::<(usize, u64)>::empty());
    }
    while i < n
        invariant
            i <= n,
            pairs@ == index_pairs(m).take(i as int),
        decreases n - i,
    {
        pairs.push((i, masses[i]));
        proof {
            assert(index_pairs(m).take(i as int + 1) =~= index_pairs(m).take(i as int).push(
                (i, m[i as int]),
            ));
        }
        i += 1;
    }
    proof {
        assert(index_pairs(m).take(n as int) =~= index_pairs(m));
    }
    let order = sort_by_mass(pairs);
    proof {
        assert(order@ == st);
    }

    // a fresh, unhandled placement for every body
    let mut r: Vec<Placement> = Vec::new();
    let mut i: usize = 0;
    while i < n
        invariant
            i <= n,
            r@.len() == i as int,
            forall|q: int|
                0 <= q < i ==> (#[trigger] r@[q].parent) is None && r@[q].soi
                    == SphereOfInfluence::Finite(0) && r@[q].children@ == Seq::<usize>::empty(),
        decreases n - i,
    {
        r.push(Placement { parent: None, soi: SphereOfInfluence::Finite(0), children: Vec::new() });
        i += 1;
    }

    proof {
        assert forall|p: int| 0 <= p < n implies #[trigger] children_ok(idv, r@, p) by {
            assert(r@[p].parent is None);
            assert(r@[p].children@ == Seq::<usize>::empty());
            assert forall|i2: int| 0 <= i2 < n implies !(#[trigger] r@[p].children@.contains(
                idv[i2],
            )) && !(r@[i2].parent == Some(idv[p])) by {
                assert(r@[i2].parent is None);
            }
        }
        assert forall|p: int| 0 <= p < n implies #[trigger] children_in_order(idv, m, r@, p) by {
            assert(r@[p].parent is None);
            assert(r@[p].children@ == Seq::<usize>::empty());
        }
    }

    // handle each body in order
    let mut k: usize = 0;
    while k < n
        invariant
            k <= n,
            r@.len() == n as int,
            forall|i2: int|
                0 <= i2 < n && handled(m, i2, k as int) ==> #[trigger] placed_ok(
                    idv,
                    m,
                    dist@,
                    soi_cand@,
                    r@,
                    i2,
                ),
            forall|i2: int|
                0 <= i2 < n && !handled(m, i2, k as int) ==> (#[trigger] r@[i2].parent) is None
                    && r@[i2].soi == SphereOfInfluence::Finite(0) && r@[i2].children@ == Seq::<
                    usize,
                >::empty(),
            forall|p: int| 0 <= p < n ==> #[trigger] children_ok(idv, r@, p),
            forall|p: int| 0 <= p < n ==> #[trigger] children_in_order(idv, m, r@, p),
        decreases n - k,
    {
        let ghost r_pre = r@;
        let (ci, _cm) = order[k];
        proof {
            assert(st[k as int].0 == ci);
            assert(0 <= ci < n);
            assert(!handled(m, ci as int, k as int)) by {
                if handled(m, ci as int, k as int) {
                    let t = choose|t: int| 0 <= t < k && #[trigger] st[t].0 == ci;
                    assert(st[t].0 != st[k as int].0);
                }
            }
        }
        if k == 0 {
            // the heaviest body: the root, with infinite reach
            r[ci] = Placement {
                parent: None,
                soi: SphereOfInfluence::Infinite,
                children: Vec::new(),
            };
            proof {
                assert(is_root(m, ci as int)) by {
                    assert forall|j: int| 0 <= j < m.len() && j != ci implies precedes(
                        m,
                        ci as int,
                        j,
                    ) by {
                        assert(has_position(m, j));
                        let t = choose|t: int| 0 <= t < m.len() && #[trigger] st[t].0 == j;
                        assert(t != 0);
                        assert(precedes(m, st[0].0 as int, st[t].0 as int));
                    }
                }
                assert forall|i2: int|
                    0 <= i2 < n && handled(m, i2, k as int + 1) implies #[trigger] placed_ok(
                    idv,
                    m,
                    dist@,
                    soi_cand@,
                    r@,
                    i2,
                ) by {
                    let t = choose|t: int| 0 <= t < k + 1 && #[trigger] st[t].0 == i2;
                    assert(t == 0 && i2 == ci);
                }
                assert forall|i2: int| 0 <= i2 < n && !handled(m, i2, k as int + 1) implies (
                #[trigger] r@[i2].parent) is None && r@[i2].soi == SphereOfInfluence::Finite(0)
                    && r@[i2].children@ == Seq::<usize>::empty() by {
                    assert(i2 != ci) by {
                        assert(st[0].0 == ci);
                    }
                    assert(!handled(m, i2, k as int));
                }
                assert forall|p: int| 0 <= p < n implies #[trigger] children_ok(idv, r@, p) by {
                    assert(children_ok(idv, r_pre, p));
                    assert forall|i2: int| 0 <= i2 < n implies (
                    #[trigger] r@[p].children@.contains(idv[i2]) <==> r@[i2].parent == Some(
                        idv[p],
                    )) by {
                        assert(r@[p].children@ == r_pre[p].children@);
                        if i2 == ci {
                            assert(!r_pre[p].children@.contains(idv[ci as int]));
                        }
                    }
                }
                assert forall|p: int| 0 <= p < n implies #[trigger] children_in_order(
                    idv,
                    m,
                    r@,
                    p,
                ) by {
                    assert(children_in_order(idv, m, r_pre, p));
                    assert(r@[p].children@ == r_pre[p].children@);
                }
            }
        } else {
            // scan the already-handled bodies for the nearest capturer
            let mut best_found = false;
            let mut best_p: usize = 0;
            let mut best_d: u64 = 0;
            let ghost mut best_t: int = 0;
            let mut t: usize = 0;
            while t < k
                invariant
                    t <= k,
                    r@ == r_pre,
                    !best_found ==> forall|t2: int|
                        0 <= t2 < t ==> !captures(m, r@, dist@, #[trigger] st[t2].0 as int,
                        ci as int),
                    best_found ==> {
                        &&& 0 <= best_t < t
                        &&& st[best_t].0 == best_p
                        &&& captures(m, r@, dist@, best_p as int, ci as int)
                        &&& best_d == dist@[ci as int]@[best_p as int]
                        &&& forall|t2: int|
                            0 <= t2 < t && captures(m, r@, dist@, #[trigger] st[t2].0 as int,
                            ci as int) && st[t2].0 != best_p ==> (best_d < dist@[ci as int]@[st[t2].0 as int]
                                || (best_d == dist@[ci as int]@[st[t2].0 as int] && precedes(
                                m,
                                best_p as int,
                                st[t2].0 as int,
                            )))
                    },
                decreases k - t,
            {
                let (cj, _jm) = order[t];
                proof {
                    assert(st[t as int].0 == cj);
                    assert(0 <= cj < n);
                    assert(cj != ci);
                }
                let dij = dist[ci][cj];
                let sj = r[cj].soi;
                if sj.exceeds_distance(dij) {
                    proof {
                        assert(precedes(m, cj as int, ci as int));
                        assert(captures(m, r@, dist@, cj as int, ci as int));
                    }
                    if !best_found || dij < best_d {
                        best_found = true;
                        best_p = cj;
                        best_d = dij;
                        proof {
                            best_t = t as int;
                        }
                    } else {
                        proof {
                            assert(best_t < t);
                            assert(precedes(m, st[best_t].0 as int, st[t as int].0 as int));
                        }
                    }
                }
                t += 1;
            }
            proof {
                // the root has been handled and reaches everything, so a
                // parent always exists
                assert(best_found) by {
                    if !best_found {
                        let rt = st[0].0;
                        assert(handled(m, rt as int, k as int));
                        assert(precedes(m, st[0].0 as int, st[k as int].0 as int));
                        assert(placed_ok(idv, m, dist@, soi_cand@, r@, rt as int));
                        assert(is_root(m, rt as int)) by {
                            assert forall|j: int| 0 <= j < m.len() && j != rt implies precedes(
                                m,
                                rt as int,
                                j,
                            ) by {
                                assert(has_position(m, j));
                                let tj = choose|tj: int|
                                    0 <= tj < m.len() && #[trigger] st[tj].0 == j;
                                assert(tj != 0);
                                assert(precedes(m, st[0].0 as int, st[tj].0 as int));
                            }
                        }
                        assert(r@[rt as int].soi == SphereOfInfluence::Infinite);
                        assert(captures(m, r@, dist@, rt as int, ci as int));
                    }
                }
                assert(!is_root(m, ci as int)) by {
                    let rt = st[0].0;
                    assert(st[0].0 != st[k as int].0);
                    assert(precedes(m, rt as int, ci as int));
                    if is_root(m, ci as int) {
                        assert(precedes(m, ci as int, rt as int));
                    }
                }
            }
            let pid = ids[best_p];
            let soi_val = soi_cand[ci][best_p];
            r[ci] = Placement {
                parent: Some(pid),
                soi: SphereOfInfluence::Finite(soi_val),
                children: Vec::new(),
            };
            let ghost r_mid = r@;
            let kid = ids[ci];
            r[best_p].children.push(kid);
            proof {
                let bp = best_p as int;
                let cii = ci as int;
                assert(r@ == r_mid.update(bp, r@[bp]));
                assert(r@[bp].children@ == r_pre[bp].children@.push(idv[cii]));
                assert(r@[bp].parent == r_pre[bp].parent && r@[bp].soi == r_pre[bp].soi);
                assert(r@[cii].parent == Some(idv[bp]) && r@[cii].soi
                    == SphereOfInfluence::Finite(soi_cand@[cii]@[bp]));
                assert(forall|x: int|
                    0 <= x < n && x != cii && x != bp ==> r@[x] == #[trigger] r_pre[x]);
                assert(forall|x: int|
                    0 <= x < n && x != cii ==> (#[trigger] r@[x]).soi == r_pre[x].soi && r@[x].parent
                        == r_pre[x].parent);

                // capture relations are unchanged: the new body captures
                // nobody, because everybody else was handled before it
                assert forall|q: int, i2: int|
                    0 <= i2 < n && handled(m, i2, k as int) implies (captures(m, r@, dist@, q, i2)
                    <==> captures(m, r_pre, dist@, q, i2)) by {
                    if 0 <= q < n && q != cii {
                        assert(r@[q].soi == r_pre[q].soi);
                    }
                    if q == cii {
                        assert(!precedes(m, q, i2)) by {
                            let ti = choose|ti: int| 0 <= ti < k && #[trigger] st[ti].0 == i2;
                            assert(precedes(m, st[ti].0 as int, st[k as int].0 as int));
                        }
                    }
                }

                // the chosen parent of the new body
                assert(captures(m, r@, dist@, bp, cii)) by {
                    assert(r@[bp].soi == r_pre[bp].soi);
                }
                assert(chosen_parent(m, r@, dist@, bp, cii)) by {
                    assert forall|q: int|
                        captures(m, r@, dist@, q, cii) && q != bp implies (dist@[cii]@[bp]
                        < dist@[cii]@[q] || (dist@[cii]@[bp] == dist@[cii]@[q] && precedes(
                        m,
                        bp,
                        q,
                    ))) by {
                        assert(precedes(m, q, cii));
                        assert(q != cii);
                        assert(r@[q].soi == r_pre[q].soi);
                        assert(captures(m, r_pre, dist@, q, cii));
                        assert(has_position(m, q));
                        let tq = choose|tq: int| 0 <= tq < m.len() && #[trigger] st[tq].0 == q;
                        assert(tq != k);
                        assert(tq < k) by {
                            if tq > k {
                                assert(precedes(m, st[k as int].0 as int, st[tq].0 as int));
                            }
                        }
                    }
                }

                // every body handled earlier keeps its placement
                assert forall|i2: int|
                    0 <= i2 < n && handled(m, i2, k as int) implies placed_ok(
                    idv,
                    m,
                    dist@,
                    soi_cand@,
                    r@,
                    i2,
                ) by {
                    assert(placed_ok(idv, m, dist@, soi_cand@, r_pre, i2));
                    assert(i2 != cii);
                    if !is_root(m, i2) {
                        let pw = choose|pw: int|
                            #[trigger] chosen_parent(m, r_pre, dist@, pw, i2) && r_pre[i2].parent
                                == Some(idv[pw]) && r_pre[i2].soi == SphereOfInfluence::Finite(
                                soi_cand@[i2]@[pw],
                            );
                        assert(captures(m, r@, dist@, pw, i2));
                        assert forall|q: int|
                            #[trigger] captures(m, r@, dist@, q, i2) && q != pw implies (
                        dist@[i2]@[pw] < dist@[i2]@[q] || (dist@[i2]@[pw] == dist@[i2]@[q]
                            && precedes(m, pw, q))) by {
                            assert(captures(m, r_pre, dist@, q, i2));
                            assert(chosen_parent(m, r_pre, dist@, pw, i2));
                        }
                        assert(chosen_parent(m, r@, dist@, pw, i2));
                        assert(r@[i2].parent == Some(idv[pw]));
                    }
                }
                assert(placed_ok(idv, m, dist@, soi_cand@, r@, cii));
                assert forall|i2: int|
                    0 <= i2 < n && handled(m, i2, k as int + 1) implies #[trigger] placed_ok(
                    idv,
                    m,
                    dist@,
                    soi_cand@,
                    r@,
                    i2,
                ) by {
                    let t2 = choose|t2: int| 0 <= t2 < k + 1 && #[trigger] st[t2].0 == i2;
                    if t2 == k {
                        assert(i2 == cii);
                    } else {
                        assert(handled(m, i2, k as int));
                    }
                }

                // bodies not yet handled stay untouched
                assert forall|i2: int| 0 <= i2 < n && !handled(m, i2, k as int + 1) implies (
                #[trigger] r@[i2].parent) is None && r@[i2].soi == SphereOfInfluence::Finite(0)
                    && r@[i2].children@ == Seq::<usize>::empty() by {
                    assert(i2 != cii) by {
                        assert(st[k as int].0 == ci);
                    }
                    assert(!handled(m, i2, k as int));
                    assert(i2 != bp) by {
                        assert(handled(m, bp, k as int)) by {
                            assert(st[best_t].0 == best_p);
                        }
                    }
                }

                // children lists stay exact
                assert forall|p: int| 0 <= p < n implies #[trigger] children_ok(idv, r@, p) by {
                    assert(children_ok(idv, r_pre, p));
                    if p == bp {
                        assert(!r_pre[bp].children@.contains(idv[cii])) by {
                            assert(r_pre[cii].parent is None);
                        }
                        let s = r_pre[bp].children@;
                        let s2 = r@[bp].children@;
                        assert(s2 == s.push(idv[cii]));
                        assert(s2[s.len() as int] == idv[cii]);
                        assert forall|y: usize| #[trigger] s2.contains(y) implies s.contains(y) || y
                            == idv[cii] by {
                            let w = choose|w: int| 0 <= w < s2.len() && s2[w] == y;
                            if w < s.len() {
                                assert(s[w] == y);
                            }
                        }
                        assert forall|y: usize| #[trigger] s.contains(y) implies s2.contains(y) by {
                            let w = choose|w: int| 0 <= w < s.len() && s[w] == y;
                            assert(s2[w] == y);
                        }
                        assert(s2.contains(idv[cii]));
                        assert(r@[bp].children@.no_duplicates()) by {
                            let s = r_pre[bp].children@;
                            let s2 = r@[bp].children@;
                            assert forall|a: int, b: int|
                                0 <= a < s2.len() && 0 <= b < s2.len() && a != b implies s2[a]
                                != s2[b] by {
                                if a < s.len() && b == s.len() {
                                    assert(s2[b] == idv[cii] && s2[a] == s[a]);
                                    assert(s.contains(s[a]));
                                } else if b < s.len() && a == s.len() {
                                    assert(s2[a] == idv[cii] && s2[b] == s[b]);
                                    assert(s.contains(s[b]));
                                }
                            }
                        }
                        assert forall|i2: int| 0 <= i2 < n implies (
                        #[trigger] r@[p].children@.contains(idv[i2]) <==> r@[i2].parent == Some(
                            idv[p],
                        )) by {
                            if i2 == cii {
                                assert(r@[p].children@.contains(idv[cii]));
                            } else {
                                assert(idv[i2] != idv[cii]);
                                assert(r@[p].children@.contains(idv[i2])
                                    <==> r_pre[p].children@.contains(idv[i2]));
                            }
                        }
                        assert forall|c: usize| #[trigger] r@[p].children@.contains(c) implies exists|
                            i2: int,
                        | 0 <= i2 < n && idv[i2] == c by {
                            if c == idv[cii] {
                                assert(0 <= cii < n && idv[cii] == c);
                            } else {
                                assert(r_pre[p].children@.contains(c));
                            }
                        }
                    } else {
                        assert(r@[p].children@ == r_pre[p].children@);
                        assert forall|i2: int| 0 <= i2 < n implies (
                        #[trigger] r@[p].children@.contains(idv[i2]) <==> r@[i2].parent == Some(
                            idv[p],
                        )) by {
                            if i2 == cii {
                                assert(!r_pre[p].children@.contains(idv[cii])) by {
                                    assert(r_pre[cii].parent is None);
                                }
                                assert(idv[bp] != idv[p] || bp == p);
                            }
                        }
                    }
                }

                // children keep coming in handling order
                assert forall|p: int| 0 <= p < n implies #[trigger] children_in_order(
                    idv,
                    m,
                    r@,
                    p,
                ) by {
                    assert(children_in_order(idv, m, r_pre, p));
                    if p == bp {
                        let s = r_pre[bp].children@;
                        let s2 = r@[bp].children@;
                        assert(s2 == s.push(idv[cii]));
                        assert forall|k1: int, k2: int, i1: int, i2: int|
                            0 <= k1 < k2 < s2.len() && 0 <= i1 < n && 0 <= i2 < n && idv[i1]
                                == s2[k1] && idv[i2] == s2[k2] implies precedes(m, i1, i2) by {
                            if k2 < s.len() {
                                assert(s2[k1] == s[k1] && s2[k2] == s[k2]);
                            } else {
                                assert(k2 == s.len() as int);
                                assert(s2[k2] == idv[cii]);
                                assert(i2 == cii);
                                assert(s2[k1] == s[k1]);
                                assert(s.contains(s[k1]));
                                assert(r_pre[bp].children@.contains(idv[i1]));
                                assert(children_ok(idv, r_pre, bp));
                                assert(r_pre[i1].parent == Some(idv[bp]));
                                assert(handled(m, i1, k as int)) by {
                                    if !handled(m, i1, k as int) {
                                        assert(r_pre[i1].parent is None);
                                    }
                                }
                                let t1 = choose|t1: int| 0 <= t1 < k && #[trigger] st[t1].0 == i1;
                                assert(precedes(m, st[t1].0 as int, st[k as int].0 as int));
                            }
                        }
                    } else {
                        assert(r@[p].children@ == r_pre[p].children@);
                    }
                }
            }
        }
        k += 1;
    }
    proof {
        assert forall|i2: int| 0 <= i2 < idv.len() implies #[trigger] placed_ok(
            idv,
            m,
            dist@,
            soi_cand@,
            r@,
            i2,
        ) by {
            assert(has_position(m, i2));
            let t = choose|t: int| 0 <= t < m.len() && #[trigger] st[t].0 == i2;
            assert(handled(m, i2, n as int));
        }
        assert forall|i2: int| 0 <= i2 < idv.len() implies ((#[trigger] r@[i2].parent) is None
            <==> is_root(m, i2)) by {
            assert(placed_ok(idv, m, dist@, soi_cand@, r@, i2));
        }
    }
    r
}

} // verus!
