//! Sibling (primary influence) selection.
//!
//! To keep the per-tick gravity sum far below the full N-body cost, each
//! body only feels a curated list of "siblings": massive bodies whose pull
//! on it is worth keeping. The rule walks the massive bodies from the
//! heaviest down, keeps a running total of the pulls it has accepted, and
//! accepts a candidate only while its pull exceeds 0.1% of that total (the
//! first candidate examined is always accepted). The walk stops at the
//! first candidate that fails, so a sibling list is a prefix of the
//! mass-ordered massive list — mass rank standing in for force rank.
//!
//! Pulls are supplied by the host as fixed-point integers, so the
//! threshold arithmetic here is exact; the accumulator is wide enough that
//! it cannot overflow.

use vstd::prelude::*;
use crate::order::{mass_order_fn, sort_by_mass};

verus! {

/// One step of the sibling rule over the remaining candidates, each a
/// `(body id, pull)` pair in mass-descending order. `total` is the pull
/// accepted so far and `first` whether no candidate has been examined yet.
/// The body's own entry is passed over without being examined.
pub open spec fn selected_siblings(
    self_id: usize,
    cands: Seq<(usize, u64)>,
    total: int,
    first: bool,
) -> Seq<usize>
    decreases cands.len(),
{
    if cands.len() == 0 {
        Seq::empty()
    } else {
        let id = cands[0].0;
        let pull = cands[0].1;
        if id == self_id {
            selected_siblings(self_id, cands.drop_first(), total, first)
        } else if first || 1000 * pull > total {
            seq![id] + selected_siblings(self_id, cands.drop_first(), total + pull, false)
        } else {
            Seq::empty()
        }
    }
}

/// The sibling list of the body `self_id`, given the massive candidates
/// in mass-descending order with their pulls on that body.
pub open spec fn sibling_selection(self_id: usize, cands: Seq<(usize, u64)>) -> Seq<usize> {
    selected_siblings(self_id, cands, 0, true)
}

/// A body never appears in its own sibling list, and every selected id
/// comes from the candidate list.
pub proof fn lemma_no_self_sibling(self_id: usize, cands: Seq<(usize, u64)>)
    ensures
        !sibling_selection(self_id, cands).contains(self_id),
        forall|x: usize|
            #[trigger] sibling_selection(self_id, cands).contains(x) ==> exists|k: int|
                0 <= k < cands.len() && cands[k].0 == x,
{
    lemma_selected_siblings_sound(self_id, cands, 0, true);
}

/// Soundness of the selection at any intermediate state.
proof fn lemma_selected_siblings_sound(
    self_id: usize,
    cands: Seq<(usize, u64)>,
    total: int,
    first: bool,
)
    ensures
        !selected_siblings(self_id, cands, total, first).contains(self_id),
        forall|x: usize|
            #[trigger] selected_siblings(self_id, cands, total, first).contains(x) ==> exists|
                k: int,
            |
                0 <= k < cands.len() && cands[k].0 == x,
    decreases cands.len(),
{
    if cands.len() == 0 {
    } else {
        let rest = cands.drop_first();
        let id = cands[0].0;
        let pull = cands[0].1;
        if id == self_id {
            lemma_selected_siblings_sound(self_id, rest, total, first);
            assert forall|x: usize|
                #[trigger] selected_siblings(self_id, cands, total, first).contains(
                    x,
                ) implies exists|k: int| 0 <= k < cands.len() && cands[k].0 == x by {
                let k0 = choose|k0: int| 0 <= k0 < rest.len() && rest[k0].0 == x;
                assert(cands[k0 + 1].0 == x);
            }
        } else if first || 1000 * pull > total {
            lemma_selected_siblings_sound(self_id, rest, total + pull, false);
            let sel = selected_siblings(self_id, cands, total, first);
            let tail = selected_siblings(self_id, rest, total + pull, false);
            assert forall|x: usize| #[trigger] sel.contains(x) implies exists|k: int|
                0 <= k < cands.len() && cands[k].0 == x by {
                let j = choose|j: int| 0 <= j < sel.len() && sel[j] == x;
                if j == 0 {
                    assert(cands[0].0 == x);
                } else {
                    assert(tail[j - 1] == x);
                    assert(tail.contains(x));
                    let k0 = choose|k0: int| 0 <= k0 < rest.len() && rest[k0].0 == x;
                    assert(cands[k0 + 1].0 == x);
                }
            }
            assert(sel[0] == id);
            assert forall|j: int| 0 <= j < sel.len() implies sel[j] != self_id by {
                if j > 0 {
                    assert(tail[j - 1] == sel[j]);
                    assert(tail.contains(sel[j]));
                }
            }
        }
    }
}

/// The candidate ids a body can see: every candidate in order, its own
/// entry struck out.
pub open spec fn others(self_id: usize, cands: Seq<(usize, u64)>) -> Seq<usize>
    decreases cands.len(),
{
    if cands.len() == 0 {
        Seq::empty()
    } else if cands[0].0 == self_id {
        others(self_id, cands.drop_first())
    } else {
        seq![cands[0].0] + others(self_id, cands.drop_first())
    }
}

/// The sibling list is a prefix of the candidate list: selection never
/// reorders, repeats or leapfrogs — with candidates given heaviest first,
/// mass rank stands in for force rank.
pub proof fn lemma_siblings_are_a_prefix(self_id: usize, cands: Seq<(usize, u64)>)
    ensures
        sibling_selection(self_id, cands).len() <= others(self_id, cands).len(),
        sibling_selection(self_id, cands) == others(self_id, cands).take(
            sibling_selection(self_id, cands).len() as int,
        ),
{
    lemma_selected_siblings_prefix(self_id, cands, 0, true);
}

/// The prefix property at any intermediate state of the walk.
proof fn lemma_selected_siblings_prefix(
    self_id: usize,
    cands: Seq<(usize, u64)>,
    total: int,
    first: bool,
)
    ensures
        selected_siblings(self_id, cands, total, first).len() <= others(self_id, cands).len(),
        selected_siblings(self_id, cands, total, first) == others(self_id, cands).take(
            selected_siblings(self_id, cands, total, first).len() as int,
        ),
    decreases cands.len(),
{
    let sel = selected_siblings(self_id, cands, total, first);
    if cands.len() == 0 {
        assert(sel =~= others(self_id, cands).take(sel.len() as int));
    } else {
        let rest = cands.drop_first();
        let id = cands[0].0;
        let pull = cands[0].1;
        if id == self_id {
            lemma_selected_siblings_prefix(self_id, rest, total, first);
        } else if first || 1000 * pull > total {
            lemma_selected_siblings_prefix(self_id, rest, total + pull, false);
            let tail = selected_siblings(self_id, rest, total + pull, false);
            assert(sel == seq![id] + tail);
            assert(others(self_id, cands) == seq![id] + others(self_id, rest));
            assert((seq![id] + others(self_id, rest)).take(1 + tail.len() as int) =~= seq![id]
                + others(self_id, rest).take(tail.len() as int));
        } else {
            assert(sel =~= others(self_id, cands).take(0));
        }
    }
}

/// Picks the siblings of the body `self_id` from `candidates`, the massive
/// bodies in mass-descending order paired with their fixed-point pull on
/// that body. Returns the accepted prefix of ids; the body's own entry is
/// skipped, so it never selects itself.
pub fn select_siblings(self_id: usize, candidates: &Vec<(usize, u64)>) -> (r: Vec<usize>)
    ensures
        r@ == sibling_selection(self_id, candidates@),
{
    let mut out: Vec<usize> = Vec::new();
    let mut total: u128 = 0;
    let mut first: bool = true;
    let mut stopped: bool = false;
    let mut i: usize = 0;
    proof {
        assert(candidates@.skip(0) =~= candidates@);
        assert(Seq::<usize>::empty() + sibling_selection(self_id, candidates@)
            =~= sibling_selection(self_id, candidates@));
    }
    while i < candidates.len() && !stopped
        invariant
            i <= candidates@.len(),
            total <= (i as int) * (u64::MAX as int),
            sibling_selection(self_id, candidates@) == out@ + (if stopped {
                Seq::<usize>::empty()
            } else {
                selected_siblings(self_id, candidates@.skip(i as int), total as int, first)
            }),
        decreases candidates@.len() - i + (if stopped {
            0int
        } else {
            1int
        }),
    {
        let ghost rest = candidates@.skip(i as int);
        proof {
            assert(rest[0] == candidates@[i as int]);
            assert(rest.drop_first() =~= candidates@.skip(i as int + 1));
            assert((i as int + 1) * (u64::MAX as int) == (i as int) * (u64::MAX as int)
                + u64::MAX as int) by (nonlinear_arith);
        }
        let (id, pull) = candidates[i];
        if id == self_id {
            i += 1;
        } else if first || 1000u128 * (pull as u128) > total {
            let ghost pre_out = out@;
            let ghost tail = selected_siblings(
                self_id,
                rest.drop_first(),
                total as int + pull as int,
                false,
            );
            proof {
                assert(selected_siblings(self_id, rest, total as int, first) == seq![id] + tail);
            }
            out.push(id);
            total = total + pull as u128;
            first = false;
            i += 1;
            proof {
                assert(pre_out + (seq![id] + tail) =~= out@ + tail);
            }
        } else {
            stopped = true;
        }
    }
    proof {
        if !stopped {
            assert(candidates@.skip(i as int) =~= Seq::<(usize, u64)>::empty());
        }
        assert(out@ + Seq::<usize>::empty() =~= out@);
    }
    out
}

/// The candidate list body `i` sees: each massive body's id paired with
/// its pull on body `i`.
pub open spec fn candidate_row(cand_ids: Seq<usize>, pulls: Seq<u64>) -> Seq<(usize, u64)> {
    Seq::new(cand_ids.len(), |j: int| (cand_ids[j], pulls[j]))
}

/// Recomputes every body's sibling list in one pass, dropping whatever
/// the lists held before. `cand_ids` are the massive bodies' ids in
/// mass-descending order and `pulls[i][j]` is the fixed-point pull of the
/// `j`-th massive body on the `i`-th body.
pub fn recompute_siblings(
    ids: &Vec<usize>,
    cand_ids: &Vec<usize>,
    pulls: &Vec<Vec<u64>>,
) -> (r: Vec<Vec<usize>>)
    requires
        pulls@.len() == ids@.len(),
        forall|i: int| 0 <= i < ids@.len() ==> (#[trigger] pulls@[i])@.len() == cand_ids@.len(),
    ensures
        r@.len() == ids@.len(),
        forall|i: int|
            0 <= i < ids@.len() ==> (#[trigger] r@[i])@ == sibling_selection(
                ids@[i],
                candidate_row(cand_ids@, pulls@[i]@),
            ),
{
    let mut out: Vec<Vec<usize>> = Vec::new();
    let mut i: usize = 0;
    while i < ids.len()
        invariant
            i <= ids@.len(),
            pulls@.len() == ids@.len(),
            forall|q: int|
                0 <= q < ids@.len() ==> (#[trigger] pulls@[q])@.len() == cand_ids@.len(),
            out@.len() == i as int,
            forall|q: int|
                0 <= q < i ==> (#[trigger] out@[q])@ == sibling_selection(
                    ids@[q],
                    candidate_row(cand_ids@, pulls@[q]@),
                ),
        decreases ids@.len() - i,
    {
        let row = &pulls[i];
        let mut cands: Vec<(usize, u64)> = Vec::new();
        let mut j: usize = 0;
        while j < cand_ids.len()
            invariant
                j <= cand_ids@.len(),
                row@.len() == cand_ids@.len(),
                cands@ == candidate_row(cand_ids@, row@).take(j as int),
            decreases cand_ids@.len() - j,
        {
            cands.push((cand_ids[j], row[j]));
            proof {
                assert(candidate_row(cand_ids@, row@).take(j as int + 1) =~= candidate_row(
                    cand_ids@,
                    row@,
                ).take(j as int).push((cand_ids@[j as int], row@[j as int])));
            }
            j += 1;
        }
        proof {
            assert(candidate_row(cand_ids@, row@).take(cand_ids@.len() as int) =~= candidate_row(
                cand_ids@,
                row@,
            ));
        }
        let siblings = select_siblings(ids[i], &cands);
        out.push(siblings);
        i += 1;
    }
    out
}

/// The massive-body list: the bodies whose mass key lies strictly above
/// the cutoff, as `(body index, mass key)` pairs in mass-descending order
/// (index ascending on equal masses).
pub fn massive_descending(masses: &Vec<u64>, cutoff: u64) -> (r: Vec<(usize, u64)>)
    ensures
        r@ == Seq::new(masses@.len(), |i: int| (i as usize, masses@[i])).filter(
            |p: (usize, u64)| p.1 > cutoff,
        ).sort_by(mass_order_fn()),
{
    let ghost pairs = Seq::new(masses@.len(), |i: int| (i as usize, masses@[i]));
    let ghost keep = |p: (usize, u64)| p.1 > cutoff;
    let mut flt: Vec<(usize, u64)> = Vec::new();
    let mut i: usize = 0;
    proof {
        reveal(Seq::filter);
        assert(pairs.take(0) =~= Seq::<(usize, u64)>::empty());
    }
    while i < masses.len()
        invariant
            i <= masses@.len(),
            pairs == Seq::new(masses@.len(), |k: int| (k as usize, masses@[k])),
            keep == (|p: (usize, u64)| p.1 > cutoff),
            flt@ == pairs.take(i as int).filter(keep),
        decreases masses@.len() - i,
    {
        let m = masses[i];
        proof {
            reveal(Seq::filter);
            let t1 = pairs.take(i as int + 1);
            assert(t1.drop_last() =~= pairs.take(i as int));
            assert(t1.last() == pairs[i as int]);
            assert(t1.filter(keep) == if keep(pairs[i as int]) {
                pairs.take(i as int).filter(keep).push(pairs[i as int])
            } else {
                pairs.take(i as int).filter(keep)
            });
        }
        if m > cutoff {
            flt.push((i, m));
        }
        i += 1;
    }
    proof {
        assert(pairs.take(masses@.len() as int) =~= pairs);
    }
    sort_by_mass(flt)
}

} // verus!
