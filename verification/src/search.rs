//! Exact nearest-neighbour selection: given one squared-distance key per
//! candidate slot, pick the `k` closest, ascending.
//!
//! Distances arrive as IEEE-754 bit patterns of non-negative `f32` values;
//! for such values the unsigned bit-pattern order coincides with the numeric
//! order, and a NaN pattern sorts above every finite value, so ordering the
//! raw patterns is exactly the distance order the caller wants. Ties are
//! broken by slot number, so a result is stable for a given state.

use vstd::prelude::*;
use crate::store::Store;

verus! {

/// Candidate order: by distance bits, then by slot.
pub open spec fn cand_le(a: (usize, u32), b: (usize, u32)) -> bool {
    a.1 < b.1 || (a.1 == b.1 && a.0 <= b.0)
}

/// Sorted ascending under the candidate order.
pub open spec fn sorted_cands(s: Seq<(usize, u32)>) -> bool {
    forall|i: int, j: int| 0 <= i < j < s.len() ==> cand_le(s[i], s[j])
}

/// Position of the least remaining candidate.
fn find_min(rest: &Vec<(usize, u32)>) -> (r: usize)
    requires
        rest@.len() > 0,
    ensures
        r < rest@.len(),
        forall|t: int| 0 <= t < rest@.len() ==> cand_le(rest@[r as int], #[trigger] rest@[t]),
{
    let n = rest.len();
    let mut best: usize = 0;
    let mut t: usize = 1;
    while t < n
        invariant
            n == rest@.len(),
            best < n,
            1 <= t <= n,
            forall|u: int| 0 <= u < t ==> cand_le(rest@[best as int], #[trigger] rest@[u]),
        decreases n - t,
    {
        let (bs, bd) = rest[best];
        let (cs, cd) = rest[t];
        if cd < bd || (cd == bd && cs < bs) {
            best = t;
        }
        t = t + 1;
    }
    best
}

/// Sorts the candidates ascending by distance, ties by slot, keeping
/// exactly the given collection.
fn sort_candidates(cands: Vec<(usize, u32)>) -> (r: Vec<(usize, u32)>)
    ensures
        sorted_cands(r@),
        r@.to_multiset() == cands@.to_multiset(),
        r@.len() == cands@.len(),
{
    broadcast use vstd::seq_lib::group_to_multiset_ensures;

    let mut rest = cands;
    let mut out: Vec<(usize, u32)> = Vec::new();
    proof {
        assert(out@.to_multiset().add(rest@.to_multiset()) =~= rest@.to_multiset());
    }
    while rest.len() > 0
        invariant
            out@.to_multiset().add(rest@.to_multiset()) == cands@.to_multiset(),
            out@.len() + rest@.len() == cands@.len(),
            sorted_cands(out@),
            forall|oi: int, t: int|
                0 <= oi < out@.len() && 0 <= t < rest@.len() ==> cand_le(
                    #[trigger] out@[oi],
                    #[trigger] rest@[t],
                ),
        decreases rest@.len(),
    {
        broadcast use vstd::seq_lib::group_to_multiset_ensures;

        let i = find_min(&rest);
        let ghost old_rest = rest@;
        let ghost old_out = out@;
        let x = rest.remove(i);
        out.push(x);
        proof {
            assert(old_rest.remove(i as int).to_multiset() =~= old_rest.to_multiset().remove(x));
            assert(old_out.push(x).to_multiset() =~= old_out.to_multiset().insert(x));
            assert(old_rest.to_multiset().count(x) > 0) by {
                assert(old_rest.contains(x)) by {
                    assert(old_rest[i as int] == x);
                }
            }
            assert(out@.to_multiset().add(rest@.to_multiset()) =~= cands@.to_multiset());
            // the removed minimum keeps both order invariants
            assert forall|oi: int, t: int|
                0 <= oi < out@.len() && 0 <= t < rest@.len() implies cand_le(
                #[trigger] out@[oi],
                #[trigger] rest@[t],
            ) by {
                let pre_t = if t < i as int {
                    t
                } else {
                    t + 1
                };
                assert(rest@[t] == old_rest[pre_t]);
                if oi < out@.len() - 1 {
                    assert(cand_le(old_out[oi], old_rest[pre_t]));
                } else {
                    assert(cand_le(old_rest[i as int], old_rest[pre_t]));
                }
            }
        }
    }
    out
}

impl Store {
    /// Picks the `k` nearest candidates: sorts the `(slot, squared-distance
    /// bits)` pairs ascending (ties by slot), keeps the first `min(k, len)`,
    /// and names each chosen slot's owning key. The result is exactly the
    /// prefix of the unique sorted arrangement of the input, so the chosen
    /// distances are the `k` smallest.
    pub fn search_select(&self, dists: &Vec<(usize, u32)>, k: usize) -> (r: Vec<(String, u32)>)
        requires
            self.wf(),
            forall|w: int| 0 <= w < dists@.len() ==> (#[trigger] dists@[w]).0 < self.n_slots(),
        ensures
            r@.len() == if k <= dists@.len() {
                k as int
            } else {
                dists@.len() as int
            },
            forall|i: int, j: int| 0 <= i < j < r@.len() ==> r@[i].1 <= r@[j].1,
            exists|sorted: Seq<(usize, u32)>|
                {
                    &&& #[trigger] sorted.to_multiset() == dists@.to_multiset()
                    &&& sorted.len() == dists@.len()
                    &&& sorted_cands(sorted)
                    &&& forall|i: int|
                        0 <= i < r@.len() ==> (#[trigger] r@[i]).1 == sorted[i].1 && r@[i].0@
                            == self.slot_key(sorted[i].0 as int) && sorted[i].0 < self.n_slots()
                },
    {
        let mut cands: Vec<(usize, u32)> = Vec::new();
        let n = dists.len();
        let mut w: usize = 0;
        while w < n
            invariant
                w <= n,
                n == dists@.len(),
                cands@ == dists@.take(w as int),
            decreases n - w,
        {
            cands.push(dists[w]);
            proof {
                assert(dists@.take(w as int + 1) =~= dists@.take(w as int).push(dists@[w as int]));
            }
            w = w + 1;
        }
        proof {
            assert(dists@.take(n as int) =~= dists@);
        }
        let sorted = sort_candidates(cands);
        proof {
            broadcast use vstd::seq_lib::group_to_multiset_ensures;

            assert forall|t: int| 0 <= t < sorted@.len() implies (#[trigger] sorted@[t]).0
                < self.n_slots() by {
                let x = sorted@[t];
                assert(sorted@.contains(x));
                assert(sorted@.to_multiset().count(x) > 0);
                assert(dists@.to_multiset().count(x) > 0);
                assert(dists@.contains(x));
                let w = choose|w: int| 0 <= w < dists@.len() && dists@[w] == x;
                assert(dists@[w].0 < self.n_slots());
            }
        }
        let take = if k <= sorted.len() {
            k
        } else {
            sorted.len()
        };
        let mut r: Vec<(String, u32)> = Vec::new();
        let mut i: usize = 0;
        while i < take
            invariant
                i <= take,
                take <= sorted@.len(),
                self.wf(),
                forall|t: int|
                    0 <= t < sorted@.len() ==> (#[trigger] sorted@[t]).0 < self.n_slots(),
                r@.len() == i,
                forall|t: int|
                    0 <= t < i ==> (#[trigger] r@[t]).1 == sorted@[t].1 && r@[t].0@
                        == self.slot_key(sorted@[t].0 as int),
            decreases take - i,
        {
            let (slot, d) = sorted[i];
            let owner = self.slot_owner(slot);
            r.push((owner, d));
            i = i + 1;
        }
        proof {
            assert forall|a: int, b: int| 0 <= a < b < r@.len() implies r@[a].1 <= r@[b].1 by {
                assert(cand_le(sorted@[a], sorted@[b]));
            }
            assert(exists|srt: Seq<(usize, u32)>|
                {
                    &&& #[trigger] srt.to_multiset() == dists@.to_multiset()
                    &&& srt.len() == dists@.len()
                    &&& sorted_cands(srt)
                    &&& forall|t: int|
                        0 <= t < r@.len() ==> (#[trigger] r@[t]).1 == srt[t].1 && r@[t].0@
                            == self.slot_key(srt[t].0 as int) && srt[t].0 < self.n_slots()
                }) by {
                assert({
                    &&& sorted@.to_multiset() == dists@.to_multiset()
                    &&& sorted@.len() == dists@.len()
                    &&& sorted_cands(sorted@)
                    &&& forall|t: int|
                        0 <= t < r@.len() ==> (#[trigger] r@[t]).1 == sorted@[t].1 && r@[t].0@
                            == self.slot_key(sorted@[t].0 as int) && sorted@[t].0 < self.n_slots()
                });
            }
        }
        r
    }

    /// Validates a query against the store: the right dimension and every
    /// component finite.
    pub fn check_query(&self, query: &Vec<u32>) -> (r: Result<(), crate::errors::DbError>)
        requires
            self.wf(),
        ensures
            r is Ok <==> (query@.len() == self.dim() && crate::store::all_finite(query@)),
            query@.len() != self.dim() ==> (r matches Err(
                crate::errors::DbError::DimensionMismatch { expected, got },
            ) && expected == self.cfg().dimension && got == query@.len() as u32),
            (query@.len() == self.dim() && !crate::store::all_finite(query@)) ==> r matches Err(
                crate::errors::DbError::InvalidVector(_),
            ),
    {
        proof {
            self.lemma_dim_is_cfg();
        }
        let dim = self.config().dimension;
        if query.len() != dim as usize {
            let got = #[verifier::truncate] (query.len() as u32);
            return Err(crate::errors::DbError::DimensionMismatch { expected: dim, got });
        }
        if !crate::store::vec_all_finite(query) {
            return Err(
                crate::errors::DbError::InvalidVector(
                    "query has a NaN or infinite component".to_owned(),
                ),
            );
        }
        Ok(())
    }
}

} // verus!
