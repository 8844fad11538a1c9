//! Ranking of `(id, score)` pairs.
//!
//! Scores are IEEE-754 single-precision bit patterns ordered by the total
//! order key of `fp`; ranking is descending, so a higher score comes first.
//! Ties between equal keys are broken by extraction order: among equal
//! scores the pair that stood earlier keeps its place first. That order is
//! deterministic but not meaningful.

use vstd::prelude::*;

use crate::fp::{key, sort_key};

verus! {

/// The sequence holds a pair with this id view and this score.
pub open spec fn holds_pair(s: Seq<(String, u32)>, id: Seq<char>, sc: u32) -> bool {
    exists|i: int| 0 <= i < s.len() && s[i].0@ == id && s[i].1 == sc
}

/// The sequence holds a pair with this id view.
pub open spec fn holds_id(s: Seq<(String, u32)>, id: Seq<char>) -> bool {
    exists|i: int| 0 <= i < s.len() && s[i].0@ == id
}

/// All ids in the sequence are pairwise distinct.
pub open spec fn ids_distinct(s: Seq<(String, u32)>) -> bool {
    forall|i: int, j: int| 0 <= i < j < s.len() ==> s[i].0@ != s[j].0@
}

/// Scores are non-increasing in the IEEE-754 total order.
pub open spec fn sorted_desc_by_key(s: Seq<(String, u32)>) -> bool {
    forall|i: int, j: int| 0 <= i < j < s.len() ==> key(s[i].1) >= key(s[j].1)
}

/// Remove and return a pair whose score key is maximal; among equal keys the
/// earliest pair is taken.
pub fn pop_best(v: &mut Vec<(String, u32)>) -> (p: (String, u32))
    requires
        old(v)@.len() > 0,
    ensures
        final(v)@.len() == old(v)@.len() - 1,
        holds_pair(old(v)@, p.0@, p.1),
        forall|j: int| 0 <= j < final(v)@.len() ==> key(p.1) >= key(#[trigger] final(v)@[j].1),
        forall|j: int|
            0 <= j < final(v)@.len() ==> holds_pair(
                old(v)@,
                #[trigger] final(v)@[j].0@,
                final(v)@[j].1,
            ),
        forall|t: int|
            0 <= t < old(v)@.len() ==> (old(v)@[t].0@ == p.0@ && #[trigger] old(v)@[t].1 == p.1)
                || holds_pair(final(v)@, old(v)@[t].0@, old(v)@[t].1),
        ids_distinct(old(v)@) ==> ids_distinct(final(v)@) && !holds_id(final(v)@, p.0@),
{
    let mut best: usize = 0;
    let mut i: usize = 1;
    while i < v.len()
        invariant
            best < v@.len(),
            i <= v@.len(),
            forall|t: int| 0 <= t < i ==> key(v@[best as int].1) >= key(#[trigger] v@[t].1),
        decreases v@.len() - i,
    {
        if sort_key(v[i].1) > sort_key(v[best].1) {
            best = i;
        }
        i = i + 1;
    }
    let ghost olds = v@;
    let ghost b = best as int;
    let p = v.remove(best);
    proof {
        assert forall|j: int| 0 <= j < v@.len() implies key(p.1) >= key(#[trigger] v@[j].1) by {
            if j < b {
                assert(v@[j] == olds[j]);
            } else {
                assert(v@[j] == olds[j + 1]);
            }
        }
        assert forall|j: int| 0 <= j < v@.len() implies holds_pair(
            olds,
            #[trigger] v@[j].0@,
            v@[j].1,
        ) by {
            if j < b {
                assert(v@[j] == olds[j]);
            } else {
                assert(v@[j] == olds[j + 1]);
            }
        }
        assert forall|t: int|
            0 <= t < olds.len() && !(olds[t].0@ == p.0@ && #[trigger] olds[t].1 == p.1) implies holds_pair(
            v@,
            olds[t].0@,
            olds[t].1,
        ) by {
            if t < b {
                assert(v@[t] == olds[t]);
            } else if t > b {
                assert(v@[t - 1] == olds[t]);
            }
        }
        if ids_distinct(olds) {
            assert forall|i1: int, j1: int| 0 <= i1 < j1 < v@.len() implies v@[i1].0@ != v@[j1].0@ by {
                let oi = if i1 < b { i1 } else { i1 + 1 };
                let oj = if j1 < b { j1 } else { j1 + 1 };
                assert(v@[i1] == olds[oi]);
                assert(v@[j1] == olds[oj]);
            }
            assert forall|j: int| 0 <= j < v@.len() implies v@[j].0@ != p.0@ by {
                let oj = if j < b { j } else { j + 1 };
                assert(v@[j] == olds[oj]);
            }
        }
    }
    p
}

/// The best `k` pairs by descending score key: at most `k` pairs, sorted
/// descending, every returned pair drawn from the input, and the whole input
/// returned (reordered) when `k` covers it.
pub fn top_k_desc(v: Vec<(String, u32)>, k: usize) -> (r: Vec<(String, u32)>)
    ensures
        r@.len() == if k <= v@.len() {
            k as int
        } else {
            v@.len() as int
        },
        sorted_desc_by_key(r@),
        forall|i: int| 0 <= i < r@.len() ==> holds_pair(v@, #[trigger] r@[i].0@, r@[i].1),
        k >= v@.len() ==> forall|t: int|
            0 <= t < v@.len() ==> holds_pair(r@, #[trigger] v@[t].0@, v@[t].1),
        ids_distinct(v@) ==> ids_distinct(r@),
        k > 0 ==> forall|t: int|
            0 <= t < v@.len() && !holds_pair(r@, (#[trigger] v@[t]).0@, v@[t].1) ==> r@.len() > 0
                && key(v@[t].1) <= key(r@[r@.len() - 1].1),
{
    let ghost orig = v@;
    let mut rem = v;
    let mut out: Vec<(String, u32)> = Vec::new();
    while out.len() < k && rem.len() > 0
        invariant
            out@.len() + rem@.len() == orig.len(),
            out@.len() <= k,
            sorted_desc_by_key(out@),
            forall|i: int, j: int|
                0 <= i < out@.len() && 0 <= j < rem@.len() ==> key(#[trigger] out@[i].1) >= key(
                    #[trigger] rem@[j].1,
                ),
            forall|i: int| 0 <= i < out@.len() ==> holds_pair(orig, #[trigger] out@[i].0@, out@[i].1),
            forall|j: int| 0 <= j < rem@.len() ==> holds_pair(orig, #[trigger] rem@[j].0@, rem@[j].1),
            forall|t: int|
                0 <= t < orig.len() ==> holds_pair(out@, #[trigger] orig[t].0@, orig[t].1)
                    || holds_pair(rem@, orig[t].0@, orig[t].1),
            ids_distinct(orig) ==> ids_distinct(out@) && ids_distinct(rem@) && (forall|i: int, j: int|
                0 <= i < out@.len() && 0 <= j < rem@.len() ==> #[trigger] out@[i].0@
                    != #[trigger] rem@[j].0@),
        decreases rem@.len(),
    {
        let ghost rem0 = rem@;
        let ghost out0 = out@;
        let p = pop_best(&mut rem);
        out.push(p);
        proof {
            assert forall|t: int|
                0 <= t < orig.len() && !holds_pair(rem@, #[trigger] orig[t].0@, orig[t].1) implies holds_pair(
                out@,
                orig[t].0@,
                orig[t].1,
            ) by {
                if holds_pair(out0, orig[t].0@, orig[t].1) {
                    let w = choose|w: int|
                        0 <= w < out0.len() && out0[w].0@ == orig[t].0@ && out0[w].1 == orig[t].1;
                    assert(out@[w] == out0[w]);
                } else {
                    // it stood in rem0; either it survived into rem or it is p,
                    // which now stands at the end of out
                    let w = choose|w: int|
                        0 <= w < rem0.len() && rem0[w].0@ == orig[t].0@ && rem0[w].1 == orig[t].1;
                    if rem0[w].0@ == p.0@ && rem0[w].1 == p.1 {
                        assert(out@[out@.len() - 1] == p);
                    } else {
                        assert(holds_pair(rem@, rem0[w].0@, rem0[w].1));
                    }
                }
            }
            if ids_distinct(orig) {
                assert forall|i: int, j: int|
                    0 <= i < out@.len() && 0 <= j < rem@.len() implies #[trigger] out@[i].0@
                    != #[trigger] rem@[j].0@ by {
                    assert(holds_pair(rem0, rem@[j].0@, rem@[j].1));
                    if i < out0.len() {
                        assert(out@[i] == out0[i]);
                        let w = choose|w: int|
                            0 <= w < rem0.len() && rem0[w].0@ == rem@[j].0@ && rem0[w].1 == rem@[j].1;
                    } else {
                        assert(out@[i] == p);
                    }
                }
                assert forall|i1: int, j1: int| 0 <= i1 < j1 < out@.len() implies out@[i1].0@
                    != out@[j1].0@ by {
                    if j1 < out0.len() {
                        assert(out@[i1] == out0[i1]);
                        assert(out@[j1] == out0[j1]);
                    } else {
                        assert(out@[j1] == p);
                        assert(out@[i1] == out0[i1]);
                        assert(holds_pair(rem0, p.0@, p.1));
                        let w = choose|w: int|
                            0 <= w < rem0.len() && rem0[w].0@ == p.0@ && rem0[w].1 == p.1;
                    }
                }
            }
        }
    }
    proof {
        if k > 0 {
            assert forall|t: int|
                0 <= t < orig.len() && !holds_pair(out@, (#[trigger] orig[t]).0@, orig[t].1) implies out@.len()
                > 0 && key(orig[t].1) <= key(out@[out@.len() - 1].1) by {
                assert(holds_pair(rem@, orig[t].0@, orig[t].1));
                let w = choose|w: int|
                    0 <= w < rem@.len() && rem@[w].0@ == orig[t].0@ && rem@[w].1 == orig[t].1;
                assert(key(out@[out@.len() - 1].1) >= key(rem@[w].1));
            }
        }
    }
    out
}

} // verus!
