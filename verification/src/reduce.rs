use vstd::prelude::*;

use crate::accum::acc_clear;
use crate::accum::acc_counts;
use crate::accum::acc_get;
use crate::accum::acc_insert;
use crate::context::Context;
use crate::context::ContextHolder;
use crate::context::cand_of;
use crate::context::cands_spec;
use crate::context::ctx_stepped;
use crate::context::holder_stepped;
use crate::context::holder_wf;
use crate::context::lemma_pair_count_le;
use crate::context::pair_contrib;
use crate::context::pair_count;
use crate::lessons::RunError;
use crate::rank::DESIRED_SCALE;
use crate::rank::desired_bounded;
use crate::rank::lemma_sort_by_key_congruent;
use crate::rank::rank_by_score;
use crate::rank::score_key;
use crate::rank::sort_by_key;
use crate::wordset::WordId;
use crate::wordset::WordSet;
use crate::wordset::lemma_push_contains;
use crate::wordset::seq_minus;
use dashmap::DashMap;
use std::collections::HashMap;

verus! {

/// The composite ranking key of one pass: the scaled desired-word priority,
/// or the pass's co-occurrence count for a word that is not desired.
pub open spec fn step_key(ctxs: Seq<Context>, ks: Seq<WordId>, desired: Map<WordId, usize>) -> spec_fn(
    WordId,
) -> int {
    |w: WordId|
        if desired.contains_key(w) {
            desired[w] as int * DESIRED_SCALE as int
        } else {
            pair_count(ctxs, ks, w) as int
        }
}

/// The candidate pool of a pass, ranked ascending by composite score; the
/// selection later takes candidates from the end, best first.
pub open spec fn ranked_spec(ctxs: Seq<Context>, ks: Seq<WordId>, desired: Map<WordId, usize>) -> Seq<
    WordId,
> {
    sort_by_key(cands_spec(ctxs, ks), step_key(ctxs, ks, desired))
}

/// The accumulator holds exactly the pass's co-occurrence counts.
pub open spec fn acc_matches(m: Map<WordId, usize>, ctxs: Seq<Context>, ks: Seq<WordId>) -> bool {
    &&& forall|w: WordId|
        #![trigger m.contains_key(w)]
        #![trigger pair_count(ctxs, ks, w)]
        m.contains_key(w) <==> pair_count(ctxs, ks, w) > 0
    &&& forall|w: WordId| #[trigger] m.contains_key(w) ==> m[w] == pair_count(ctxs, ks, w)
}

/// One reduction pass. Every unresolved sentence loses the newly known ids;
/// a sentence left empty is flagged resolved for good; one left with a single
/// id contributes that id to the candidate pool; one left with two ids bumps
/// both ids' counts in the accumulator. The deduplicated pool is then ranked,
/// ascending, by the composite score. An empty pool is the fatal exhaustion
/// condition.
pub fn strip_known(
    holder: &mut ContextHolder,
    knowns: &WordSet,
    preallocated_map: &mut DashMap<WordId, usize>,
    desired_words: &HashMap<WordId, usize>,
) -> (r: Result<Vec<WordId>, RunError>)
    requires
        holder_wf(old(holder)@),
        desired_bounded(desired_words@),
    ensures
        holder_stepped(old(holder)@, final(holder)@, knowns@),
        holder_wf(final(holder)@),
        acc_matches(acc_counts(*final(preallocated_map)), old(holder)@, knowns@),
        match r {
            Ok(v) => v@ == ranked_spec(old(holder)@, knowns@, desired_words@) && v@.len() > 0,
            Err(e) => e == RunError::NoViableCandidates && cands_spec(old(holder)@, knowns@).len()
                == 0,
        },
{
    let ghost orig = holder@;
    let ghost ks = knowns@;
    acc_clear(preallocated_map);
    let mut cands: Vec<WordId> = Vec::new();
    let n = holder.ctxs.len();
    for i in 0..n
        invariant
            n == holder.ctxs@.len(),
            n == orig.len(),
            ks == knowns@,
            holder_wf(orig),
            desired_bounded(desired_words@),
            forall|j: int| i <= j < n ==> holder.ctxs@[j] == orig[j],
            forall|j: int| 0 <= j < i ==> ctx_stepped(orig[j], #[trigger] holder.ctxs@[j], ks),
            forall|j: int| 0 <= j < i ==> (#[trigger] holder.ctxs@[j]).wf(),
            cands@ == cands_spec(orig.take(i as int), ks),
            acc_matches(acc_counts(*preallocated_map), orig.take(i as int), ks),
    {
        proof {
            assert(orig.take(i + 1).drop_last() =~= orig.take(i as int));
            assert(orig.take(i + 1).last() == orig[i as int]);
        }
        let c = &holder.ctxs[i];
        proof {
            assert(c == orig[i as int]);
            assert(orig[i as int].wf());
        }
        if c.skip {
            proof {
                assert(cand_of(orig[i as int], ks) is None);
                assert(cands_spec(orig.take(i + 1), ks) == cands@);
                assert forall|w: WordId| pair_contrib(orig[i as int], ks, w) == 0 by {}
                assert forall|w: WordId| #[trigger]
                    pair_count(orig.take(i + 1), ks, w) == pair_count(orig.take(i as int), ks, w) by {}
                assert(ctx_stepped(orig[i as int], holder.ctxs@[i as int], ks));
            }
        } else {
            let filtered = c.concepts.minus(knowns);
            let flen = filtered.len();
            let all_c = c.all_concepts;
            proof {
                assert(filtered@ == seq_minus(orig[i as int].concepts@, ks));
                assert(filtered.wf());
            }
            if flen == 1 {
                let w = filtered.get(0);
                proof {
                    assert(cand_of(orig[i as int], ks) == Some(w));
                    assert forall|x: WordId| pair_contrib(orig[i as int], ks, x) == 0 by {}
                }
                let dup = crate::wordset::vec_contains(&cands, w);
                if !dup {
                    cands.push(w);
                }
                proof {
                    assert(cands@ == cands_spec(orig.take(i + 1), ks));
                    assert forall|x: WordId| #[trigger]
                        pair_count(orig.take(i + 1), ks, x) == pair_count(orig.take(i as int), ks, x) by {}
                }
            } else if flen == 2 {
                let w0 = filtered.get(0);
                let w1 = filtered.get(1);
                proof {
                    assert(w0 != w1);
                    assert(cand_of(orig[i as int], ks) is None);
                    assert forall|x: WordId| #[trigger] filtered@.contains(x) <==> (x == w0 || x
                        == w1) by {
                        if filtered@.contains(x) {
                            let q = choose|q: int| 0 <= q < filtered@.len() && filtered@[q] == x;
                            assert(q == 0 || q == 1);
                        }
                        if x == w0 {
                            assert(filtered@[0] == x);
                        }
                        if x == w1 {
                            assert(filtered@[1] == x);
                        }
                    }
                    assert forall|x: WordId| #[trigger]
                        pair_contrib(orig[i as int], ks, x) == (if x == w0 || x == w1 {
                            1nat
                        } else {
                            0nat
                        }) by {}
                    lemma_pair_count_le(orig.take(i as int), ks, w0);
                    lemma_pair_count_le(orig.take(i as int), ks, w1);
                }
                let c0 = match acc_get(preallocated_map, w0) {
                    Some(v) => v,
                    None => 0,
                };
                proof {
                    assert(c0 == pair_count(orig.take(i as int), ks, w0));
                }
                acc_insert(preallocated_map, w0, c0 + 1);
                let c1 = match acc_get(preallocated_map, w1) {
                    Some(v) => v,
                    None => 0,
                };
                proof {
                    assert(c1 == pair_count(orig.take(i as int), ks, w1));
                }
                acc_insert(preallocated_map, w1, c1 + 1);
                proof {
                    let m2 = acc_counts(*preallocated_map);
                    assert forall|x: WordId|
                        #![trigger m2.contains_key(x)]
                        #![trigger pair_count(orig.take(i + 1), ks, x)]
                        (m2.contains_key(x) <==> pair_count(orig.take(i + 1), ks, x) > 0) && (
                        m2.contains_key(x) ==> m2[x] == pair_count(orig.take(i + 1), ks, x)) by {
                        assert(pair_count(orig.take(i + 1), ks, x) == pair_count(
                            orig.take(i as int),
                            ks,
                            x,
                        ) + pair_contrib(orig[i as int], ks, x));
                        if x == w1 {
                        } else if x == w0 {
                        } else {
                        }
                    }
                    assert(cands@ == cands_spec(orig.take(i + 1), ks));
                }
            } else {
                proof {
                    assert(cand_of(orig[i as int], ks) is None);
                    assert(cands@ == cands_spec(orig.take(i + 1), ks));
                    assert forall|x: WordId| pair_contrib(orig[i as int], ks, x) == 0 by {}
                    assert forall|x: WordId| #[trigger]
                        pair_count(orig.take(i + 1), ks, x) == pair_count(orig.take(i as int), ks, x) by {}
                }
            }
            let newc = Context { concepts: filtered, all_concepts: all_c, skip: flen == 0 };
            proof {
                assert(ctx_stepped(orig[i as int], newc, ks));
            }
            holder.ctxs.set(i, newc);
        }
    }
    proof {
        assert(orig.take(n as int) =~= orig);
    }
    if cands.len() == 0 {
        return Err(RunError::NoViableCandidates);
    }
    rank_by_score(&mut cands, &*preallocated_map, desired_words);
    proof {
        let m = acc_counts(*preallocated_map);
        let k1 = score_key(m, desired_words@);
        let k2 = step_key(orig, ks, desired_words@);
        assert forall|w: WordId| (#[trigger] k1(w)) == k2(w) by {
            if !desired_words@.contains_key(w) {
                if m.contains_key(w) {
                    assert(m[w] == pair_count(orig, ks, w));
                } else {
                    assert(pair_count(orig, ks, w) == 0);
                }
            }
        }
        lemma_sort_by_key_congruent(cands_spec(orig, ks), k1, k2);
    }
    Ok(cands)
}

/// The ranked candidate pool never holds an id twice.
pub proof fn lemma_ranked_no_dup(ctxs: Seq<Context>, ks: Seq<WordId>, desired: Map<WordId, usize>)
    ensures
        ranked_spec(ctxs, ks, desired).no_duplicates(),
        ranked_spec(ctxs, ks, desired).len() == cands_spec(ctxs, ks).len(),
{
    let c = cands_spec(ctxs, ks);
    let key = step_key(ctxs, ks, desired);
    crate::context::lemma_cands_no_dup(ctxs, ks);
    crate::rank::lemma_sort_by_key_ensures(c, key);
    c.lemma_multiset_has_no_duplicates();
    let r = ranked_spec(ctxs, ks, desired);
    assert(r.to_multiset() == c.to_multiset());
    r.lemma_multiset_has_no_duplicates_conv();
}

/// The weight a context seq assigns to a word id: the sum of `all_concepts`
/// over every context whose unknown set holds that id.
pub open spec fn weight_of(ctxs: Seq<Context>, w: WordId) -> int
    decreases ctxs.len(),
{
    if ctxs.len() == 0 {
        0
    } else {
        weight_of(ctxs.drop_last(), w) + if ctxs.last().concepts@.contains(w) {
            ctxs.last().all_concepts as int
        } else {
            0
        }
    }
}

/// The sum of all contexts' weights: a bound on any single id's total.
pub open spec fn weight_sum(ctxs: Seq<Context>) -> int
    decreases ctxs.len(),
{
    if ctxs.len() == 0 {
        0
    } else {
        weight_sum(ctxs.drop_last()) + ctxs.last().all_concepts
    }
}

/// Whether some context's unknown set holds the id.
pub open spec fn appears(ctxs: Seq<Context>, w: WordId) -> bool {
    exists|i: int| 0 <= i < ctxs.len() && (#[trigger] ctxs[i].concepts@).contains(w)
}

proof fn lemma_weight_zero(ctxs: Seq<Context>, w: WordId)
    requires
        !appears(ctxs, w),
    ensures
        weight_of(ctxs, w) == 0,
    decreases ctxs.len(),
{
    if ctxs.len() > 0 {
        assert(!appears(ctxs.drop_last(), w)) by {
            if appears(ctxs.drop_last(), w) {
                let q = choose|q: int|
                    0 <= q < ctxs.drop_last().len() && (#[trigger] ctxs.drop_last()[q].concepts@).contains(w);
                assert(ctxs[q].concepts@.contains(w));
            }
        }
        lemma_weight_zero(ctxs.drop_last(), w);
        assert(!ctxs.last().concepts@.contains(w)) by {
            if ctxs.last().concepts@.contains(w) {
                assert(ctxs[ctxs.len() - 1].concepts@.contains(w));
            }
        }
    }
}

proof fn lemma_weight_bounds(ctxs: Seq<Context>, w: WordId)
    ensures
        0 <= weight_of(ctxs, w) <= weight_sum(ctxs),
    decreases ctxs.len(),
{
    if ctxs.len() > 0 {
        lemma_weight_bounds(ctxs.drop_last(), w);
    }
}

proof fn lemma_weight_sum_take(ctxs: Seq<Context>, k: int)
    requires
        0 <= k <= ctxs.len(),
    ensures
        weight_sum(ctxs.take(k)) <= weight_sum(ctxs),
    decreases ctxs.len(),
{
    if k == ctxs.len() {
        assert(ctxs.take(k) =~= ctxs);
    } else {
        assert(ctxs.take(k) =~= ctxs.drop_last().take(k));
        lemma_weight_sum_take(ctxs.drop_last(), k);
    }
}

/// Clears the accumulator, then fills it so that every word id appearing in
/// some context's unknown set is bound to its weighted count: the sum of
/// `all_concepts` over the contexts whose unknown set holds it.
pub fn fill_map(holder: &ContextHolder, preallocated_map: &mut DashMap<WordId, usize>)
    requires
        holder_wf(holder@),
        weight_sum(holder@) <= usize::MAX,
    ensures
        forall|w: WordId|
            #![trigger acc_counts(*final(preallocated_map)).contains_key(w)]
            acc_counts(*final(preallocated_map)).contains_key(w) <==> appears(holder@, w),
        forall|w: WordId| #[trigger]
            acc_counts(*final(preallocated_map)).contains_key(w)
                ==> acc_counts(*final(preallocated_map))[w] == weight_of(holder@, w),
{
    let ghost orig = holder@;
    acc_clear(preallocated_map);
    let n = holder.ctxs.len();
    for i in 0..n
        invariant
            n == orig.len(),
            orig == holder@,
            holder_wf(orig),
            weight_sum(orig) <= usize::MAX,
            forall|w: WordId|
                #![trigger acc_counts(*preallocated_map).contains_key(w)]
                #![trigger appears(orig.take(i as int), w)]
                acc_counts(*preallocated_map).contains_key(w) <==> appears(orig.take(i as int), w),
            forall|w: WordId| #[trigger]
                acc_counts(*preallocated_map).contains_key(w) ==> acc_counts(*preallocated_map)[w]
                    == weight_of(orig.take(i as int), w),
    {
        proof {
            assert(orig.take(i + 1).drop_last() =~= orig.take(i as int));
            assert(orig.take(i + 1).last() == orig[i as int]);
            assert(orig[i as int].wf());
        }
        let c = &holder.ctxs[i];
        let all_c = c.all_concepts;
        let clen = c.concepts.len();
        let ghost cs = c.concepts@;
        for j in 0..clen
            invariant
                n == orig.len(),
                orig == holder@,
                holder_wf(orig),
                weight_sum(orig) <= usize::MAX,
                0 <= i < n,
                c == orig[i as int],
                cs == c.concepts@,
                cs.no_duplicates(),
                clen == cs.len(),
                all_c == c.all_concepts,
                forall|w: WordId|
                    #![trigger acc_counts(*preallocated_map).contains_key(w)]
                    acc_counts(*preallocated_map).contains_key(w) <==> (appears(
                        orig.take(i as int),
                        w,
                    ) || cs.take(j as int).contains(w)),
                forall|w: WordId| #[trigger]
                    acc_counts(*preallocated_map).contains_key(w) ==> acc_counts(
                        *preallocated_map,
                    )[w] == weight_of(orig.take(i as int), w) + (if cs.take(j as int).contains(w) {
                        all_c as int
                    } else {
                        0int
                    }),
        {
            let w = c.concepts.get(j);
            proof {
                assert(cs[j as int] == w);
                assert(!cs.take(j as int).contains(w)) by {
                    if cs.take(j as int).contains(w) {
                        let q = choose|q: int| 0 <= q < j && cs.take(j as int)[q] == w;
                        assert(cs[q] == cs[j as int]);
                    }
                }
                assert(orig.take(i + 1).drop_last() =~= orig.take(i as int));
                assert(orig.take(i + 1).last() == orig[i as int]);
                lemma_weight_bounds(orig.take(i as int), w);
                lemma_weight_sum_take(orig, i + 1);
                assert(weight_sum(orig.take(i + 1)) == weight_sum(orig.take(i as int)) + all_c);
                if !appears(orig.take(i as int), w) {
                    lemma_weight_zero(orig.take(i as int), w);
                }
            }
            let cur = match acc_get(preallocated_map, w) {
                Some(v) => v,
                None => 0,
            };
            proof {
                assert(cur == weight_of(orig.take(i as int), w) + (if cs.take(j as int).contains(w) {
                    all_c as int
                } else {
                    0int
                }));
            }
            acc_insert(preallocated_map, w, cur + all_c);
            proof {
                let m2 = acc_counts(*preallocated_map);
                assert forall|x: WordId| #[trigger]
                    cs.take(j + 1).contains(x) <==> (cs.take(j as int).contains(x) || x == w) by {
                    assert(cs.take(j + 1) =~= cs.take(j as int).push(w));
                    lemma_push_contains(cs.take(j as int), w, x);
                }
            }
        }
        proof {
            assert(cs.take(clen as int) =~= cs);
            let m = acc_counts(*preallocated_map);
            assert forall|x: WordId|
                #![trigger appears(orig.take(i + 1), x)]
                #![trigger m.contains_key(x)]
                (m.contains_key(x) <==> appears(orig.take(i + 1), x)) && (m.contains_key(x)
                    ==> m[x] == weight_of(orig.take(i + 1), x)) by {
                assert(weight_of(orig.take(i + 1), x) == weight_of(orig.take(i as int), x) + (
                if cs.contains(x) {
                    all_c as int
                } else {
                    0int
                }));
                if m.contains_key(x) {
                    if appears(orig.take(i as int), x) {
                        let q = choose|q: int|
                            0 <= q < i && orig.take(i as int)[q].concepts@.contains(x);
                        assert(orig.take(i + 1)[q].concepts@.contains(x));
                    } else {
                        assert(cs.contains(x));
                        assert(orig.take(i + 1)[i as int].concepts@.contains(x));
                    }
                }
                if appears(orig.take(i + 1), x) {
                    let q = choose|q: int| 0 <= q < i + 1 && #[trigger] orig.take(i + 1)[q].concepts@.contains(x);
                    if q < i {
                        assert(orig.take(i as int)[q].concepts@.contains(x));
                    } else {
                        assert(cs.contains(x));
                    }
                }
            }
        }
    }
    proof {
        assert(orig.take(n as int) =~= orig);
    }
}

} // verus!
