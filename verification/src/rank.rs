use vstd::prelude::*;

use crate::accum::acc_counts;
use vstd::multiset::Multiset;
use crate::accum::acc_get;
use crate::wordset::WordId;
use dashmap::DashMap;
use std::collections::HashMap;

verus! {

/// The factor that lifts a desired word's priority above any plausible
/// co-occurrence weight.
pub const DESIRED_SCALE: usize = 20000;

/// The composite score of a candidate: its desired-word priority scaled up,
/// or, for a word that is not desired, its accumulator weight (zero if
/// absent).
pub open spec fn score_of(w: WordId, counts: Map<WordId, usize>, desired: Map<WordId, usize>) -> int {
    if desired.contains_key(w) {
        desired[w] as int * DESIRED_SCALE as int
    } else if counts.contains_key(w) {
        counts[w] as int
    } else {
        0
    }
}

pub open spec fn score_key(counts: Map<WordId, usize>, desired: Map<WordId, usize>) -> spec_fn(
    WordId,
) -> int {
    |w: WordId| score_of(w, counts, desired)
}

/// Every desired-word priority is small enough that scaling it cannot
/// overflow.
pub open spec fn desired_bounded(desired: Map<WordId, usize>) -> bool {
    forall|w: WordId| #[trigger] desired.contains_key(w) ==> desired[w] <= usize::MAX / DESIRED_SCALE
}

/// Inserts `x` into `s` before the first element of strictly greater key,
/// after every element of equal key.
pub open spec fn insert_by_key(x: WordId, s: Seq<WordId>, key: spec_fn(WordId) -> int) -> Seq<
    WordId,
>
    decreases s.len(),
{
    if s.len() == 0 {
        seq![x]
    } else if key(x) < key(s[0]) {
        seq![x] + s
    } else {
        seq![s[0]] + insert_by_key(x, s.drop_first(), key)
    }
}

/// Stable insertion sort by key, ascending.
pub open spec fn sort_by_key(s: Seq<WordId>, key: spec_fn(WordId) -> int) -> Seq<WordId>
    decreases s.len(),
{
    if s.len() == 0 {
        Seq::empty()
    } else {
        insert_by_key(s.last(), sort_by_key(s.drop_last(), key), key)
    }
}

pub open spec fn sorted_by_key(s: Seq<WordId>, key: spec_fn(WordId) -> int) -> bool {
    forall|i: int, j: int| 0 <= i < j < s.len() ==> key(s[i]) <= key(s[j])
}

pub proof fn lemma_insert_by_key_at(x: WordId, s: Seq<WordId>, key: spec_fn(WordId) -> int, p: int)
    requires
        0 <= p <= s.len(),
        forall|i: int| 0 <= i < p ==> key(s[i]) <= key(x),
        p < s.len() ==> key(x) < key(s[p]),
    ensures
        insert_by_key(x, s, key) == s.take(p) + seq![x] + s.skip(p),
    decreases s.len(),
{
    if s.len() == 0 {
        assert(insert_by_key(x, s, key) =~= s.take(p) + seq![x] + s.skip(p));
    } else if p == 0 {
        assert(key(x) < key(s[0]));
        assert(s.take(0) + seq![x] + s.skip(0) =~= seq![x] + s);
    } else {
        assert(key(s[0]) <= key(x));
        let rest = s.drop_first();
        assert forall|i: int| 0 <= i < p - 1 implies key(rest[i]) <= key(x) by {
            assert(rest[i] == s[i + 1]);
        }
        assert(p - 1 < rest.len() ==> key(x) < key(rest[p - 1]));
        lemma_insert_by_key_at(x, rest, key, p - 1);
        assert(seq![s[0]] + (rest.take(p - 1) + seq![x] + rest.skip(p - 1)) =~= s.take(p)
            + seq![x] + s.skip(p));
    }
}

pub proof fn lemma_insert_by_key_ensures(x: WordId, s: Seq<WordId>, key: spec_fn(WordId) -> int)
    ensures
        insert_by_key(x, s, key).len() == s.len() + 1,
        insert_by_key(x, s, key).to_multiset() =~= s.to_multiset().insert(x),
        forall|w: WordId| #[trigger]
            insert_by_key(x, s, key).contains(w) <==> (s.contains(w) || w == x),
        sorted_by_key(s, key) ==> sorted_by_key(insert_by_key(x, s, key), key),
    decreases s.len(),
{
    broadcast use vstd::seq_lib::group_to_multiset_ensures;

    let r = insert_by_key(x, s, key);
    if s.len() == 0 {
        assert(r =~= Seq::<WordId>::empty().push(x));
        assert(Seq::<WordId>::empty().to_multiset() =~= Multiset::empty()) by {
            assert forall|a: WordId| Seq::<WordId>::empty().to_multiset().count(a) == 0 by {
                assert(!Seq::<WordId>::empty().contains(a));
            }
        }
        assert(r.to_multiset() =~= s.to_multiset().insert(x));
        assert forall|w: WordId| #[trigger] r.contains(w) <==> (s.contains(w) || w == x) by {
            assert(r[0] == x);
            if r.contains(w) {
                let i = choose|i: int| 0 <= i < r.len() && r[i] == w;
                assert(i == 0);
            }
        }
    } else if key(x) < key(s[0]) {
        assert(r == seq![x] + s);
        vstd::seq_lib::lemma_multiset_commutative(seq![x], s);
        assert(seq![x].to_multiset() =~= Multiset::empty().insert(x)) by {
            assert(seq![x] =~= Seq::<WordId>::empty().push(x));
            assert forall|a: WordId| Seq::<WordId>::empty().to_multiset().count(a) == 0 by {
                assert(!Seq::<WordId>::empty().contains(a));
            }
            assert(Seq::<WordId>::empty().to_multiset() =~= Multiset::empty());
        }
        assert(r.to_multiset() =~= s.to_multiset().insert(x));
        assert forall|w: WordId| #[trigger] r.contains(w) <==> (s.contains(w) || w == x) by {
            assert(r.to_multiset().count(w) > 0 <==> r.contains(w));
            assert(s.to_multiset().count(w) > 0 <==> s.contains(w));
            assert(r.to_multiset().count(w) == s.to_multiset().count(w) + (if w == x {
                1int
            } else {
                0int
            }));
        }
        if sorted_by_key(s, key) {
            assert forall|i: int, j: int| 0 <= i < j < r.len() implies key(r[i]) <= key(r[j]) by {
                if i == 0 {
                    assert(r[j] == s[j - 1]);
                    if j - 1 > 0 {
                        assert(key(s[0]) <= key(s[j - 1]));
                    }
                } else {
                    assert(r[i] == s[i - 1] && r[j] == s[j - 1]);
                }
            }
        }
    } else {
        let rest = s.drop_first();
        lemma_insert_by_key_ensures(x, rest, key);
        let rec = insert_by_key(x, rest, key);
        assert(r == seq![s[0]] + rec);
        vstd::seq_lib::lemma_multiset_commutative(seq![s[0]], rec);
        assert(s =~= seq![s[0]] + rest);
        vstd::seq_lib::lemma_multiset_commutative(seq![s[0]], rest);
        assert(r.to_multiset() =~= s.to_multiset().insert(x)) by {
            assert(rec.to_multiset() =~= rest.to_multiset().insert(x));
        }
        assert forall|w: WordId| #[trigger] r.contains(w) <==> (s.contains(w) || w == x) by {
            assert(r.to_multiset().count(w) > 0 <==> r.contains(w));
            assert(s.to_multiset().count(w) > 0 <==> s.contains(w));
            assert(r.to_multiset().count(w) == s.to_multiset().count(w) + (if w == x {
                1int
            } else {
                0int
            }));
        }
        if sorted_by_key(s, key) {
            assert(sorted_by_key(rest, key)) by {
                assert forall|i: int, j: int| 0 <= i < j < rest.len() implies key(rest[i]) <= key(
                    rest[j],
                ) by {
                    assert(rest[i] == s[i + 1] && rest[j] == s[j + 1]);
                }
            }
            assert(sorted_by_key(rec, key));
            assert forall|i: int, j: int| 0 <= i < j < r.len() implies key(r[i]) <= key(r[j]) by {
                if i == 0 {
                    assert(r[j] == rec[j - 1]);
                    assert(rec.contains(rec[j - 1])) by {
                        assert(rec[j - 1] == rec[j - 1]);
                    }
                    if rec[j - 1] == x {
                        assert(key(s[0]) <= key(x));
                    } else {
                        assert(rest.contains(rec[j - 1]));
                        let q = choose|q: int| 0 <= q < rest.len() && rest[q] == rec[j - 1];
                        assert(rest[q] == s[q + 1]);
                        assert(key(s[0]) <= key(s[q + 1]));
                    }
                } else {
                    assert(r[i] == rec[i - 1] && r[j] == rec[j - 1]);
                }
            }
        }
    }
}

pub proof fn lemma_sort_by_key_ensures(s: Seq<WordId>, key: spec_fn(WordId) -> int)
    ensures
        sort_by_key(s, key).len() == s.len(),
        sort_by_key(s, key).to_multiset() =~= s.to_multiset(),
        forall|w: WordId| #[trigger] sort_by_key(s, key).contains(w) <==> s.contains(w),
        sorted_by_key(sort_by_key(s, key), key),
    decreases s.len(),
{
    broadcast use vstd::seq_lib::group_to_multiset_ensures;

    if s.len() > 0 {
        let pre = s.drop_last();
        lemma_sort_by_key_ensures(pre, key);
        lemma_insert_by_key_ensures(s.last(), sort_by_key(pre, key), key);
        assert(s =~= pre.push(s.last()));
        assert(s.to_multiset() =~= pre.to_multiset().insert(s.last()));
        let r = sort_by_key(s, key);
        assert forall|w: WordId| #[trigger] r.contains(w) <==> s.contains(w) by {
            assert(r.to_multiset().count(w) > 0 <==> r.contains(w));
            assert(s.to_multiset().count(w) > 0 <==> s.contains(w));
        }
    }
}

/// A sequence already sorted by the key is the fixed point of the sort.
pub proof fn lemma_sorted_fixed_point(s: Seq<WordId>, key: spec_fn(WordId) -> int)
    requires
        sorted_by_key(s, key),
    ensures
        sort_by_key(s, key) == s,
    decreases s.len(),
{
    if s.len() > 0 {
        let pre = s.drop_last();
        assert(sorted_by_key(pre, key)) by {
            assert(forall|i: int, j: int|
                0 <= i < j < pre.len() ==> pre[i] == s[i] && pre[j] == s[j]);
        }
        lemma_sorted_fixed_point(pre, key);
        assert forall|i: int| 0 <= i < pre.len() implies key(pre[i]) <= key(s.last()) by {
            assert(pre[i] == s[i]);
            assert(key(s[i]) <= key(s[s.len() - 1]));
        }
        lemma_insert_by_key_at(s.last(), pre, key, pre.len() as int);
        assert(pre.take(pre.len() as int) + seq![s.last()] + pre.skip(pre.len() as int) =~= s);
    }
}

/// Ranking is idempotent: re-ranking an already-ranked sequence with the same
/// key yields the same order.
pub proof fn lemma_rank_idempotent(s: Seq<WordId>, key: spec_fn(WordId) -> int)
    ensures
        sort_by_key(sort_by_key(s, key), key) == sort_by_key(s, key),
{
    lemma_sort_by_key_ensures(s, key);
    lemma_sorted_fixed_point(sort_by_key(s, key), key);
}

/// Two keys that agree on every id sort every sequence the same way.
pub proof fn lemma_sort_by_key_congruent(
    s: Seq<WordId>,
    k1: spec_fn(WordId) -> int,
    k2: spec_fn(WordId) -> int,
)
    requires
        forall|w: WordId| (#[trigger] k1(w)) == k2(w),
    ensures
        sort_by_key(s, k1) == sort_by_key(s, k2),
    decreases s.len(),
{
    if s.len() > 0 {
        lemma_sort_by_key_congruent(s.drop_last(), k1, k2);
        lemma_insert_by_key_congruent(s.last(), sort_by_key(s.drop_last(), k1), k1, k2);
    }
}

proof fn lemma_insert_by_key_congruent(
    x: WordId,
    s: Seq<WordId>,
    k1: spec_fn(WordId) -> int,
    k2: spec_fn(WordId) -> int,
)
    requires
        forall|w: WordId| (#[trigger] k1(w)) == k2(w),
    ensures
        insert_by_key(x, s, k1) == insert_by_key(x, s, k2),
    decreases s.len(),
{
    if s.len() > 0 {
        lemma_insert_by_key_congruent(x, s.drop_first(), k1, k2);
    }
}

pub(crate) fn score_word(w: WordId, acc: &DashMap<WordId, usize>, desired: &HashMap<WordId, usize>) -> (r:
    usize)
    requires
        desired_bounded(desired@),
    ensures
        r as int == score_of(w, acc_counts(*acc), desired@),
{
    match desired.get(&w) {
        Some(p) => {
            assert(*p <= usize::MAX / DESIRED_SCALE);
            *p * DESIRED_SCALE
        },
        None => match acc_get(acc, w) {
            Some(c) => c,
            None => 0,
        },
    }
}

fn find_pos(
    out: &Vec<WordId>,
    x: WordId,
    acc: &DashMap<WordId, usize>,
    desired: &HashMap<WordId, usize>,
) -> (p: usize)
    requires
        desired_bounded(desired@),
    ensures
        p <= out@.len(),
        forall|q: int|
            0 <= q < p ==> score_of(out@[q], acc_counts(*acc), desired@) <= score_of(
                x,
                acc_counts(*acc),
                desired@,
            ),
        p < out@.len() ==> score_of(x, acc_counts(*acc), desired@) < score_of(
            out@[p as int],
            acc_counts(*acc),
            desired@,
        ),
{
    let sx = score_word(x, acc, desired);
    let n = out.len();
    let mut p: usize = 0;
    while p < n
        invariant
            p <= n,
            n == out@.len(),
            sx as int == score_of(x, acc_counts(*acc), desired@),
            desired_bounded(desired@),
            forall|q: int|
                0 <= q < p ==> score_of(out@[q], acc_counts(*acc), desired@) <= score_of(
                    x,
                    acc_counts(*acc),
                    desired@,
                ),
        decreases n - p,
    {
        let sp = score_word(out[p], acc, desired);
        if sp > sx {
            return p;
        }
        p += 1;
    }
    p
}

/// Sorts candidates ascending by composite score: scaled desired-word
/// priority, or accumulator weight for a word that is not desired.
pub(crate) fn rank_by_score(
    items: &mut Vec<WordId>,
    acc: &DashMap<WordId, usize>,
    desired: &HashMap<WordId, usize>,
)
    requires
        desired_bounded(desired@),
    ensures
        final(items)@ == sort_by_key(old(items)@, score_key(acc_counts(*acc), desired@)),
{
    let ghost key = score_key(acc_counts(*acc), desired@);
    let mut out: Vec<WordId> = Vec::new();
    let n = items.len();
    for i in 0..n
        invariant
            n == items@.len(),
            items@ == old(items)@,
            out@ == sort_by_key(items@.take(i as int), key),
            key == score_key(acc_counts(*acc), desired@),
            desired_bounded(desired@),
    {
        let x = items[i];
        let p = find_pos(&out, x, acc, desired);
        let ghost prev = out@;
        proof {
            lemma_insert_by_key_at(x, prev, key, p as int);
            assert(items@.take(i + 1).drop_last() =~= items@.take(i as int));
            assert(items@.take(i + 1).last() == items@[i as int]);
        }
        out.insert(p, x);
        proof {
            assert(out@ =~= prev.take(p as int) + seq![x] + prev.skip(p as int));
        }
    }
    proof {
        assert(items@.take(n as int) =~= items@);
    }
    *items = out;
}

/// Orders candidate ids ascending by their accumulator weight alone; an id
/// absent from the accumulator counts as weight zero.
pub fn sort_by_freq(items: &mut Vec<WordId>, map: &DashMap<WordId, usize>)
    ensures
        final(items)@ == sort_by_key(old(items)@, score_key(acc_counts(*map), Map::empty())),
{
    let no_desired: HashMap<WordId, usize> = HashMap::new();
    rank_by_score(items, map, &no_desired);
}

} // verus!
