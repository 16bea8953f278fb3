use vstd::prelude::*;

use crate::context::Context;
use crate::externals::hash_of;
use crate::externals::hash_str;
use crate::externals::lower_of;
use crate::externals::lowercase;
use crate::externals::str_eq;
use crate::externals::unicode_words_of;
use crate::externals::unicode_words_vec;
use crate::rank::DESIRED_SCALE;
use crate::rank::desired_bounded;
use crate::wordset::WordId;
use crate::wordset::WordSet;
use crate::wordset::lemma_push_contains;
use std::collections::HashMap;

verus! {

/// A token survives ingestion when its lowercase form is nonempty and is not
/// among the already-known words.
pub open spec fn keeps(tok: Seq<char>, known: Seq<Seq<char>>) -> bool {
    lower_of(tok).len() > 0 && !known.contains(lower_of(tok))
}

/// The distinct ids of a line's surviving tokens, in first-occurrence order.
pub open spec fn line_ids(toks: Seq<Seq<char>>, known: Seq<Seq<char>>) -> Seq<WordId>
    decreases toks.len(),
{
    if toks.len() == 0 {
        Seq::empty()
    } else {
        let prev = line_ids(toks.drop_last(), known);
        let t = toks.last();
        if keeps(t, known) && !prev.contains(hash_of(lower_of(t))) {
            prev.push(hash_of(lower_of(t)))
        } else {
            prev
        }
    }
}

fn contains_string(v: &Vec<String>, s: &str) -> (r: bool)
    ensures
        r == v@.map_values(|t: String| t@).contains(s@),
{
    let n = v.len();
    let mut i: usize = 0;
    while i < n
        invariant
            i <= n,
            n == v@.len(),
            forall|j: int| 0 <= j < i ==> (#[trigger] v@[j])@ != s@,
        decreases n - i,
    {
        if str_eq(v[i].as_str(), s) {
            assert(v@.map_values(|t: String| t@)[i as int] == s@);
            return true;
        }
        i += 1;
    }
    proof {
        let ghost mv = v@.map_values(|t: String| t@);
        if mv.contains(s@) {
            let jj = choose|jj: int| 0 <= jj < mv.len() && mv[jj] == s@;
            assert(v@[jj]@ == s@);
        }
    }
    false
}

/// Builds one sentence's record from a line of text: the line's Unicode word
/// tokens are lowercased; tokens that are empty or already known are
/// discarded; the rest are hashed to ids, and the first time an id is seen
/// its surface text is recorded in the id-to-text mapping.
pub fn context_from_line(
    line: &str,
    already_known: &Vec<String>,
    mappings: &mut HashMap<WordId, String>,
) -> (c: Context)
    ensures
        c.concepts@ == line_ids(
            unicode_words_of(line@),
            already_known@.map_values(|t: String| t@),
        ),
        c.all_concepts == c.concepts@.len(),
        c.skip == false,
        c.wf(),
        forall|k: WordId| #[trigger]
            old(mappings)@.contains_key(k) ==> final(mappings)@.contains_key(k)
                && final(mappings)@[k] == old(mappings)@[k],
        forall|k: WordId| #[trigger]
            final(mappings)@.contains_key(k) <==> old(mappings)@.contains_key(k) || line_ids(
                unicode_words_of(line@),
                already_known@.map_values(|t: String| t@),
            ).contains(k),
        forall|k: WordId| #[trigger]
            final(mappings)@.contains_key(k) && !old(mappings)@.contains_key(k) ==> exists|q: int|
                0 <= q < unicode_words_of(line@).len() && keeps(
                    #[trigger] unicode_words_of(line@)[q],
                    already_known@.map_values(|t: String| t@),
                ) && hash_of(lower_of(unicode_words_of(line@)[q])) == k && final(mappings)@[k]@
                == lower_of(unicode_words_of(line@)[q]),
{
    let ghost kv = already_known@.map_values(|t: String| t@);
    let ghost toksv = unicode_words_of(line@);
    let ghost m0 = mappings@;
    let toks = unicode_words_vec(line);
    proof {
        assert(toks@.map_values(|t: String| t@) == toksv);
    }
    let n = toks.len();
    let mut ids = WordSet::new();
    for i in 0..n
        invariant
            n == toks@.len(),
            toks@.map_values(|t: String| t@) == toksv,
            n == toksv.len(),
            kv == already_known@.map_values(|t: String| t@),
            ids@ == line_ids(toksv.take(i as int), kv),
            ids.wf(),
            forall|k: WordId| #[trigger]
                m0.contains_key(k) ==> mappings@.contains_key(k) && mappings@[k] == m0[k],
            forall|k: WordId| #[trigger]
                mappings@.contains_key(k) <==> m0.contains_key(k) || line_ids(
                    toksv.take(i as int),
                    kv,
                ).contains(k),
            forall|k: WordId| #[trigger]
                mappings@.contains_key(k) && !m0.contains_key(k) ==> exists|q: int|
                    0 <= q < toksv.len() && keeps(#[trigger] toksv[q], kv) && hash_of(
                        lower_of(toksv[q]),
                    ) == k && mappings@[k]@ == lower_of(toksv[q]),
    {
        proof {
            assert(toksv.take(i + 1).drop_last() =~= toksv.take(i as int));
            assert(toksv.take(i + 1).last() == toksv[i as int]);
            assert(toksv[i as int] == toks@[i as int]@);
        }
        let t = &toks[i];
        let w = lowercase(t.as_str());
        proof {
            assert(w@ == lower_of(toksv[i as int]));
        }
        if !w.as_str().is_empty() {
            if !contains_string(already_known, w.as_str()) {
                assert(keeps(toksv[i as int], kv));
                let id = hash_str(w.as_str());
                let ghost prev = line_ids(toksv.take(i as int), kv);
                if !mappings.contains_key(&id) {
                    mappings.insert(id, w);
                    proof {
                        assert(mappings@[id]@ == lower_of(toksv[i as int]));
                    }
                }
                ids.insert(id);
                proof {
                    lemma_push_contains(prev, id, id);
                    assert forall|k: WordId| #[trigger]
                        line_ids(toksv.take(i + 1), kv).contains(k) <==> (prev.contains(k) || k
                            == id) by {
                        if !prev.contains(id) {
                            lemma_push_contains(prev, id, k);
                        }
                    }
                }
            } else {
                proof {
                    assert(!keeps(toksv[i as int], kv));
                    assert(line_ids(toksv.take(i + 1), kv) == line_ids(toksv.take(i as int), kv));
                }
            }
        } else {
            proof {
                assert(!keeps(toksv[i as int], kv));
                assert(line_ids(toksv.take(i + 1), kv) == line_ids(toksv.take(i as int), kv));
            }
        }
    }
    proof {
        assert(toksv.take(n as int) =~= toksv);
    }
    Context::from_set(ids)
}

/// How a desired-word list becomes a priority map: the list is walked from
/// its end, the last word receiving rank 0 and ranks growing toward the
/// front, so that on a hash collision the earlier word's rank wins.
pub open spec fn desired_map_of(ws: Seq<Seq<char>>) -> Map<WordId, usize>
    decreases ws.len(),
{
    if ws.len() == 0 {
        Map::empty()
    } else {
        desired_map_of(ws.drop_first()).insert(hash_of(ws[0]), (ws.len() - 1) as usize)
    }
}

/// Builds the desired-word priority map from the user's ordered word list.
pub fn build_desired_map(words: &Vec<String>) -> (m: HashMap<WordId, usize>)
    requires
        words@.len() <= usize::MAX / DESIRED_SCALE,
    ensures
        m@ == desired_map_of(words@.map_values(|t: String| t@)),
        desired_bounded(m@),
{
    let ghost ws = words@.map_values(|t: String| t@);
    let mut m: HashMap<WordId, usize> = HashMap::new();
    let n = words.len();
    for i in 0..n
        invariant
            n == words@.len(),
            ws == words@.map_values(|t: String| t@),
            n == ws.len(),
            n <= usize::MAX / DESIRED_SCALE,
            m@ == desired_map_of(ws.skip(n - i)),
            forall|k: WordId| #[trigger] m@.contains_key(k) ==> m@[k] < i,
    {
        let j = n - 1 - i;
        let t = &words[j];
        proof {
            assert(ws.skip(n - i - 1).drop_first() =~= ws.skip(n - i));
            assert(ws.skip(n - i - 1)[0] == ws[j as int]);
            assert(ws[j as int] == words@[j as int]@);
            assert(ws.skip(n - i - 1).len() == i + 1);
        }
        let id = hash_str(t.as_str());
        m.insert(id, i);
    }
    proof {
        assert(ws.skip(0) =~= ws);
    }
    m
}

} // verus!
