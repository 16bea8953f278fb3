use vstd::prelude::*;

use crate::context::Context;
use crate::context::cand_of;
use crate::context::cands_spec;
use crate::context::holder_stepped;
use crate::context::lemma_cands_from_ctxs;
use crate::context::pair_count;
use crate::lessons::selected_spec;
use crate::rank::DESIRED_SCALE;
use crate::rank::lemma_sort_by_key_ensures;
use crate::rank::sorted_by_key;
use crate::reduce::lemma_ranked_no_dup;
use crate::reduce::ranked_spec;
use crate::reduce::step_key;
use crate::wordset::WordId;
use crate::wordset::lemma_seq_minus_props;

verus! {

/// A reduction pass never grows a sentence's unknown set: after the pass,
/// every sentence's set is at most as large as before.
pub proof fn lemma_reduction_monotone(pre: Seq<Context>, post: Seq<Context>, ks: Seq<WordId>)
    requires
        holder_stepped(pre, post, ks),
    ensures
        post.len() == pre.len(),
        forall|i: int|
            0 <= i < pre.len() ==> (#[trigger] post[i]).concepts@.len() <= pre[i].concepts@.len(),
{
    assert forall|i: int|
        0 <= i < pre.len() implies (#[trigger] post[i]).concepts@.len()
        <= pre[i].concepts@.len() by {
        if !pre[i].skip {
            lemma_seq_minus_props(pre[i].concepts@, ks);
        }
    }
}

/// Once a sentence is flagged resolved it stays resolved, untouched by every
/// later pass, and a resolved sentence never contributes a candidate.
pub proof fn lemma_skip_permanent(pre: Seq<Context>, post: Seq<Context>, ks: Seq<WordId>)
    requires
        holder_stepped(pre, post, ks),
    ensures
        forall|i: int| 0 <= i < pre.len() && pre[i].skip ==> #[trigger] post[i] == pre[i],
        forall|i: int| 0 <= i < pre.len() && pre[i].skip ==> (#[trigger] post[i]).skip,
        forall|c: Context, ks2: Seq<WordId>| c.skip ==> #[trigger] cand_of(c, ks2) is None,
{
}

/// Among the ranked candidates of a pass, a desired word with rank at least
/// one stands after every candidate that is not desired and whose
/// co-occurrence count stays below the scale factor; the selection reads the
/// ranking from its end, so such desired words are taken first.
pub proof fn lemma_desired_ranked_after(
    ctxs: Seq<Context>,
    ks: Seq<WordId>,
    desired: Map<WordId, usize>,
    i: int,
    j: int,
)
    requires
        0 <= i < ranked_spec(ctxs, ks, desired).len(),
        0 <= j < ranked_spec(ctxs, ks, desired).len(),
        desired.contains_key(ranked_spec(ctxs, ks, desired)[j]),
        desired[ranked_spec(ctxs, ks, desired)[j]] >= 1,
        !desired.contains_key(ranked_spec(ctxs, ks, desired)[i]),
        pair_count(ctxs, ks, ranked_spec(ctxs, ks, desired)[i]) < DESIRED_SCALE,
    ensures
        i < j,
{
    let r = ranked_spec(ctxs, ks, desired);
    let key = step_key(ctxs, ks, desired);
    lemma_sort_by_key_ensures(cands_spec(ctxs, ks), key);
    assert(sorted_by_key(r, key));
    assert(key(r[j]) >= DESIRED_SCALE as int);
    assert(key(r[i]) < DESIRED_SCALE as int);
    if j < i {
        assert(key(r[j]) <= key(r[i]));
    }
    if i == j {
        assert(false);
    }
}

/// The selection prefers desired words: whenever a desired candidate with
/// rank at least one is left out of a lesson's selection, no candidate
/// outside the desired map with a co-occurrence count below the scale factor
/// was selected either — so with enough room in the batch, every such desired
/// candidate is taken before any ordinary one.
pub proof fn lemma_desired_selected_first(
    ctxs: Seq<Context>,
    ks: Seq<WordId>,
    desired: Map<WordId, usize>,
    batch: int,
    w: WordId,
    u: WordId,
)
    requires
        batch >= 0,
        ranked_spec(ctxs, ks, desired).contains(w),
        desired.contains_key(w),
        desired[w] >= 1,
        !selected_spec(ranked_spec(ctxs, ks, desired), batch).contains(w),
        !desired.contains_key(u),
        pair_count(ctxs, ks, u) < DESIRED_SCALE,
    ensures
        !selected_spec(ranked_spec(ctxs, ks, desired), batch).contains(u),
{
    let r = ranked_spec(ctxs, ks, desired);
    let sel = selected_spec(r, batch);
    let len = r.len() as int;
    let k = if batch / 2 <= len {
        batch / 2
    } else {
        len
    };
    assert(sel.len() == k);
    assert forall|j: int| 0 <= j < k implies sel[j] == r[len - 1 - j] by {
        assert(sel[j] == r.skip(len - k)[k - 1 - j]);
    }
    let jw = choose|jw: int| 0 <= jw < len && r[jw] == w;
    if jw >= len - k {
        assert(sel[len - 1 - jw] == w);
        assert(sel.contains(w)) by {
            assert(sel[len - 1 - jw] == w);
        }
        assert(false);
    }
    if sel.contains(u) {
        let j = choose|j: int| 0 <= j < sel.len() && sel[j] == u;
        let iu = len - 1 - j;
        assert(r[iu] == u);
        lemma_desired_ranked_after(ctxs, ks, desired, iu, jw);
    }
}

/// Desire never manufactures a candidate: every ranked id is the
/// one-word-away candidate of some sentence, whatever the desired map holds.
pub proof fn lemma_no_manufactured_candidates(
    ctxs: Seq<Context>,
    ks: Seq<WordId>,
    desired: Map<WordId, usize>,
)
    ensures
        forall|w: WordId| #[trigger] ranked_spec(ctxs, ks, desired).contains(w) ==> exists|i: int|
            0 <= i < ctxs.len() && cand_of(ctxs[i], ks) == Some(w),
{
    lemma_sort_by_key_ensures(cands_spec(ctxs, ks), step_key(ctxs, ks, desired));
    lemma_cands_from_ctxs(ctxs, ks);
}

} // verus!
