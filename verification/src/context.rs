use vstd::prelude::*;

use crate::wordset::WordId;
use crate::wordset::WordSet;
use crate::wordset::lemma_push_contains;
use crate::wordset::lemma_push_no_dup;
use crate::wordset::seq_minus;

verus! {

/// One sentence: the set of word ids still unknown for it, the unknown count
/// at creation time (a weight), and whether it is fully resolved.
pub struct Context {
    pub concepts: WordSet,
    pub all_concepts: usize,
    pub skip: bool,
}

impl Context {
    pub open spec fn wf(&self) -> bool {
        self.concepts.wf()
    }

    /// Wraps an unknown-word set into a fresh, unresolved sentence record
    /// whose weight is the size of the set at creation time.
    pub fn from_set(concepts: WordSet) -> (c: Context)
        ensures
            c.concepts@ == concepts@,
            c.all_concepts == concepts@.len(),
            c.skip == false,
    {
        let all = concepts.len();
        Context { all_concepts: all, concepts, skip: false }
    }
}

/// The ordered collection of all sentences of a run.
pub struct ContextHolder {
    pub ctxs: Vec<Context>,
}

impl View for ContextHolder {
    type V = Seq<Context>;

    open spec fn view(&self) -> Seq<Context> {
        self.ctxs@
    }
}

impl ContextHolder {
    pub fn new() -> (h: ContextHolder)
        ensures
            h@ == Seq::<Context>::empty(),
    {
        ContextHolder { ctxs: Vec::new() }
    }

    pub fn push(&mut self, c: Context)
        ensures
            final(self)@ == old(self)@.push(c),
    {
        self.ctxs.push(c);
    }

    pub fn len(&self) -> (n: usize)
        ensures
            n == self@.len(),
    {
        self.ctxs.len()
    }
}

pub open spec fn holder_wf(ctxs: Seq<Context>) -> bool {
    forall|i: int| 0 <= i < ctxs.len() ==> (#[trigger] ctxs[i]).wf()
}

/// How one reduction pass changes one sentence: every known id leaves its
/// unknown set, and a sentence whose set empties is flagged resolved for good.
pub open spec fn ctx_stepped(pre: Context, post: Context, ks: Seq<WordId>) -> bool {
    if pre.skip {
        post == pre
    } else {
        let rest = seq_minus(pre.concepts@, ks);
        &&& post.concepts@ == rest
        &&& post.all_concepts == pre.all_concepts
        &&& post.skip == (rest.len() == 0)
    }
}

pub open spec fn holder_stepped(pre: Seq<Context>, post: Seq<Context>, ks: Seq<WordId>) -> bool {
    &&& post.len() == pre.len()
    &&& forall|i: int| 0 <= i < pre.len() ==> ctx_stepped(pre[i], #[trigger] post[i], ks)
}

/// The one-word-away candidate a sentence contributes to a pass, if any: the
/// single id left unknown after the known ids are removed.
pub open spec fn cand_of(c: Context, ks: Seq<WordId>) -> Option<WordId> {
    if c.skip {
        None
    } else {
        let rest = seq_minus(c.concepts@, ks);
        if rest.len() == 1 {
            Some(rest[0])
        } else {
            None
        }
    }
}

/// The deduplicated candidate pool of a pass, in first-contribution order.
pub open spec fn cands_spec(ctxs: Seq<Context>, ks: Seq<WordId>) -> Seq<WordId>
    decreases ctxs.len(),
{
    if ctxs.len() == 0 {
        Seq::empty()
    } else {
        let prev = cands_spec(ctxs.drop_last(), ks);
        match cand_of(ctxs.last(), ks) {
            Some(w) => if prev.contains(w) {
                prev
            } else {
                prev.push(w)
            },
            None => prev,
        }
    }
}

/// 1 when the pass leaves the sentence with exactly two unknown ids, `w` one
/// of them; the co-occurrence signal among near-resolved sentences.
pub open spec fn pair_contrib(c: Context, ks: Seq<WordId>, w: WordId) -> nat {
    if c.skip {
        0
    } else {
        let rest = seq_minus(c.concepts@, ks);
        if rest.len() == 2 && rest.contains(w) {
            1
        } else {
            0
        }
    }
}

/// How many sentences of the pass leave `w` in a two-id unknown set.
pub open spec fn pair_count(ctxs: Seq<Context>, ks: Seq<WordId>, w: WordId) -> nat
    decreases ctxs.len(),
{
    if ctxs.len() == 0 {
        0
    } else {
        pair_count(ctxs.drop_last(), ks, w) + pair_contrib(ctxs.last(), ks, w)
    }
}

pub proof fn lemma_pair_count_le(ctxs: Seq<Context>, ks: Seq<WordId>, w: WordId)
    ensures
        pair_count(ctxs, ks, w) <= ctxs.len(),
    decreases ctxs.len(),
{
    if ctxs.len() > 0 {
        lemma_pair_count_le(ctxs.drop_last(), ks, w);
    }
}

pub proof fn lemma_cands_no_dup(ctxs: Seq<Context>, ks: Seq<WordId>)
    ensures
        cands_spec(ctxs, ks).no_duplicates(),
    decreases ctxs.len(),
{
    if ctxs.len() > 0 {
        lemma_cands_no_dup(ctxs.drop_last(), ks);
        let prev = cands_spec(ctxs.drop_last(), ks);
        match cand_of(ctxs.last(), ks) {
            Some(w) => {
                if !prev.contains(w) {
                    lemma_push_no_dup(prev, w);
                }
            },
            None => {},
        }
    }
}

/// Every id of the candidate pool is the candidate of some sentence.
pub proof fn lemma_cands_from_ctxs(ctxs: Seq<Context>, ks: Seq<WordId>)
    ensures
        forall|w: WordId| #[trigger] cands_spec(ctxs, ks).contains(w) ==> exists|i: int|
            0 <= i < ctxs.len() && cand_of(ctxs[i], ks) == Some(w),
    decreases ctxs.len(),
{
    if ctxs.len() > 0 {
        let pre = ctxs.drop_last();
        lemma_cands_from_ctxs(pre, ks);
        let prev = cands_spec(pre, ks);
        assert forall|w: WordId| #[trigger] cands_spec(ctxs, ks).contains(w) implies exists|i: int|
            0 <= i < ctxs.len() && cand_of(ctxs[i], ks) == Some(w) by {
            match cand_of(ctxs.last(), ks) {
                Some(x) => {
                    if prev.contains(x) {
                        let i = choose|i: int| 0 <= i < pre.len() && cand_of(pre[i], ks) == Some(w);
                        assert(cand_of(ctxs[i], ks) == Some(w));
                    } else {
                        lemma_push_contains(prev, x, w);
                        if w == x {
                            assert(cand_of(ctxs[ctxs.len() - 1], ks) == Some(w));
                        } else {
                            let i = choose|i: int|
                                0 <= i < pre.len() && cand_of(pre[i], ks) == Some(w);
                            assert(cand_of(ctxs[i], ks) == Some(w));
                        }
                    }
                },
                None => {
                    let i = choose|i: int| 0 <= i < pre.len() && cand_of(pre[i], ks) == Some(w);
                    assert(cand_of(ctxs[i], ks) == Some(w));
                },
            }
        }
    }
}

} // verus!
