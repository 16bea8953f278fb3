use vstd::prelude::*;

use crate::accum::acc_new;
use crate::context::ContextHolder;
use crate::context::cands_spec;
use crate::context::holder_stepped;
use crate::context::holder_wf;
use crate::reduce::lemma_ranked_no_dup;
use crate::reduce::ranked_spec;
use crate::reduce::strip_known;
use crate::rank::desired_bounded;
use crate::wordset::WordId;
use crate::wordset::WordSet;
use dashmap::DashMap;
use std::collections::HashMap;

verus! {

/// The batch size at the start of a run.
pub const INITIAL_BATCH: usize = 26;

/// The two fatal conditions of a run.
#[derive(Clone, Copy, Debug, PartialEq, Eq, Structural)]
pub enum RunError {
    /// No sentence is one word away from resolution: the corpus is exhausted.
    NoViableCandidates,
    /// A snapshot corpus was supplied without its matching dictionary.
    MissingDictionary,
}

/// A snapshot corpus may only be used together with its dictionary; checking
/// that is a startup configuration question, fatal when it fails.
pub fn check_snapshot_config(has_snapshot: bool, has_dictionary: bool) -> (r: Result<
    (),
    RunError,
>)
    ensures
        r is Ok <==> (has_snapshot ==> has_dictionary),
        r is Err ==> r == Err::<(), RunError>(RunError::MissingDictionary),
{
    if has_snapshot && !has_dictionary {
        Err(RunError::MissingDictionary)
    } else {
        Ok(())
    }
}

/// The ids a lesson selects: the top `batch / 2` of the ranked pool, read
/// from the end (best score first).
pub open spec fn selected_spec(ranked: Seq<WordId>, batch: int) -> Seq<WordId> {
    let k = if batch / 2 <= ranked.len() {
        batch / 2
    } else {
        ranked.len() as int
    };
    ranked.skip(ranked.len() - k).reverse()
}

/// The words a lesson emits: the selected ids that have a surface text, in
/// selection order; an id without text is dropped silently.
pub open spec fn emitted_spec(sel: Seq<WordId>, dict: Map<WordId, String>) -> Seq<Seq<char>>
    decreases sel.len(),
{
    if sel.len() == 0 {
        Seq::empty()
    } else {
        let rest = emitted_spec(sel.drop_last(), dict);
        if dict.contains_key(sel.last()) {
            rest.push(dict[sel.last()]@)
        } else {
            rest
        }
    }
}

proof fn lemma_emitted_len(sel: Seq<WordId>, dict: Map<WordId, String>)
    ensures
        emitted_spec(sel, dict).len() <= sel.len(),
    decreases sel.len(),
{
    if sel.len() > 0 {
        lemma_emitted_len(sel.drop_last(), dict);
    }
}

/// The lazy, unbounded stream of lessons: the corpus, the id-to-text mapping,
/// the desired-word priorities, the last selected batch, and the growing
/// batch size.
pub struct LessonStream {
    pub holder: ContextHolder,
    pub id_to_word: HashMap<WordId, String>,
    pub desired: HashMap<WordId, usize>,
    pub current: WordSet,
    pub batch: usize,
    pub acc: DashMap<WordId, usize>,
}

impl LessonStream {
    pub open spec fn wf(&self) -> bool {
        &&& holder_wf(self.holder@)
        &&& desired_bounded(self.desired@)
    }

    /// One driving-loop iteration: reduce the corpus by the previous batch,
    /// rank the resulting candidates, select the top half of the batch size,
    /// emit the words that have text, and grow the batch size by one per
    /// emitted word. An empty candidate pool is the fatal exhaustion case.
    pub fn next_lesson(&mut self) -> (r: Result<Vec<String>, RunError>)
        requires
            old(self).wf(),
            old(self).batch <= usize::MAX / 2,
        ensures
            final(self).wf(),
            final(self).id_to_word@ == old(self).id_to_word@,
            final(self).desired@ == old(self).desired@,
            holder_stepped(old(self).holder@, final(self).holder@, old(self).current@),
            match r {
                Ok(words) => {
                    let ranked = ranked_spec(
                        old(self).holder@,
                        old(self).current@,
                        old(self).desired@,
                    );
                    let sel = selected_spec(ranked, old(self).batch as int);
                    &&& ranked.len() > 0
                    &&& final(self).current@ == sel
                    &&& words@.map_values(|s: String| s@) == emitted_spec(
                        sel,
                        old(self).id_to_word@,
                    )
                    &&& final(self).batch == old(self).batch + emitted_spec(
                        sel,
                        old(self).id_to_word@,
                    ).len()
                },
                Err(e) => {
                    &&& e == RunError::NoViableCandidates
                    &&& cands_spec(old(self).holder@, old(self).current@).len() == 0
                    &&& final(self).current@ == old(self).current@
                    &&& final(self).batch == old(self).batch
                },
            },
    {
        let ghost pre_holder = self.holder@;
        let ghost ks = self.current@;
        let res = strip_known(&mut self.holder, &self.current, &mut self.acc, &self.desired);
        match res {
            Err(e) => Err(e),
            Ok(ranked) => {
                let ghost rseq = ranked@;
                proof {
                    lemma_ranked_no_dup(pre_holder, ks, self.desired@);
                }
                let rlen = ranked.len();
                let half = self.batch / 2;
                let k = if half <= rlen {
                    half
                } else {
                    rlen
                };
                let ghost target = selected_spec(rseq, self.batch as int);
                proof {
                    assert(target.len() == k);
                    assert forall|j: int| 0 <= j < k implies target[j] == rseq[rlen - 1 - j] by {
                        assert(target[j] == rseq.skip(rlen - k)[k - 1 - j]);
                    }
                    assert(target.no_duplicates()) by {
                        assert forall|a: int, b: int| 0 <= a < b < k implies target[a] != target[b] by {
                            assert(target[a] == rseq[rlen - 1 - a]);
                            assert(target[b] == rseq[rlen - 1 - b]);
                        }
                    }
                }
                let mut sel = WordSet::new();
                for j in 0..k
                    invariant
                        k <= rlen,
                        rlen == rseq.len(),
                        rseq == ranked@,
                        target.len() == k,
                        target.no_duplicates(),
                        forall|q: int| 0 <= q < k ==> target[q] == rseq[rlen - 1 - q],
                        sel@ == target.take(j as int),
                        sel.wf(),
                {
                    let id = ranked[rlen - 1 - j];
                    proof {
                        assert(target[j as int] == id);
                        assert(!target.take(j as int).contains(id)) by {
                            if target.take(j as int).contains(id) {
                                let q = choose|q: int|
                                    0 <= q < j && target.take(j as int)[q] == id;
                                assert(target[q] == target[j as int]);
                            }
                        }
                        assert(target.take(j + 1) =~= target.take(j as int).push(id));
                    }
                    sel.insert(id);
                }
                proof {
                    assert(target.take(k as int) =~= target);
                }
                let mut words: Vec<String> = Vec::new();
                for j in 0..k
                    invariant
                        k == sel@.len(),
                        sel@ == target,
                        target.len() == k,
                        words@.map_values(|s: String| s@) == emitted_spec(
                            target.take(j as int),
                            self.id_to_word@,
                        ),
                {
                    proof {
                        assert(target.take(j + 1).drop_last() =~= target.take(j as int));
                        assert(target.take(j + 1).last() == target[j as int]);
                    }
                    let id = sel.get(j);
                    let ghost pre_words = words@;
                    match self.id_to_word.get(&id) {
                        Some(word) => {
                            words.push(word.as_str().to_owned());
                            proof {
                                assert(words@.map_values(|s: String| s@) =~= pre_words.map_values(
                                    |s: String| s@,
                                ).push(self.id_to_word@[id]@));
                            }
                        },
                        None => {},
                    }
                }
                proof {
                    assert(target.take(k as int) =~= target);
                    lemma_emitted_len(target, self.id_to_word@);
                    assert(words@.map_values(|s: String| s@).len() == words@.len());
                }
                self.batch = self.batch + words.len();
                self.current = sel;
                Ok(words)
            },
        }
    }
}

/// Wraps a corpus, an id-to-text mapping and a desired-word priority map into
/// the unbounded stream of lessons that the driving loop consumes.
pub fn yield_concepts(
    holder: ContextHolder,
    id_to_word: HashMap<WordId, String>,
    desired_words: HashMap<WordId, usize>,
) -> (s: LessonStream)
    ensures
        s.holder@ == holder@,
        s.id_to_word@ == id_to_word@,
        s.desired@ == desired_words@,
        s.current@ == Seq::<WordId>::empty(),
        s.batch == INITIAL_BATCH,
{
    LessonStream {
        holder,
        id_to_word,
        desired: desired_words,
        current: WordSet::new(),
        batch: INITIAL_BATCH,
        acc: acc_new(500000),
    }
}

} // verus!
