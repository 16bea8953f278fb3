use vstd::prelude::*;

verus! {

/// The fixed-width integer identity of a word.
pub type WordId = u32;

/// Removes from `s` every element that occurs in `ks`, keeping the order of
/// the remaining elements.
pub open spec fn seq_minus(s: Seq<WordId>, ks: Seq<WordId>) -> Seq<WordId>
    decreases s.len(),
{
    if s.len() == 0 {
        Seq::empty()
    } else {
        let rest = seq_minus(s.drop_last(), ks);
        if ks.contains(s.last()) {
            rest
        } else {
            rest.push(s.last())
        }
    }
}

pub proof fn lemma_push_contains(s: Seq<WordId>, x: WordId, w: WordId)
    ensures
        s.push(x).contains(w) <==> (s.contains(w) || w == x),
{
    if s.push(x).contains(w) {
        let i = choose|i: int| 0 <= i < s.push(x).len() && s.push(x)[i] == w;
        if i < s.len() {
            assert(s[i] == w);
        }
    }
    if s.contains(w) {
        let i = choose|i: int| 0 <= i < s.len() && s[i] == w;
        assert(s.push(x)[i] == w);
    }
    if w == x {
        assert(s.push(x)[s.len() as int] == w);
    }
}

pub proof fn lemma_push_no_dup(s: Seq<WordId>, x: WordId)
    requires
        s.no_duplicates(),
        !s.contains(x),
    ensures
        s.push(x).no_duplicates(),
{
    let r = s.push(x);
    assert forall|i: int, j: int| 0 <= i < j < r.len() implies r[i] != r[j] by {
        if j < s.len() {
            assert(r[i] == s[i] && r[j] == s[j]);
        } else {
            assert(r[j] == x);
            assert(r[i] == s[i]);
            assert(s.contains(s[i])) by {
                assert(s[i] == s[i]);
            }
        }
    }
}

pub proof fn lemma_seq_minus_props(s: Seq<WordId>, ks: Seq<WordId>)
    ensures
        seq_minus(s, ks).len() <= s.len(),
        forall|w: WordId|
            #[trigger] seq_minus(s, ks).contains(w) <==> (s.contains(w) && !ks.contains(w)),
        s.no_duplicates() ==> seq_minus(s, ks).no_duplicates(),
    decreases s.len(),
{
    if s.len() == 0 {
        assert forall|w: WordId| !(#[trigger] seq_minus(s, ks).contains(w)) by {
            assert(seq_minus(s, ks).len() == 0);
        }
    } else {
        let pre = s.drop_last();
        let x = s.last();
        lemma_seq_minus_props(pre, ks);
        let prev = seq_minus(pre, ks);
        assert(s.contains(x)) by {
            assert(s[s.len() - 1] == x);
        }
        assert forall|w: WordId| #[trigger] s.contains(w) <==> (pre.contains(w) || w == x) by {
            if s.contains(w) {
                let i = choose|i: int| 0 <= i < s.len() && s[i] == w;
                if i < s.len() - 1 {
                    assert(pre[i] == w);
                }
            }
            if pre.contains(w) {
                let i = choose|i: int| 0 <= i < pre.len() && pre[i] == w;
                assert(s[i] == w);
            }
        }
        if ks.contains(x) {
            assert(seq_minus(s, ks) == prev);
        } else {
            assert(seq_minus(s, ks) == prev.push(x));
            assert forall|w: WordId|
                #[trigger] prev.push(x).contains(w) <==> (prev.contains(w) || w == x) by {
                lemma_push_contains(prev, x, w);
            }
            if s.no_duplicates() {
                assert(!pre.contains(x)) by {
                    if pre.contains(x) {
                        let i = choose|i: int| 0 <= i < pre.len() && pre[i] == x;
                        assert(s[i] == s[s.len() - 1]);
                    }
                }
                assert(!prev.contains(x));
                assert(pre.no_duplicates()) by {
                    assert(forall|i: int, j: int|
                        0 <= i < j < pre.len() ==> s[i] == pre[i] && s[j] == pre[j]);
                }
                assert(prev.push(x).no_duplicates()) by {
                    let r = prev.push(x);
                    assert forall|i: int, j: int| 0 <= i < j < r.len() implies r[i] != r[j] by {
                        if j < prev.len() {
                            assert(r[i] == prev[i] && r[j] == prev[j]);
                        } else {
                            assert(r[j] == x);
                            assert(prev.contains(prev[i])) by {
                                assert(prev[i] == prev[i]);
                            }
                        }
                    }
                }
            }
        }
    }
}

/// An ordered collection of distinct word ids: the unknown-word set of a
/// sentence, or a batch of newly selected words.
pub struct WordSet {
    ids: Vec<WordId>,
}

impl View for WordSet {
    type V = Seq<WordId>;

    closed spec fn view(&self) -> Seq<WordId> {
        self.ids@
    }
}

impl WordSet {
    /// A well-formed set holds no id twice.
    pub open spec fn wf(&self) -> bool {
        self@.no_duplicates()
    }

    pub fn new() -> (r: WordSet)
        ensures
            r@ == Seq::<WordId>::empty(),
            r.wf(),
    {
        WordSet { ids: Vec::new() }
    }

    pub fn len(&self) -> (n: usize)
        ensures
            n == self@.len(),
    {
        self.ids.len()
    }

    pub fn get(&self, i: usize) -> (w: WordId)
        requires
            i < self@.len(),
        ensures
            w == self@[i as int],
    {
        self.ids[i]
    }

    pub fn contains(&self, w: WordId) -> (r: bool)
        ensures
            r == self@.contains(w),
    {
        let n = self.ids.len();
        let mut i: usize = 0;
        while i < n
            invariant
                i <= n,
                n == self.ids@.len(),
                forall|j: int| 0 <= j < i ==> self.ids@[j] != w,
            decreases n - i,
        {
            if self.ids[i] == w {
                assert(self.ids@.contains(w)) by {
                    assert(self.ids@[i as int] == w);
                }
                return true;
            }
            i += 1;
        }
        false
    }

    /// Adds an id unless it is already present.
    pub fn insert(&mut self, w: WordId)
        ensures
            final(self)@ == if old(self)@.contains(w) {
                old(self)@
            } else {
                old(self)@.push(w)
            },
            old(self).wf() ==> final(self).wf(),
    {
        if !self.contains(w) {
            proof {
                let s = self.ids@;
                if s.no_duplicates() {
                    assert forall|i: int, j: int|
                        0 <= i < j < s.push(w).len() implies s.push(w)[i] != s.push(w)[j] by {
                        if j < s.len() {
                            assert(s.push(w)[i] == s[i] && s.push(w)[j] == s[j]);
                        } else {
                            assert(s.push(w)[j] == w);
                            assert(s.push(w)[i] == s[i]);
                            assert(s.contains(s[i])) by {
                                assert(s[i] == s[i]);
                            }
                        }
                    }
                }
            }
            self.ids.push(w);
        }
    }

    /// Returns the set of ids of `self` that do not occur in `ks`, in order.
    pub fn minus(&self, ks: &WordSet) -> (r: WordSet)
        ensures
            r@ == seq_minus(self@, ks@),
            self.wf() ==> r.wf(),
    {
        let mut out: Vec<WordId> = Vec::new();
        let n = self.ids.len();
        for i in 0..n
            invariant
                n == self.ids@.len(),
                out@ == seq_minus(self.ids@.take(i as int), ks@),
        {
            proof {
                assert(self.ids@.take(i + 1).drop_last() =~= self.ids@.take(i as int));
                assert(self.ids@.take(i + 1).last() == self.ids@[i as int]);
            }
            let w = self.ids[i];
            if !ks.contains(w) {
                out.push(w);
            }
        }
        proof {
            assert(self.ids@.take(n as int) =~= self.ids@);
            lemma_seq_minus_props(self.ids@, ks@);
        }
        WordSet { ids: out }
    }

    /// The distinct ids of `v`, keeping the first occurrence of each.
    pub fn from_vec(v: &Vec<WordId>) -> (r: WordSet)
        ensures
            r@ == seq_dedup(v@),
            r.wf(),
    {
        let mut out = WordSet::new();
        let n = v.len();
        for i in 0..n
            invariant
                n == v@.len(),
                out@ == seq_dedup(v@.take(i as int)),
                out.wf(),
        {
            proof {
                assert(v@.take(i + 1).drop_last() =~= v@.take(i as int));
                assert(v@.take(i + 1).last() == v@[i as int]);
            }
            out.insert(v[i]);
        }
        proof {
            assert(v@.take(n as int) =~= v@);
        }
        out
    }
}

pub(crate) fn vec_contains(v: &Vec<WordId>, w: WordId) -> (r: bool)
    ensures
        r == v@.contains(w),
{
    let n = v.len();
    let mut i: usize = 0;
    while i < n
        invariant
            i <= n,
            n == v@.len(),
            forall|j: int| 0 <= j < i ==> v@[j] != w,
        decreases n - i,
    {
        if v[i] == w {
            assert(v@.contains(w)) by {
                assert(v@[i as int] == w);
            }
            return true;
        }
        i += 1;
    }
    false
}

/// The subsequence of first occurrences of the elements of `s`.
pub open spec fn seq_dedup(s: Seq<WordId>) -> Seq<WordId>
    decreases s.len(),
{
    if s.len() == 0 {
        Seq::empty()
    } else {
        let rest = seq_dedup(s.drop_last());
        if rest.contains(s.last()) {
            rest
        } else {
            rest.push(s.last())
        }
    }
}

} // verus!
