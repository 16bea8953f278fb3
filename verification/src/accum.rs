use vstd::prelude::*;

use crate::wordset::WordId;
use dashmap::DashMap;

verus! {

#[verifier::external_type_specification]
#[verifier::external_body]
#[verifier::reject_recursive_types(K)]
#[verifier::reject_recursive_types(V)]
#[verifier::reject_recursive_types(S)]
pub struct ExDashMap<K, V, S>(DashMap<K, V, S>);

/// The key-to-count contents of a reduction accumulator.
pub uninterp spec fn acc_counts(m: DashMap<WordId, usize>) -> Map<WordId, usize>;

/// Holds when an accumulator's contents map is empty.
pub open spec fn counts_empty(c: Map<WordId, usize>) -> bool {
    c == Map::<WordId, usize>::empty()
}

/// Relies on dashmap::DashMap::with_capacity: a freshly created map holds no
/// entries.
#[verifier::external_body]
pub(crate) fn acc_new(capacity: usize) -> (m: DashMap<WordId, usize>)
    ensures
        counts_empty(acc_counts(m)),
{
    DashMap::with_capacity(capacity)
}

/// Relies on dashmap::DashMap::clear: afterwards the map holds no entries.
#[verifier::external_body]
pub(crate) fn acc_clear(m: &mut DashMap<WordId, usize>)
    ensures
        counts_empty(acc_counts(*final(m))),
{
    m.clear();
}

/// Relies on dashmap::DashMap::insert: the key is afterwards bound to the
/// value, and every other key keeps its binding.
#[verifier::external_body]
pub(crate) fn acc_insert(m: &mut DashMap<WordId, usize>, k: WordId, v: usize)
    ensures
        acc_counts(*final(m)) == acc_counts(*old(m)).insert(k, v),
{
    m.insert(k, v);
}

/// Relies on dashmap::DashMap::get: returns the value bound to the key, if
/// any.
#[verifier::external_body]
pub(crate) fn acc_get(m: &DashMap<WordId, usize>, k: WordId) -> (r: Option<usize>)
    ensures
        r == if acc_counts(*m).contains_key(k) {
            Some(acc_counts(*m)[k])
        } else {
            None::<usize>
        },
{
    m.get(&k).map(|v| *v)
}

} // verus!
