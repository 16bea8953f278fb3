use vstd::prelude::*;

use std::hash::Hash;
use std::hash::Hasher;
use unicode_segmentation::UnicodeSegmentation;

verus! {

/// The word id that the run's hash function assigns to a text: a function of
/// the characters alone, stable within and across both corpus-ingestion paths.
pub uninterp spec fn hash_of(s: Seq<char>) -> u32;

/// Relies on fnv::FnvHasher with key 0, fed through str's Hash impl and
/// truncated to 32 bits: the result depends on the characters alone.
#[verifier::external_body]
pub(crate) fn hash_str(s: &str) -> (r: u32)
    ensures
        r == hash_of(s@),
{
    let mut h = fnv::FnvHasher::with_key(0);
    s.hash(&mut h);
    h.finish() as u32
}

/// The lowercase form of a text.
pub uninterp spec fn lower_of(s: Seq<char>) -> Seq<char>;

/// Relies on str::to_lowercase: the result depends on the characters alone,
/// and an empty text stays empty.
#[verifier::external_body]
pub(crate) fn lowercase(s: &str) -> (r: String)
    ensures
        r@ == lower_of(s@),
        s@.len() == 0 ==> r@.len() == 0,
{
    s.to_lowercase()
}

/// The Unicode word tokens of a line, in order.
pub uninterp spec fn unicode_words_of(s: Seq<char>) -> Seq<Seq<char>>;

/// Relies on unicode_segmentation's UnicodeSegmentation::unicode_words: the
/// tokens depend on the characters of the line alone.
#[verifier::external_body]
pub(crate) fn unicode_words_vec(line: &str) -> (r: Vec<String>)
    ensures
        r@.map_values(|t: String| t@) == unicode_words_of(line@),
{
    line.unicode_words().map(|w| w.to_string()).collect()
}

/// Relies on str's PartialEq: two string slices are equal exactly when their
/// character sequences are equal.
#[verifier::external_body]
pub(crate) fn str_eq(a: &str, b: &str) -> (r: bool)
    ensures
        r == (a@ == b@),
{
    a == b
}

} // verus!
