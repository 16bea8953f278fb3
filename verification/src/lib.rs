//! Computes a learning order for a vocabulary: given a corpus of sentences and
//! a seed set of already-known words, it repeatedly determines which unknown
//! words would each make some sentence fully resolvable, ranks those
//! candidates, and produces successive batches of words to learn next.

pub mod accum;
pub mod context;
pub mod externals;
pub mod ingest;
pub mod laws;
pub mod lessons;
pub mod rank;
pub mod reduce;
pub mod wordset;
