//! An in-memory Boolean search engine over short text documents.
//!
//! A corpus of documents is tokenized and indexed into an inverted index
//! (term -> sorted posting list of document ids) paired with a k-gram index
//! (character k-gram -> sorted set of term ids).  Conjunctive queries of
//! literal terms and single-wildcard patterns are answered by intersecting
//! sorted posting lists; wildcard patterns are expanded to candidate terms
//! through the k-gram index.

pub mod sorted;
pub mod text;
pub mod kgram;
pub mod wildcard;
pub mod index;
pub mod docstore;
pub mod parse;

use vstd::prelude::*;

verus! {

/// The reasons a build or a query can fail.
#[derive(Clone, Copy, Debug, PartialEq, Eq, Structural)]
pub enum SearchError {
    /// The corpus or the stopwords could not be read.
    CorpusIO,
    /// A corpus row does not fit the four-field schema.
    CorpusMalformed,
    /// A literal query term does not occur in the corpus.
    OOVTerm,
    /// A k-gram of a wildcard pattern occurs in no indexed token.
    OOVKgram,
    /// A pattern with more than one internal wildcard, or one that is
    /// all wildcards.
    UnsupportedPattern,
    /// Two distinct tokens were assigned the same term id.
    InternalInvariant,
}

} // verus!
