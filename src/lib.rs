//! Builds the inverted index consumed by the minisearch full-text search
//! runtime: documents and fields get compact numeric identifiers, terms go
//! into a compressed trie of postings, and the finished trie is flattened
//! into the nested, prefix-compressed tree of the minisearch format.

pub mod counts;
pub mod errors;
pub mod trie;
pub mod serializer;
pub mod index;
pub mod tokenizer;
pub mod documents;
