//! An RDF quad store over nine covering indexes, with a binary term codec and
//! a content-addressed string dictionary.
//!
//! Quads of the default graph live in three triple indexes (`SPO`, `POS`,
//! `OSP`), quads of named graphs in six quad indexes (`GSPO`, `GPOS`, `GOSP`,
//! `SPOG`, `POSG`, `OSPG`). Each index holds byte keys: the encodings of the
//! quad's terms in the order of its permutation, so that a pattern with bound
//! components is answered by a prefix scan of the index that starts with them.
pub mod bytes;
pub mod codec;
pub mod entropy;
pub mod error;
pub mod index;
pub mod keys;
pub mod lexical;
pub mod model;
pub mod quad;
pub mod rpc;
pub mod store;
pub mod term;
