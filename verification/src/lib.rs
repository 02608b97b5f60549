//! A code index for bounded-depth "who calls whom" queries.
//!
//! The index is built from three stores: a symbol interner mapping qualified
//! names to numeric ids, a declaration store for functions and classes, and an
//! adjacency store of call edges. An extractor populates the stores from a
//! plain syntax tree plus the file's source text, the whole aggregate can be
//! serialized to bytes and restored exactly, and a call-tree query unrolls the
//! edge store into a tree of bounded depth.

pub mod codec;
pub mod decls;
pub mod extract;
pub mod graph;
pub mod index;
pub mod interner;
pub mod query;
pub mod syntax;
pub mod text;

pub use decls::Class;
pub use decls::Function;
pub use index::CodeIndex;
pub use interner::IDGenerator;
