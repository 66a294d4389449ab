//! A small content-addressed version-control core: object framing, the
//! header-and-message grammar of commits and tags, the tree and index binary
//! formats, reference and name resolution, history, checkout and ignore rules.
//!
//! Every function here is pure: it maps plain values to plain values, and the
//! caller does the file work. Contracts are stated over byte sequences, and the
//! laws that tie reading to writing are proved in the `*_laws` modules.
//!
//! What other crates compute is reached through a few functions whose contracts
//! are believed, not proved: hexadecimal digits (`hexcodec`), SHA-1 (`hash`),
//! zlib (`zlib`), the ordered map behind headers (`ordered`), glob matching
//! (`ignore`) and calendar dates (`log`).

pub mod bytes;
pub mod paths;
pub mod error;

pub mod hexcodec;
pub mod hash;
pub mod zlib;
pub mod ordered;

pub mod git_object;
pub mod blob;
pub mod kvlm;
pub mod kvlm_laws;
pub mod commit;
pub mod tag;
pub mod tree_leaf;
pub mod tree;
pub mod tree_laws;
pub mod store;
pub mod store_laws;

pub mod repo;
pub mod refs;
pub mod resolve;
pub mod resolve_laws;
pub mod index;
pub mod index_laws;
pub mod worktree;
pub mod log;
pub mod log_laws;
pub mod ignore;
pub mod commands;
