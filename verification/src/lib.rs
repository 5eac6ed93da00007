//! A trigram-based substring search index: a compact index file over a corpus
//! of byte-string documents, and a reader that resolves a query to the
//! documents that may contain it.

pub mod bitpack;
pub mod build;
pub mod clock;
pub mod db;
pub mod error;
pub mod guarantees;
pub mod index;
pub mod ioutil;
pub mod layout;
pub mod trigram;
pub mod varint;
pub mod wire;

pub use error::{IndexError, ReadError};
pub use trigram::{DocID, LocalDocIdx, LocalSuccessorIdx, Trigram, TrigramID};
