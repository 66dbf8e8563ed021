//! A small on-disk record store for patient notes.
//!
//! Each record lives in a directory whose name is derived from the
//! patient's name by [`digest::storage_key`]. The directory holds a `data`
//! file (name and free-text note) and an optional `header` file (four
//! labelled fields). This crate holds the pure part of the store: the key
//! scheme, the two file formats, the in-memory index rebuilt from a scan of
//! the store root, and the search filter. Reading and writing the files is
//! left to the caller.
use vstd::prelude::*;

pub mod text;
pub mod digest;
pub mod codec;
pub mod search;
pub mod index;

verus! {

} // verus!
