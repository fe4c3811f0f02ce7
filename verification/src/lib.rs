//! A small journaling library: a store of dated text entries with
//! create/update/delete/search, persistence to a byte blob, and a
//! cursor-addressed line-editing buffer. Every function is verified
//! against its contract.

pub mod buffer;
pub mod codec;
pub mod entry;
pub mod session;
pub mod state;
pub mod text;
