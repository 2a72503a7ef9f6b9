//! An embeddable, log-structured key-value store over strings.
//!
//! The store keeps an append-only log of commands, cut into numbered
//! segments, and an in-memory index from each live key to the place of its
//! latest `Set` command. The library works on the image of the store
//! directory held as bytes; a caller brings that image in from stable storage
//! and carries each recorded change back out.
pub use crate::error::KvError;
pub use crate::kv::KvStore;

pub mod command;
pub mod error;
pub mod index;
pub mod json;
pub mod kv;
pub mod kvreader;
pub mod kvwriter;
pub mod layout;
pub mod log;
