//! Temporary keysets: secrets in encrypted files, whose key only the Linux kernel
//! keyring holds.
//!
//! Everything here computes. What a command reads, asks of the kernel or does to files
//! is done around the library, which says what to do next and is told what came of it.
use vstd::prelude::*;

pub mod credential;
pub mod disk;
pub mod errors;
pub mod failure;
pub mod input;
pub mod keyring;
pub mod list;
pub mod load;
pub mod names;
pub mod order;
pub mod parse;
pub mod prune;
pub mod read;
pub mod run;
pub mod scope;
pub mod script;
pub mod seal;
pub mod secret;
pub mod session;
pub mod store;
pub mod store_laws;
pub mod sys;
pub mod text;
pub mod ttl;
pub mod vault;

verus! {

} // verus!
