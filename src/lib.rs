//! The backup datastore engine: a catalog of named backups, the accounting of
//! chunk writes, the transforms a read must reverse, the order in which chunks are
//! replayed, and the retention rules that pick backups for deletion. Storage and
//! the transforms themselves are left to the caller.

use vstd::prelude::*;

pub mod catalog;
pub mod chunks;
pub mod digits;
pub mod engine;
pub mod error;
pub mod retention;

verus! {

} // verus!
