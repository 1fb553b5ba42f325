//! A small task tracker: tasks with a description, a status and two
//! timestamps, kept in a store that is loaded from and saved to a single
//! JSON document, with identifiers issued by a monotone allocator.

use vstd::prelude::*;

pub mod cli;
pub mod codec;
pub mod num;
pub mod render;
pub mod status;
pub mod store;
pub mod task;
pub mod timestamp;

verus! {

} // verus!
