//! Named countdown and repeating timers kept in a configuration document, and
//! the polling scheduler that fires them.
//!
//! - `timer`: one timer, how a poll advances it, and what a run of polls does.
//! - `scheduler`: one pass over a collection of timers.
//! - `store`: reading, adding, removing and listing stored definitions.
//! - `ini_access`: the configuration document as a sequence of sections.
//! - `decimal`: the text forms of numeric and boolean fields.
use vstd::prelude::*;

pub mod decimal;
pub mod ini_access;
pub mod scheduler;
pub mod store;
pub mod timer;

verus! {

} // verus!
