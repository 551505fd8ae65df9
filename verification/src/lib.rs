//! A verified core for a label-based note browser: the in-memory note store,
//! the selection buffer, command parsing and the text rules the notes follow.
use vstd::prelude::*;

pub mod text;
pub mod order;
pub mod store;
pub mod sqlite;
pub mod timefmt;
pub mod info;
pub mod cmd;
pub mod ctx;

verus! {
} // verus!
