use vstd::prelude::*;

pub mod compose;
pub mod database;
pub mod dependency;
pub mod key;
pub mod memo;
pub mod revision;

verus! {

} // verus!
