use vstd::prelude::*;

pub mod cavlc;
pub mod client;
pub mod engine;
pub mod json;
pub mod keyed;
mod list;
pub mod load;
pub mod proto;
pub mod quote;
pub mod text;
pub mod words;

verus! {

} // verus!
