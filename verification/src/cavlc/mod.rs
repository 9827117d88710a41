//! An immutable JSON store: persistent values, patches that edit them, and
//! every version in between.

pub mod avl;
pub mod error;
pub mod format;
pub mod mvcc;
pub mod patch;
pub mod value;

use vstd::prelude::*;

verus! {

pub type Version = u64;

} // verus!
