//! The contracts everything else hangs off.
//!
//! A [`Reducible`](reducible::Reducible) folds patches into versioned views.
//! Its view is an MVCC pointer: immutable, cheap to share, free to outlive the
//! structure that produced it. A [`Storage`](storage::Storage) persists the
//! patches and checkpoints one of those pointers as a header. A
//! [`Log`](log::Log) is the two bolted together.

pub mod log;
pub mod reducible;
pub mod storage;
pub mod store;

use vstd::prelude::*;

verus! {

/// Monotonic version counter. Every committed patch mints exactly one.
/// Version 0 is the initial state and is never carried by a record.
pub type Version = u64;

/// Why a log refused: the structure, the storage or the codec failed, or a
/// record did not mint the version it carries.
#[derive(Debug)]
pub enum Error<D, S, C> {
    Data(D),
    Storage(S),
    Codec(C),
    Version { expected: Version, actual: Version },
}

} // verus!
