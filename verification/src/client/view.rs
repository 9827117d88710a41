//! Materialized views as they arrive.

use super::error::Error;
use crate::cavlc::error::Error as StoreError;
use crate::cavlc::format::snapshot_of;
use crate::cavlc::mvcc::Snapshot;
use crate::json::Json;
use crate::proto::Version;
use vstd::prelude::*;

verus! {

/// A materialized view as the server sent it.
#[derive(Clone, Debug, PartialEq)]
pub struct View {
    pub version: Version,
    pub value: Json,
}

/// Read the payload of a view frame as a snapshot.
///
/// The server may send the snapshot itself, a log view wrapping it, or the
/// bare root, so all three are accepted; the frame's version decides when the
/// payload does not carry one.
pub fn snapshot_from(version: Version, value: &Json) -> (r: Result<Snapshot, Error>)
    ensures
        match r {
            Ok(snapshot) => snapshot_of(version, value@) == Some(snapshot@),
            Err(e) => snapshot_of(version, value@) is None && e == Error::View(
                StoreError::RootMustBeObject,
            ),
        },
{
    match Snapshot::from_view(version, value) {
        Some(snapshot) => Ok(snapshot),
        None => Err(Error::View(StoreError::RootMustBeObject)),
    }
}

impl View {
    /// Read this view as a [`Snapshot`], the form a follower folds patches
    /// into.
    pub fn snapshot(&self) -> (r: Result<Snapshot, Error>)
        ensures
            match r {
                Ok(snapshot) => snapshot_of(self.version, self.value@) == Some(snapshot@),
                Err(e) => snapshot_of(self.version, self.value@) is None && e == Error::View(
                    StoreError::RootMustBeObject,
                ),
            },
    {
        snapshot_from(self.version, &self.value)
    }
}

} // verus!
