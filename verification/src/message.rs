//! The mesh message record: the sole entity that the store keeps and the
//! hub delivers.

use vstd::prelude::*;

verus! {

/// A single point-to-point payload record exchanged between two logical
/// network endpoints, keyed by a caller-supplied identifier.
///
/// `source`, `destination` and `payload` are opaque to the core: no field
/// is validated here. `timestamp` is caller-supplied and not checked for
/// monotonicity.
pub struct MeshMessage {
    pub id: String,
    pub source: String,
    pub destination: String,
    pub payload: String,
    pub timestamp: u64,
}

/// The mathematical shape of a [`MeshMessage`]: each string field as a
/// sequence of characters.
pub struct MeshMessageView {
    pub id: Seq<char>,
    pub source: Seq<char>,
    pub destination: Seq<char>,
    pub payload: Seq<char>,
    pub timestamp: u64,
}

impl View for MeshMessage {
    type V = MeshMessageView;

    open spec fn view(&self) -> MeshMessageView {
        MeshMessageView {
            id: self.id@,
            source: self.source@,
            destination: self.destination@,
            payload: self.payload@,
            timestamp: self.timestamp,
        }
    }
}

impl Clone for MeshMessage {
    /// A clone carries exactly the fields of the original.
    fn clone(&self) -> (r: Self)
        ensures
            r == *self,
    {
        MeshMessage {
            id: self.id.clone(),
            source: self.source.clone(),
            destination: self.destination.clone(),
            payload: self.payload.clone(),
            timestamp: self.timestamp,
        }
    }
}

} // verus!
