//! Identifiers of machines.

use crate::typed_uuids::{TypedUuid, UuidSubtype};
use vstd::prelude::*;

verus! {

/// Tags the identifier of a machine.
#[derive(Debug, PartialEq, Eq, PartialOrd, Ord, Hash)]
pub struct MachineIdMarker;

impl UuidSubtype for MachineIdMarker {
    const TYPE_NAME: &'static str = "MachineId";

    const DB_COLUMN_NAME: &'static str = "machine_id";
}

/// The identifier of a machine.
pub type MachineId = TypedUuid<MachineIdMarker>;

} // verus!
