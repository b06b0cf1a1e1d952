//! Identifiers of DPA interfaces.

use crate::typed_uuids::{TypedUuid, UuidSubtype};
use vstd::prelude::*;

verus! {

/// Tags the identifier of a DPA interface.
#[derive(Debug, PartialEq, Eq, PartialOrd, Ord, Hash)]
pub struct DpaInterfaceIdMarker;

impl UuidSubtype for DpaInterfaceIdMarker {
    const TYPE_NAME: &'static str = "DpaInterfaceId";
}

/// The identifier of a DPA interface.
pub type DpaInterfaceId = TypedUuid<DpaInterfaceIdMarker>;

/// The identifier that stands for no DPA interface: the nil identifier.
pub fn null_dpa_interface_id() -> (r: DpaInterfaceId)
    ensures
        r.bits() == 0,
{
    TypedUuid::nil()
}

} // verus!
