//! Identifiers of VPC peerings.

use crate::typed_uuids::{TypedUuid, UuidSubtype};
use vstd::prelude::*;

verus! {

/// Tags the identifier of a peering between two VPCs.
#[derive(Debug, PartialEq, Eq, PartialOrd, Ord, Hash)]
pub struct VpcPeeringIdMarker;

impl UuidSubtype for VpcPeeringIdMarker {
    const TYPE_NAME: &'static str = "VpcPeeringId";
}

/// The identifier of a peering between two VPCs.
pub type VpcPeeringId = TypedUuid<VpcPeeringIdMarker>;

} // verus!
