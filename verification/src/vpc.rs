//! Identifiers of VPCs and VPC prefixes.

use crate::typed_uuids::{TypedUuid, UuidSubtype};
use vstd::prelude::*;

verus! {

/// Tags the identifier of a VPC.
#[derive(Debug, PartialEq, Eq, PartialOrd, Ord, Hash)]
pub struct VpcIdMarker;

impl UuidSubtype for VpcIdMarker {
    const TYPE_NAME: &'static str = "VpcId";
}

/// The identifier of a VPC.
pub type VpcId = TypedUuid<VpcIdMarker>;

/// Tags the identifier of a VPC prefix.
#[derive(Debug, PartialEq, Eq, PartialOrd, Ord, Hash)]
pub struct VpcPrefixMarker;

impl UuidSubtype for VpcPrefixMarker {
    const TYPE_NAME: &'static str = "VpcPrefixId";
}

/// The identifier of a VPC prefix.
pub type VpcPrefixId = TypedUuid<VpcPrefixMarker>;

} // verus!
