//! Identifiers of NvLink partitions, logical partitions and domains.

use crate::typed_uuids::{TypedUuid, UuidSubtype};
use vstd::prelude::*;

verus! {

/// Tags the identifier of an NvLink partition.
#[derive(Debug, PartialEq, Eq, PartialOrd, Ord, Hash)]
pub struct NvLinkPartitionIdMarker;

impl UuidSubtype for NvLinkPartitionIdMarker {
    const TYPE_NAME: &'static str = "NvLinkPartitionId";
}

/// The identifier of an NvLink partition.
pub type NvLinkPartitionId = TypedUuid<NvLinkPartitionIdMarker>;

/// Tags the identifier of an NvLink logical partition.
#[derive(Debug, PartialEq, Eq, PartialOrd, Ord, Hash)]
pub struct NvLinkLogicalPartitionIdMarker;

impl UuidSubtype for NvLinkLogicalPartitionIdMarker {
    const TYPE_NAME: &'static str = "NvLinkLogicalPartitionId";
}

/// The identifier of an NvLink logical partition.
pub type NvLinkLogicalPartitionId = TypedUuid<NvLinkLogicalPartitionIdMarker>;

/// Tags the identifier of an NvLink domain.
#[derive(Debug, PartialEq, Eq, PartialOrd, Ord, Hash)]
pub struct NvLinkDomainIdMarker;

impl UuidSubtype for NvLinkDomainIdMarker {
    const TYPE_NAME: &'static str = "NvLinkDomainId";
}

/// The identifier of an NvLink domain.
pub type NvLinkDomainId = TypedUuid<NvLinkDomainIdMarker>;

} // verus!
