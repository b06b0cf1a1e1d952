//! Identifiers of network segments and network prefixes.

use crate::typed_uuids::{TypedUuid, UuidSubtype};
use vstd::prelude::*;

verus! {

/// Tags the identifier of a network segment.
#[derive(Debug, PartialEq, Eq, PartialOrd, Ord, Hash)]
pub struct NetworkSegmentIdMarker;

impl UuidSubtype for NetworkSegmentIdMarker {
    const TYPE_NAME: &'static str = "NetworkSegmentId";
}

/// The identifier of a network segment.
pub type NetworkSegmentId = TypedUuid<NetworkSegmentIdMarker>;

/// Tags the identifier of a network prefix.
#[derive(Debug, PartialEq, Eq, PartialOrd, Ord, Hash)]
pub struct NetworkPrefixIdMarker;

impl UuidSubtype for NetworkPrefixIdMarker {
    const TYPE_NAME: &'static str = "NetworkPrefixId";
}

/// The identifier of a network prefix.
pub type NetworkPrefixId = TypedUuid<NetworkPrefixIdMarker>;

} // verus!
