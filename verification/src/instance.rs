//! Identifiers of instances.

use crate::typed_uuids::{TypedUuid, UuidSubtype};
use vstd::prelude::*;

verus! {

/// Tags the identifier of an instance.
#[derive(Debug, PartialEq, Eq, PartialOrd, Ord, Hash)]
pub struct InstanceIdMarker;

impl UuidSubtype for InstanceIdMarker {
    const TYPE_NAME: &'static str = "InstanceId";
}

/// The identifier of an instance.
pub type InstanceId = TypedUuid<InstanceIdMarker>;

} // verus!
