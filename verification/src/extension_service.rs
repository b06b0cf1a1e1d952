//! Identifiers of extension services.

use crate::typed_uuids::{TypedUuid, UuidSubtype};
use vstd::prelude::*;

verus! {

/// Tags the identifier of an extension service.
#[derive(Debug, PartialEq, Eq, PartialOrd, Ord, Hash)]
pub struct ExtensionServiceIdMarker;

impl UuidSubtype for ExtensionServiceIdMarker {
    const TYPE_NAME: &'static str = "ExtensionServiceId";
}

/// The identifier of an extension service.
pub type ExtensionServiceId = TypedUuid<ExtensionServiceIdMarker>;

} // verus!
