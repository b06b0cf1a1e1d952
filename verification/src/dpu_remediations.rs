//! Identifiers of DPU remediations.

use crate::typed_uuids::{uuid_bits_of, TypedUuid, UuidConversionError, UuidSubtype};
use vstd::prelude::*;

verus! {

/// Tags the identifier of a remediation.
#[derive(Debug, PartialEq, Eq, PartialOrd, Ord, Hash)]
pub struct RemediationIdMarker;

impl UuidSubtype for RemediationIdMarker {
    const TYPE_NAME: &'static str = "RemediationId";
}

/// The identifier of a remediation.
pub type RemediationId = TypedUuid<RemediationIdMarker>;

impl From<RemediationId> for Option<uuid::Uuid> {
    /// The identifier as an optional value, which is always present: the
    /// one `uuid::Uuid` that has the bits of the identifier.
    fn from(val: RemediationId) -> (r: Self)
        ensures
            r is Some,
            uuid_bits_of(r->Some_0) == val.bits(),
            forall|u: uuid::Uuid| #![trigger uuid_bits_of(u)] uuid_bits_of(u) == val.bits() ==> r == Some(u),
    {
        let u: uuid::Uuid = uuid::Uuid::from(val);
        Some(u)
    }
}

impl vstd::std_specs::convert::FromSpecImpl<RemediationId> for Option<uuid::Uuid> {
    open spec fn obeys_from_spec() -> bool {
        false
    }

    open spec fn from_spec(val: RemediationId) -> Self {
        arbitrary()
    }
}

impl TryFrom<Option<uuid::Uuid>> for RemediationId {
    type Error = UuidConversionError;

    /// The identifier that an optional value holds: the one whose bits are
    /// those of the value. It is an error for the value to be absent.
    fn try_from(msg: Option<uuid::Uuid>) -> (r: Result<Self, UuidConversionError>)
        ensures
            match msg {
                Some(u) => r matches Ok(id) && id.bits() == uuid_bits_of(u),
                None => r matches Err(UuidConversionError::MissingArgument(name)) && name@
                    == "remediation_id"@,
            },
    {
        match msg {
            Some(input_uuid) => Ok(Self::from(input_uuid)),
            None => Err(UuidConversionError::MissingArgument("remediation_id")),
        }
    }
}

impl vstd::std_specs::convert::TryFromSpecImpl<Option<uuid::Uuid>> for RemediationId {
    open spec fn obeys_try_from_spec() -> bool {
        false
    }

    open spec fn try_from_spec(msg: Option<uuid::Uuid>) -> Result<Self, UuidConversionError> {
        arbitrary()
    }
}

/// Tags the identifier of a remediation prefix.
#[derive(Debug, PartialEq, Eq, PartialOrd, Ord, Hash)]
pub struct RemediationPrefixMarker;

impl UuidSubtype for RemediationPrefixMarker {
    const TYPE_NAME: &'static str = "RemediationPrefixId";
}

/// The identifier of a remediation prefix.
pub type RemediationPrefixId = TypedUuid<RemediationPrefixMarker>;

} // verus!
