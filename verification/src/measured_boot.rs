//! Identifiers of the records of measured boot.

use crate::machine::MachineId;
use crate::typed_uuids::{uuid_text_value, hyphenated_text, DbPrimaryUuid, TypedUuid, UuidConversionError, UuidSubtype};
use vstd::string::StringExecFns;
use vstd::string::StrSliceExecFns;
use vstd::prelude::*;

verus! {

/// The machine that an approval of measured boot is for: one machine, or
/// every machine. The text of the second is `*`.
#[derive(Debug, Copy, Clone, PartialEq)]
pub enum TrustedMachineId {
    MachineId(MachineId),
    Any,
}

/// The text that stands for every machine.
pub open spec fn any_machine_text() -> Seq<char> {
    seq!['*']
}

impl TrustedMachineId {
    /// Reads `*` as every machine, and any other text as the identifier of
    /// a machine.
    pub fn from_str(input: &str) -> (r: Result<Self, UuidConversionError>)
        ensures
            input@ == any_machine_text() ==> r == Ok::<Self, UuidConversionError>(
                TrustedMachineId::Any,
            ),
            input@ != any_machine_text() ==> match uuid_text_value(input@) {
                Some(v) => r matches Ok(TrustedMachineId::MachineId(m)) && m.bits() == v,
                None => r matches Err(UuidConversionError::InvalidMachineId(value)) && value@
                    == input@,
            },
            forall|v: u128|
                input@ == #[trigger] hyphenated_text(v) ==> (r matches Ok(
                    TrustedMachineId::MachineId(m),
                ) && m.bits() == v),
    {
        if input.unicode_len() == 1 && input.get_char(0) == '*' {
            proof {
                assert(input@ =~= any_machine_text());
                assert forall|v: u128| input@ != #[trigger] hyphenated_text(v) by {
                    crate::typed_uuids::lemma_hyphenated_text_len(v);
                }
            }
            Ok(TrustedMachineId::Any)
        } else {
            match MachineId::from_str(input) {
                Ok(m) => Ok(TrustedMachineId::MachineId(m)),
                Err(_) => Err(UuidConversionError::InvalidMachineId(input.to_owned())),
            }
        }
    }

    /// The text of the value: `*` for every machine, else the canonical text
    /// of the machine's identifier.
    pub fn to_string(&self) -> (s: String)
        ensures
            match *self {
                TrustedMachineId::Any => s@ == any_machine_text(),
                TrustedMachineId::MachineId(m) => s@ == hyphenated_text(m.bits()),
            },
    {
        match self {
            TrustedMachineId::Any => {
                proof {
                    reveal_strlit("*");
                    assert("*"@ =~= any_machine_text());
                }
                String::from_str("*")
            },
            TrustedMachineId::MachineId(m) => m.to_string(),
        }
    }
}

impl DbPrimaryUuid for TrustedMachineId {
    open spec fn spec_db_primary_uuid_name() -> Seq<char> {
        "machine_id"@
    }

    fn db_primary_uuid_name() -> (r: &'static str) {
        "machine_id"
    }
}

/// Tags the identifier of a system profile: the general description of a kind of machine.
#[derive(Debug, PartialEq, Eq, PartialOrd, Ord, Hash)]
pub struct MeasurementSystemProfileIdMarker;

impl UuidSubtype for MeasurementSystemProfileIdMarker {
    const TYPE_NAME: &'static str = "MeasurementSystemProfileId";

    const DB_COLUMN_NAME: &'static str = "profile_id";
}

/// The identifier of a system profile: the general description of a kind of machine.
pub type MeasurementSystemProfileId = TypedUuid<MeasurementSystemProfileIdMarker>;

/// Tags the identifier of an attribute by which machines are matched to a system profile.
#[derive(Debug, PartialEq, Eq, PartialOrd, Ord, Hash)]
pub struct MeasurementSystemProfileAttrIdMarker;

impl UuidSubtype for MeasurementSystemProfileAttrIdMarker {
    const TYPE_NAME: &'static str = "MeasurementSystemProfileAttrId";
}

/// The identifier of an attribute by which machines are matched to a system profile.
pub type MeasurementSystemProfileAttrId = TypedUuid<MeasurementSystemProfileAttrIdMarker>;

/// Tags the identifier of a measurement bundle: a set of measurements that belong together.
#[derive(Debug, PartialEq, Eq, PartialOrd, Ord, Hash)]
pub struct MeasurementBundleIdMarker;

impl UuidSubtype for MeasurementBundleIdMarker {
    const TYPE_NAME: &'static str = "MeasurementBundleId";

    const DB_COLUMN_NAME: &'static str = "bundle_id";
}

/// The identifier of a measurement bundle: a set of measurements that belong together.
pub type MeasurementBundleId = TypedUuid<MeasurementBundleIdMarker>;

/// Tags the identifier of one measurement of a measurement bundle.
#[derive(Debug, PartialEq, Eq, PartialOrd, Ord, Hash)]
pub struct MeasurementBundleValueIdMarker;

impl UuidSubtype for MeasurementBundleValueIdMarker {
    const TYPE_NAME: &'static str = "MeasurementBundleValueId";
}

/// The identifier of one measurement of a measurement bundle.
pub type MeasurementBundleValueId = TypedUuid<MeasurementBundleValueIdMarker>;

/// Tags the identifier of a measurement report: what one machine reported.
#[derive(Debug, PartialEq, Eq, PartialOrd, Ord, Hash)]
pub struct MeasurementReportIdMarker;

impl UuidSubtype for MeasurementReportIdMarker {
    const TYPE_NAME: &'static str = "MeasurementReportId";

    const DB_COLUMN_NAME: &'static str = "report_id";
}

/// The identifier of a measurement report: what one machine reported.
pub type MeasurementReportId = TypedUuid<MeasurementReportIdMarker>;

/// Tags the identifier of one value of a measurement report.
#[derive(Debug, PartialEq, Eq, PartialOrd, Ord, Hash)]
pub struct MeasurementReportValueIdMarker;

impl UuidSubtype for MeasurementReportValueIdMarker {
    const TYPE_NAME: &'static str = "MeasurementReportValueId";
}

/// The identifier of one value of a measurement report.
pub type MeasurementReportValueId = TypedUuid<MeasurementReportValueIdMarker>;

/// Tags the identifier of a journal entry: the record of a report and the bundle it met.
#[derive(Debug, PartialEq, Eq, PartialOrd, Ord, Hash)]
pub struct MeasurementJournalIdMarker;

impl UuidSubtype for MeasurementJournalIdMarker {
    const TYPE_NAME: &'static str = "MeasurementJournalId";

    const DB_COLUMN_NAME: &'static str = "journal_id";
}

/// The identifier of a journal entry: the record of a report and the bundle it met.
pub type MeasurementJournalId = TypedUuid<MeasurementJournalIdMarker>;

/// Tags the identifier of the approval of a machine, whose reports are then taken as golden bundles.
#[derive(Debug, PartialEq, Eq, PartialOrd, Ord, Hash)]
pub struct MeasurementApprovedMachineIdMarker;

impl UuidSubtype for MeasurementApprovedMachineIdMarker {
    const TYPE_NAME: &'static str = "MeasurementApprovedMachineId";

    const DB_COLUMN_NAME: &'static str = "approval_id";
}

/// The identifier of the approval of a machine, whose reports are then taken as golden bundles.
pub type MeasurementApprovedMachineId = TypedUuid<MeasurementApprovedMachineIdMarker>;

/// Tags the identifier of the approval of a profile: the reports of its machines are then taken as golden bundles.
#[derive(Debug, PartialEq, Eq, PartialOrd, Ord, Hash)]
pub struct MeasurementApprovedProfileIdMarker;

impl UuidSubtype for MeasurementApprovedProfileIdMarker {
    const TYPE_NAME: &'static str = "MeasurementApprovedProfileId";

    const DB_COLUMN_NAME: &'static str = "approval_id";
}

/// The identifier of the approval of a profile: the reports of its machines are then taken as golden bundles.
pub type MeasurementApprovedProfileId = TypedUuid<MeasurementApprovedProfileIdMarker>;

} // verus!
