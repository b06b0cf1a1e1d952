use resource_pool::measured_boot::{
    MeasurementApprovedMachineId, MeasurementApprovedProfileId, MeasurementBundleId,
    MeasurementBundleValueId, MeasurementJournalId, MeasurementReportId, MeasurementReportValueId,
    MeasurementSystemProfileAttrId, MeasurementSystemProfileId, TrustedMachineId,
};
use resource_pool::typed_uuids::DbPrimaryUuid;

#[test]
fn test_system_profile_id_round_trip() {
    let orig = uuid::Uuid::new_v4();
    let id = MeasurementSystemProfileId::from(orig);
    assert_eq!(uuid::Uuid::from(id), orig);
}

#[test]
fn test_system_profile_id_db_column() {
    assert_eq!(
        MeasurementSystemProfileId::db_primary_uuid_name(),
        "profile_id"
    );
}

#[test]
fn test_system_profile_id_debug() {
    let id = MeasurementSystemProfileId::from(uuid::Uuid::nil());
    assert!(format!("{:?}", id).contains("MeasurementSystemProfileId"));
}

#[test]
fn test_system_profile_attr_id_round_trip() {
    let orig = uuid::Uuid::new_v4();
    let id = MeasurementSystemProfileAttrId::from(orig);
    assert_eq!(uuid::Uuid::from(id), orig);
}

#[test]
fn test_system_profile_attr_id_db_column() {
    assert_eq!(MeasurementSystemProfileAttrId::db_primary_uuid_name(), "id");
}

#[test]
fn test_bundle_id_round_trip() {
    let orig = uuid::Uuid::new_v4();
    let id = MeasurementBundleId::from(orig);
    assert_eq!(uuid::Uuid::from(id), orig);
}

#[test]
fn test_bundle_id_db_column() {
    assert_eq!(MeasurementBundleId::db_primary_uuid_name(), "bundle_id");
}

#[test]
fn test_bundle_id_string_round_trip() {
    let orig = uuid::Uuid::new_v4();
    let id = MeasurementBundleId::from(orig);
    let parsed = MeasurementBundleId::from_str(&id.to_string()).unwrap();
    assert_eq!(id, parsed);
}

#[test]
fn test_bundle_value_id_round_trip() {
    let orig = uuid::Uuid::new_v4();
    let id = MeasurementBundleValueId::from(orig);
    assert_eq!(uuid::Uuid::from(id), orig);
}

#[test]
fn test_bundle_value_id_db_column() {
    assert_eq!(MeasurementBundleValueId::db_primary_uuid_name(), "id");
}

#[test]
fn test_report_id_round_trip() {
    let orig = uuid::Uuid::new_v4();
    let id = MeasurementReportId::from(orig);
    assert_eq!(uuid::Uuid::from(id), orig);
}

#[test]
fn test_report_id_db_column() {
    assert_eq!(MeasurementReportId::db_primary_uuid_name(), "report_id");
}

#[test]
fn test_report_value_id_round_trip() {
    let orig = uuid::Uuid::new_v4();
    let id = MeasurementReportValueId::from(orig);
    assert_eq!(uuid::Uuid::from(id), orig);
}

#[test]
fn test_report_value_id_db_column() {
    assert_eq!(MeasurementReportValueId::db_primary_uuid_name(), "id");
}

#[test]
fn test_journal_id_round_trip() {
    let orig = uuid::Uuid::new_v4();
    let id = MeasurementJournalId::from(orig);
    assert_eq!(uuid::Uuid::from(id), orig);
}

#[test]
fn test_journal_id_db_column() {
    assert_eq!(MeasurementJournalId::db_primary_uuid_name(), "journal_id");
}

#[test]
fn test_approved_machine_id_round_trip() {
    let orig = uuid::Uuid::new_v4();
    let id = MeasurementApprovedMachineId::from(orig);
    assert_eq!(uuid::Uuid::from(id), orig);
}

#[test]
fn test_approved_machine_id_db_column() {
    assert_eq!(
        MeasurementApprovedMachineId::db_primary_uuid_name(),
        "approval_id"
    );
}

#[test]
fn test_approved_profile_id_round_trip() {
    let orig = uuid::Uuid::new_v4();
    let id = MeasurementApprovedProfileId::from(orig);
    assert_eq!(uuid::Uuid::from(id), orig);
}

#[test]
fn test_approved_profile_id_db_column() {
    assert_eq!(
        MeasurementApprovedProfileId::db_primary_uuid_name(),
        "approval_id"
    );
}

#[test]
fn test_trusted_machine_id_any() {
    let id = TrustedMachineId::from_str("*").expect("failed to parse");
    assert_eq!(id, TrustedMachineId::Any);
    assert_eq!(id.to_string(), "*");
}

#[test]
fn test_trusted_machine_id_db_column_name() {
    assert_eq!(TrustedMachineId::db_primary_uuid_name(), "machine_id");
}
