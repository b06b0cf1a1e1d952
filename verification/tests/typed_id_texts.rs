use resource_pool::dpu_remediations::RemediationId;
use resource_pool::machine::MachineId;
use resource_pool::measured_boot::{MeasurementBundleId, TrustedMachineId};
use resource_pool::typed_uuids::{hyphenated, DbPrimaryUuid, UuidConversionError};
use resource_pool::vpc::{VpcId, VpcPrefixId};

#[test]
fn the_text_of_an_identifier_is_hyphenated_lower_case() {
    assert_eq!(hyphenated(0), "00000000-0000-0000-0000-000000000000");
    assert_eq!(hyphenated(u128::MAX), "ffffffff-ffff-ffff-ffff-ffffffffffff");
    assert_eq!(
        hyphenated(0xa1a2a3a4b1b2c1c2d1d2d3d4d5d6d7d8),
        "a1a2a3a4-b1b2-c1c2-d1d2-d3d4d5d6d7d8"
    );
    assert_eq!(hyphenated(0x0123456789abcdef), "00000000-0000-0000-0123-456789abcdef");
    let id = VpcId::from_u128(0x550e8400e29b41d4a716446655440000);
    assert_eq!(id.to_string(), "550e8400-e29b-41d4-a716-446655440000");
    assert_eq!(id.to_string(), uuid::Uuid::from(id).to_string());
    assert_eq!(VpcId::nil().to_string(), "00000000-0000-0000-0000-000000000000");
    assert_eq!(VpcId::nil(), VpcId::default());
}

#[test]
fn an_identifier_is_read_from_every_form_of_its_text() {
    let expected = VpcId::from_u128(0x550e8400e29b41d4a716446655440000);
    for text in [
        "550e8400-e29b-41d4-a716-446655440000",
        "550E8400-E29B-41D4-A716-446655440000",
        "550e8400e29b41d4a716446655440000",
        "{550e8400-e29b-41d4-a716-446655440000}",
        "urn:uuid:550e8400-e29b-41d4-a716-446655440000",
    ] {
        assert_eq!(VpcId::from_str(text), Ok(expected), "{text}");
    }
    assert_eq!(expected.as_u128(), 0x550e8400e29b41d4a716446655440000);
}

#[test]
fn a_text_that_is_no_identifier_is_refused_with_the_type_and_the_text() {
    for text in ["", "*", "550e8400-e29b-41d4-a716-44665544000", "550e8400-e29b-41d4-a716-44665544000g"] {
        assert_eq!(
            VpcId::from_str(text),
            Err(UuidConversionError::InvalidUuid { ty: "VpcId", value: text.to_string() })
        );
    }
    assert_eq!(
        VpcPrefixId::from_str("x"),
        Err(UuidConversionError::InvalidUuid { ty: "VpcPrefixId", value: "x".to_string() })
    );
    assert_eq!(VpcId::from_parsed(Some(7), "ignored"), Ok(VpcId::from_u128(7)));
    assert_eq!(
        VpcId::from_parsed(None, "the text"),
        Err(UuidConversionError::InvalidUuid { ty: "VpcId", value: "the text".to_string() })
    );
}

#[test]
fn a_new_identifier_is_a_random_one_of_version_four() {
    let a = VpcId::new();
    let b = VpcId::new();
    assert_ne!(a, b);
    for id in [a, b] {
        assert_eq!((id.as_u128() >> 76) & 0xf, 4);
        assert_eq!((id.as_u128() >> 62) & 0x3, 2);
        assert_eq!(uuid::Uuid::from(id).get_version_num(), 4);
    }
}

#[test]
fn identifiers_are_ordered_by_their_bits() {
    let low = VpcId::from_u128(1);
    let high = VpcId::from_u128(1 << 100);
    assert!(low < high);
    assert!(!(high < low));
    assert!(low <= low);
    assert!(high > low);
    assert_eq!(low.partial_cmp(&high), Some(std::cmp::Ordering::Less));
    assert_eq!(low.cmp(&high), std::cmp::Ordering::Less);
    assert_eq!(uuid::Uuid::from(low) < uuid::Uuid::from(high), low < high);
}

#[test]
fn a_trusted_machine_is_one_machine_or_every_machine() {
    let text = "550e8400-e29b-41d4-a716-446655440000";
    let one = TrustedMachineId::from_str(text).unwrap();
    assert_eq!(one, TrustedMachineId::MachineId(MachineId::from_str(text).unwrap()));
    assert_eq!(one.to_string(), text);
    assert_eq!(TrustedMachineId::Any.to_string(), "*");
    assert_eq!(TrustedMachineId::from_str("*"), Ok(TrustedMachineId::Any));
    for bad in ["", "**", " *", "machine"] {
        assert_eq!(
            TrustedMachineId::from_str(bad),
            Err(UuidConversionError::InvalidMachineId(bad.to_string()))
        );
    }
}

#[test]
fn the_column_of_an_identifier_is_that_of_its_type() {
    assert_eq!(VpcId::db_primary_uuid_name(), "id");
    assert_eq!(MachineId::db_primary_uuid_name(), "machine_id");
    assert_eq!(MeasurementBundleId::db_primary_uuid_name(), "bundle_id");
    assert_eq!(TrustedMachineId::db_primary_uuid_name(), "machine_id");
}

#[test]
fn a_missing_remediation_is_told_by_name() {
    assert_eq!(
        RemediationId::try_from(None),
        Err(UuidConversionError::MissingArgument("remediation_id"))
    );
    let id = uuid::Uuid::from_u128(42);
    assert_eq!(RemediationId::try_from(Some(id)).unwrap().as_u128(), 42);
}

#[test]
fn an_identifier_has_the_bits_of_its_uuid() {
    for u in [
        uuid::Uuid::nil(),
        uuid::Uuid::max(),
        uuid::Uuid::from_u128(0xa1a2a3a4b1b2c1c2d1d2d3d4d5d6d7d8),
        uuid::Uuid::new_v4(),
    ] {
        let id = RemediationId::try_from(Some(u)).unwrap();
        assert_eq!(id.as_u128(), u.as_u128());
        assert_eq!(uuid::Uuid::from(id), u);
        assert_eq!(RemediationId::from(u), id);
        let optional: Option<uuid::Uuid> = id.into();
        assert_eq!(optional, Some(u));
        assert_eq!(RemediationId::try_from(optional), Ok(id));
    }
    let nil: Option<uuid::Uuid> = RemediationId::default().into();
    assert_eq!(nil, Some(uuid::Uuid::nil()));
    assert_eq!(
        uuid::Uuid::from(VpcId::from_u128(0x550e8400e29b41d4a716446655440000)).as_bytes()[0],
        0x55
    );
}
