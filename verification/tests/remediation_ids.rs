use resource_pool::dpu_remediations::RemediationId;

#[test]
fn test_into_option_uuid() {
    let id = RemediationId::new();
    let opt: Option<uuid::Uuid> = id.into();
    assert!(opt.is_some());
    assert_eq!(opt.unwrap(), uuid::Uuid::from(id));
}

#[test]
fn test_try_from_option_uuid() {
    let uuid = uuid::Uuid::new_v4();
    let id = RemediationId::try_from(Some(uuid)).expect("failed to convert");
    assert_eq!(uuid::Uuid::from(id), uuid);

    let err = RemediationId::try_from(None);
    assert!(err.is_err());
}
