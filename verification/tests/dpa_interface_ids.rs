use resource_pool::dpa_interface::{null_dpa_interface_id, DpaInterfaceId};

#[test]
fn test_null_constant() {
    assert_eq!(null_dpa_interface_id(), DpaInterfaceId::default());
    assert_eq!(uuid::Uuid::from(null_dpa_interface_id()), uuid::Uuid::nil());
}
