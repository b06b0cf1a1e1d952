use std::collections::HashSet;

#[test]
fn test_uuid_round_trip() {
    {
        let orig = uuid::Uuid::new_v4();
        let id = resource_pool::dpa_interface::DpaInterfaceId::from(orig);
        let back = uuid::Uuid::from(id);
        assert_eq!(orig, back);
    }
    {
        let orig = uuid::Uuid::new_v4();
        let id = resource_pool::dpu_remediations::RemediationId::from(orig);
        let back = uuid::Uuid::from(id);
        assert_eq!(orig, back);
    }
}

#[test]
fn mod_test_uuid_round_trip() {
    {
        let orig = uuid::Uuid::new_v4();
        let id = resource_pool::extension_service::ExtensionServiceId::from(orig);
        let back = uuid::Uuid::from(id);
        assert_eq!(orig, back);
    }
    {
        let orig = uuid::Uuid::new_v4();
        let id = resource_pool::vpc_peering::VpcPeeringId::from(orig);
        let back = uuid::Uuid::from(id);
        assert_eq!(orig, back);
    }
}

#[test]
fn test_string_round_trip() {
    {
        let orig = uuid::Uuid::new_v4();
        let id = resource_pool::dpa_interface::DpaInterfaceId::from(orig);
        let as_string = id.to_string();
        let parsed = resource_pool::dpa_interface::DpaInterfaceId::from_str(&as_string).expect("failed to parse");
        assert_eq!(id, parsed);
    }
    {
        let orig = uuid::Uuid::new_v4();
        let id = resource_pool::dpu_remediations::RemediationId::from(orig);
        let as_string = id.to_string();
        let parsed = resource_pool::dpu_remediations::RemediationId::from_str(&as_string).expect("failed to parse");
        assert_eq!(id, parsed);
    }
}

#[test]
fn mod_test_string_round_trip() {
    {
        let orig = uuid::Uuid::new_v4();
        let id = resource_pool::extension_service::ExtensionServiceId::from(orig);
        let as_string = id.to_string();
        let parsed = resource_pool::extension_service::ExtensionServiceId::from_str(&as_string).expect("failed to parse");
        assert_eq!(id, parsed);
    }
    {
        let orig = uuid::Uuid::new_v4();
        let id = resource_pool::vpc_peering::VpcPeeringId::from(orig);
        let as_string = id.to_string();
        let parsed = resource_pool::vpc_peering::VpcPeeringId::from_str(&as_string).expect("failed to parse");
        assert_eq!(id, parsed);
    }
}

#[test]
fn test_ordering() {
    {
        let id1 = resource_pool::dpa_interface::DpaInterfaceId::from(uuid::Uuid::nil());
        let id2 = resource_pool::dpa_interface::DpaInterfaceId::from(uuid::Uuid::max());
        assert!(id1 < id2);
    }
    {
        let id1 = resource_pool::dpu_remediations::RemediationId::from(uuid::Uuid::nil());
        let id2 = resource_pool::dpu_remediations::RemediationId::from(uuid::Uuid::max());
        assert!(id1 < id2);
    }
}

#[test]
fn mod_test_ordering() {
    {
        let id1 = resource_pool::extension_service::ExtensionServiceId::from(uuid::Uuid::nil());
        let id2 = resource_pool::extension_service::ExtensionServiceId::from(uuid::Uuid::max());
        assert!(id1 < id2);
    }
    {
        let id1 = resource_pool::vpc_peering::VpcPeeringId::from(uuid::Uuid::nil());
        let id2 = resource_pool::vpc_peering::VpcPeeringId::from(uuid::Uuid::max());
        assert!(id1 < id2);
    }
}

#[test]
fn test_default() {
    {
        let id = resource_pool::dpa_interface::DpaInterfaceId::default();
        assert_eq!(uuid::Uuid::from(id), uuid::Uuid::nil());
    }
    {
        let id = resource_pool::dpu_remediations::RemediationId::default();
        assert_eq!(uuid::Uuid::from(id), uuid::Uuid::nil());
    }
}

#[test]
fn mod_test_default() {
    {
        let id = resource_pool::extension_service::ExtensionServiceId::default();
        assert_eq!(uuid::Uuid::from(id), uuid::Uuid::nil());
    }
    {
        let id = resource_pool::vpc_peering::VpcPeeringId::default();
        assert_eq!(uuid::Uuid::from(id), uuid::Uuid::nil());
    }
}

#[test]
fn test_copy() {
    {
        let id1 = resource_pool::dpa_interface::DpaInterfaceId::new();
        let id2 = id1;
        assert_eq!(id1, id2);
    }
    {
        let id1 = resource_pool::dpu_remediations::RemediationId::new();
        let id2 = id1;
        assert_eq!(id1, id2);
    }
}

#[test]
fn mod_test_copy() {
    {
        let id1 = resource_pool::extension_service::ExtensionServiceId::new();
        let id2 = id1;
        assert_eq!(id1, id2);
    }
    {
        let id1 = resource_pool::vpc_peering::VpcPeeringId::new();
        let id2 = id1;
        assert_eq!(id1, id2);
    }
}

#[test]
fn test_hash_consistency() {
    {
        let uuid = uuid::Uuid::new_v4();
        let id1 = resource_pool::dpa_interface::DpaInterfaceId::from(uuid);
        let id2 = resource_pool::dpa_interface::DpaInterfaceId::from(uuid);
        let mut set = HashSet::new();
        set.insert(id1);
        assert!(set.contains(&id2));
    }
    {
        let uuid = uuid::Uuid::new_v4();
        let id1 = resource_pool::dpu_remediations::RemediationId::from(uuid);
        let id2 = resource_pool::dpu_remediations::RemediationId::from(uuid);
        let mut set = HashSet::new();
        set.insert(id1);
        assert!(set.contains(&id2));
    }
}

#[test]
fn mod_test_hash_consistency() {
    {
        let uuid = uuid::Uuid::new_v4();
        let id1 = resource_pool::extension_service::ExtensionServiceId::from(uuid);
        let id2 = resource_pool::extension_service::ExtensionServiceId::from(uuid);
        let mut set = HashSet::new();
        set.insert(id1);
        assert!(set.contains(&id2));
    }
    {
        let uuid = uuid::Uuid::new_v4();
        let id1 = resource_pool::vpc_peering::VpcPeeringId::from(uuid);
        let id2 = resource_pool::vpc_peering::VpcPeeringId::from(uuid);
        let mut set = HashSet::new();
        set.insert(id1);
        assert!(set.contains(&id2));
    }
}

#[test]
fn test_debug_includes_type_name() {
    {
        let id = resource_pool::dpa_interface::DpaInterfaceId::from(uuid::Uuid::nil());
        let debug = format!("{:?}", id);
        assert!(debug.contains("resource_pool::dpa_interface::DpaInterfaceId"));
    }
    {
        let id = resource_pool::dpu_remediations::RemediationId::from(uuid::Uuid::nil());
        let debug = format!("{:?}", id);
        assert!(debug.contains("resource_pool::dpu_remediations::RemediationId"));
    }
}

#[test]
fn mod_test_debug_includes_type_name() {
    {
        let id = resource_pool::extension_service::ExtensionServiceId::from(uuid::Uuid::nil());
        let debug = format!("{:?}", id);
        assert!(debug.contains("resource_pool::extension_service::ExtensionServiceId"));
    }
    {
        let id = resource_pool::vpc_peering::VpcPeeringId::from(uuid::Uuid::nil());
        let debug = format!("{:?}", id);
        assert!(debug.contains("resource_pool::vpc_peering::VpcPeeringId"));
    }
}
