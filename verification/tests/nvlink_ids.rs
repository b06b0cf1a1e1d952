use resource_pool::nvlink::{NvLinkDomainId, NvLinkLogicalPartitionId, NvLinkPartitionId};
use std::collections::HashSet;

#[test]
fn test_partition_id_uuid_round_trip() {
    let orig = uuid::Uuid::new_v4();
    let id = NvLinkPartitionId::from(orig);
    let back = uuid::Uuid::from(id);
    assert_eq!(orig, back);
}

#[test]
fn test_partition_id_string_round_trip() {
    let orig = uuid::Uuid::new_v4();
    let id = NvLinkPartitionId::from(orig);
    let as_string = id.to_string();
    let parsed = NvLinkPartitionId::from_str(&as_string).expect("failed to parse");
    assert_eq!(id, parsed);
}

#[test]
fn test_partition_id_ordering() {
    let id1 = NvLinkPartitionId::from(uuid::Uuid::nil());
    let id2 = NvLinkPartitionId::from(uuid::Uuid::max());
    assert!(id1 < id2);
}

#[test]
fn test_partition_id_default() {
    let id = NvLinkPartitionId::default();
    assert_eq!(uuid::Uuid::from(id), uuid::Uuid::nil());
}

#[test]
fn test_partition_id_copy() {
    let id1 = NvLinkPartitionId::new();
    let id2 = id1;
    assert_eq!(id1, id2);
}

#[test]
fn test_partition_id_hash_consistency() {
    let uuid = uuid::Uuid::new_v4();
    let id1 = NvLinkPartitionId::from(uuid);
    let id2 = NvLinkPartitionId::from(uuid);
    let mut set = HashSet::new();
    set.insert(id1);
    assert!(set.contains(&id2));
}

#[test]
fn test_partition_id_debug_includes_type_name() {
    let id = NvLinkPartitionId::from(uuid::Uuid::nil());
    let debug = format!("{:?}", id);
    assert!(debug.contains("NvLinkPartitionId"));
}

#[test]
fn test_logical_partition_id_uuid_round_trip() {
    let orig = uuid::Uuid::new_v4();
    let id = NvLinkLogicalPartitionId::from(orig);
    let back = uuid::Uuid::from(id);
    assert_eq!(orig, back);
}

#[test]
fn test_logical_partition_id_debug_includes_type_name() {
    let id = NvLinkLogicalPartitionId::from(uuid::Uuid::nil());
    let debug = format!("{:?}", id);
    assert!(debug.contains("NvLinkLogicalPartitionId"));
}

#[test]
fn test_domain_id_uuid_round_trip() {
    let orig = uuid::Uuid::new_v4();
    let id = NvLinkDomainId::from(orig);
    let back = uuid::Uuid::from(id);
    assert_eq!(orig, back);
}

#[test]
fn test_domain_id_debug_includes_type_name() {
    let id = NvLinkDomainId::from(uuid::Uuid::nil());
    let debug = format!("{:?}", id);
    assert!(debug.contains("NvLinkDomainId"));
}
