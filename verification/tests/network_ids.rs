use resource_pool::network::{NetworkPrefixId, NetworkSegmentId};
use std::collections::HashSet;

#[test]
fn test_segment_id_uuid_round_trip() {
    let orig = uuid::Uuid::new_v4();
    let id = NetworkSegmentId::from(orig);
    let back = uuid::Uuid::from(id);
    assert_eq!(orig, back);
}

#[test]
fn test_segment_id_string_round_trip() {
    let orig = uuid::Uuid::new_v4();
    let id = NetworkSegmentId::from(orig);
    let as_string = id.to_string();
    let parsed = NetworkSegmentId::from_str(&as_string).expect("failed to parse");
    assert_eq!(id, parsed);
}

#[test]
fn test_segment_id_ordering() {
    let id1 = NetworkSegmentId::from(uuid::Uuid::nil());
    let id2 = NetworkSegmentId::from(uuid::Uuid::max());
    assert!(id1 < id2);
}

#[test]
fn test_segment_id_default() {
    let id = NetworkSegmentId::default();
    assert_eq!(uuid::Uuid::from(id), uuid::Uuid::nil());
}

#[test]
fn test_segment_id_copy() {
    let id1 = NetworkSegmentId::new();
    let id2 = id1;
    assert_eq!(id1, id2);
}

#[test]
fn test_segment_id_hash_consistency() {
    let uuid = uuid::Uuid::new_v4();
    let id1 = NetworkSegmentId::from(uuid);
    let id2 = NetworkSegmentId::from(uuid);
    let mut set = HashSet::new();
    set.insert(id1);
    assert!(set.contains(&id2));
}

#[test]
fn test_segment_id_debug_includes_type_name() {
    let id = NetworkSegmentId::from(uuid::Uuid::nil());
    let debug = format!("{:?}", id);
    assert!(debug.contains("NetworkSegmentId"));
}

#[test]
fn test_prefix_id_uuid_round_trip() {
    let orig = uuid::Uuid::new_v4();
    let id = NetworkPrefixId::from(orig);
    let back = uuid::Uuid::from(id);
    assert_eq!(orig, back);
}

#[test]
fn test_prefix_id_debug_includes_type_name() {
    let id = NetworkPrefixId::from(uuid::Uuid::nil());
    let debug = format!("{:?}", id);
    assert!(debug.contains("NetworkPrefixId"));
}
