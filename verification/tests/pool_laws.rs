use resource_pool::allocator::{allocate, release};
use resource_pool::error::ResourcePoolError;
use resource_pool::grow::grow;
use resource_pool::populate::populate;
use resource_pool::stats::{stats, ResourcePoolStats};
use resource_pool::store::{OwnerType, ResourcePool, Store};
use resource_pool::transaction::{commit, rollback};
use resource_pool::value::ValueType;

const COMMITTED: u64 = resource_pool::store::NO_TRANSACTION;

fn texts(values: &[&str]) -> Vec<String> {
    values.iter().map(|v| v.to_string()).collect()
}

/// A store with two pools, some values of which are held.
fn sample() -> Store {
    let mut store = Store::new();
    let txn = store.begin().unwrap();
    let a = ResourcePool::new("a".to_string(), ValueType::Integer);
    let b = ResourcePool::new("b".to_string(), ValueType::String);
    populate(&a, &mut store, txn, texts(&["5", "3", "9", "1"]), true).unwrap();
    populate(&a, &mut store, txn, texts(&["100", "200"]), false).unwrap();
    populate(&b, &mut store, txn, texts(&["x", "y"]), true).unwrap();
    allocate(&a, &mut store, txn, OwnerType::Machine, "m1", None, 1).unwrap();
    allocate(&a, &mut store, txn, OwnerType::Machine, "m2", Some("200".to_string()), 2).unwrap();
    commit(&mut store, txn);
    store
}

fn picture(store: &Store) -> String {
    format!("{store:?}")
}

#[test]
fn the_counts_of_a_pool_add_up_to_its_values() {
    let mut store = sample();
    let txn = store.begin().unwrap();
    let a = ResourcePool::new("a".to_string(), ValueType::Integer);
    allocate(&a, &mut store, txn, OwnerType::Vpc, "v", None, 3).unwrap();
    for viewer in [txn, COMMITTED] {
        for pool in ["a", "b"] {
            let st = stats(&store, viewer, pool).unwrap();
            let rows = store.values.iter().filter(|r| r.pool_name == pool).count();
            assert_eq!(st.used + st.free, rows);
            assert_eq!(st.used, st.auto_assign_used + st.non_auto_assign_used);
            assert_eq!(st.free, st.auto_assign_free + st.non_auto_assign_free);
        }
    }
    assert_eq!(
        stats(&store, txn, "a").unwrap(),
        ResourcePoolStats {
            used: 3,
            free: 3,
            auto_assign_free: 2,
            auto_assign_used: 2,
            non_auto_assign_free: 1,
            non_auto_assign_used: 1
        }
    );
    assert_eq!(
        stats(&store, COMMITTED, "a").unwrap(),
        ResourcePoolStats {
            used: 2,
            free: 4,
            auto_assign_free: 3,
            auto_assign_used: 1,
            non_auto_assign_free: 1,
            non_auto_assign_used: 1
        }
    );
}

#[test]
fn no_value_has_two_rows() {
    let mut store = sample();
    let txn = store.begin().unwrap();
    grow(
        &mut store,
        txn,
        "[a]\ntype = \"integer\"\nranges = [{ start = \"0\", end = \"12\" }, { start = \"8\", end = \"10\" }]\n",
    )
    .unwrap();
    commit(&mut store, txn);
    let mut keys: Vec<(&str, &str)> =
        store.values.iter().map(|r| (r.pool_name.as_str(), r.value.as_str())).collect();
    let rows = keys.len();
    keys.sort();
    keys.dedup();
    assert_eq!(keys.len(), rows);
    // six and two from before; of the twelve from 0 to 11 four were there
    assert_eq!(rows, 6 + 2 + 8);
}

#[test]
fn what_is_rolled_back_has_never_happened() {
    let mut store = sample();
    let before = picture(&store);
    let next = store.next_txn;

    let txn = store.begin().unwrap();
    let a = ResourcePool::new("a".to_string(), ValueType::Integer);
    let c = ResourcePool::new("c".to_string(), ValueType::Ipv4);
    // allocations, a release, new values and a new pool
    allocate(&a, &mut store, txn, OwnerType::Vpc, "v", None, 3).unwrap();
    allocate(&a, &mut store, txn, OwnerType::Vpc, "v", None, 3).unwrap();
    allocate(&a, &mut store, txn, OwnerType::Vpc, "v", Some("100".to_string()), 3).unwrap();
    release(&a, &mut store, txn, "200".to_string()).unwrap();
    populate(&a, &mut store, txn, texts(&["7", "8"]), true).unwrap();
    populate(&c, &mut store, txn, texts(&["10.0.0.1"]), true).unwrap();
    allocate(&c, &mut store, txn, OwnerType::Vpc, "v", None, 3).unwrap();
    assert_ne!(picture(&store), before);
    rollback(&mut store, txn);

    store.next_txn = next;
    assert_eq!(picture(&store), before);
    // nothing is left locked
    assert!(store.values.iter().all(|r| r.pending.is_none()));
}

#[test]
fn to_allocate_and_release_changes_no_count() {
    let mut store = sample();
    let a = ResourcePool::new("a".to_string(), ValueType::Integer);
    let txn = store.begin().unwrap();
    let before = stats(&store, txn, "a").unwrap();
    let got = allocate(&a, &mut store, txn, OwnerType::Vpc, "v", None, 3).unwrap();
    assert_eq!(got, "3");
    release(&a, &mut store, txn, got).unwrap();
    assert_eq!(stats(&store, txn, "a").unwrap(), before);
    let got = allocate(&a, &mut store, txn, OwnerType::Vpc, "v", Some("100".to_string()), 3).unwrap();
    release(&a, &mut store, txn, got).unwrap();
    assert_eq!(stats(&store, txn, "a").unwrap(), before);
    commit(&mut store, txn);
    assert_eq!(stats(&store, COMMITTED, "a").unwrap(), before);
}

#[test]
fn an_exhausted_pool_is_empty_though_other_values_are_free() {
    let mut store = Store::new();
    let txn = store.begin().unwrap();
    let pool = ResourcePool::new("p".to_string(), ValueType::Integer);
    populate(&pool, &mut store, txn, texts(&["1", "2", "3"]), false).unwrap();
    assert_eq!(
        allocate(&pool, &mut store, txn, OwnerType::Machine, "m", None, 0),
        Err(ResourcePoolError::Empty)
    );
    // by name they can be had, in any order
    for v in ["2", "3", "1"] {
        assert_eq!(
            allocate(&pool, &mut store, txn, OwnerType::Machine, "m", Some(v.to_string()), 0)
                .unwrap(),
            v
        );
    }
    assert_eq!(
        stats(&store, txn, "p").unwrap(),
        ResourcePoolStats {
            used: 3,
            free: 0,
            auto_assign_free: 0,
            auto_assign_used: 0,
            non_auto_assign_free: 0,
            non_auto_assign_used: 3
        }
    );
}

#[test]
fn what_is_not_committed_is_seen_by_its_transaction_alone() {
    let mut store = sample();
    let a = ResourcePool::new("a".to_string(), ValueType::Integer);
    let first = store.begin().unwrap();
    let second = store.begin().unwrap();
    let before = stats(&store, second, "a").unwrap();
    let v1 = allocate(&a, &mut store, first, OwnerType::Vpc, "v1", None, 3).unwrap();
    assert_eq!(stats(&store, second, "a").unwrap(), before);
    // the locked row is passed over
    let v2 = allocate(&a, &mut store, second, OwnerType::Vpc, "v2", None, 3).unwrap();
    assert_eq!((v1.as_str(), v2.as_str()), ("3", "5"));
    commit(&mut store, first);
    // now it is seen
    assert_eq!(stats(&store, second, "a").unwrap().used, before.used + 2);
    rollback(&mut store, second);
    assert_eq!(stats(&store, COMMITTED, "a").unwrap().used, before.used + 1);
    // the value that was rolled back is the lowest free one again
    let third = store.begin().unwrap();
    assert_eq!(allocate(&a, &mut store, third, OwnerType::Vpc, "v3", None, 3).unwrap(), "5");
}

#[test]
fn the_allocation_records_the_owner() {
    let mut store = sample();
    let a = ResourcePool::new("a".to_string(), ValueType::Integer);
    let txn = store.begin().unwrap();
    allocate(&a, &mut store, txn, OwnerType::NetworkSegment, "seg-7", Some("9".to_string()), 77)
        .unwrap();
    commit(&mut store, txn);
    let row = store.values.iter().find(|r| r.pool_name == "a" && r.value == "9").unwrap();
    let held = row.allocation.as_ref().unwrap();
    assert_eq!(held.owner_type, OwnerType::NetworkSegment);
    assert_eq!(held.owner_id, "seg-7");
    assert_eq!(held.allocated_at, 77);
    assert!(row.pending.is_none());
}
