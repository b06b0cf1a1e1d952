use resource_pool::allocator::{allocate, release};
use resource_pool::error::ResourcePoolError;
use resource_pool::owner::{allocate_for_owner, release_owner};
use resource_pool::populate::populate;
use resource_pool::stats::{stats, ResourcePoolStats as St};
use resource_pool::store::{OwnerType, ResourcePool, Store};
use resource_pool::transaction::{commit, rollback};
use resource_pool::value::ValueType;

const COMMITTED: u64 = resource_pool::store::NO_TRANSACTION;
const VPC_VNI: &str = "vpc-vni";

fn used(n: usize, free: usize) -> St {
    St {
        used: n,
        free,
        auto_assign_free: free,
        auto_assign_used: n,
        non_auto_assign_free: 0,
        non_auto_assign_used: 0,
    }
}

/// What the handler of a request to create a VPC does: in one transaction
/// it allocates what the VPC needs, and commits; on an error it rolls back.
fn create_vpc(store: &mut Store, id: &str) -> Result<Vec<String>, ResourcePoolError> {
    let txn = store.begin()?;
    let pools = vec![ResourcePool::new(VPC_VNI.to_string(), ValueType::Integer)];
    match allocate_for_owner(&pools, store, txn, OwnerType::Vpc, id, 0) {
        Ok(values) => {
            commit(store, txn);
            Ok(values)
        }
        Err(e) => {
            rollback(store, txn);
            Err(e)
        }
    }
}

/// What the handler of a request to delete a VPC does.
fn delete_vpc(store: &mut Store, id: &str) -> Result<(), ResourcePoolError> {
    let txn = store.begin()?;
    match release_owner(store, txn, OwnerType::Vpc, id) {
        Ok(()) => {
            commit(store, txn);
            Ok(())
        }
        Err(e) => {
            rollback(store, txn);
            Err(e)
        }
    }
}

#[test]
fn test_vpc_assign_after_delete() {
    let mut store = Store::new();

    // Only one vpc-vni available
    let txn = store.begin().unwrap();
    let vpc_vni_pool = ResourcePool::new(VPC_VNI.to_string(), ValueType::Integer);
    populate(&vpc_vni_pool, &mut store, txn, vec!["1".to_string()], true).unwrap();
    commit(&mut store, txn);

    // CreateVpc
    assert_eq!(create_vpc(&mut store, "test_vpc_assign_after_delete_1").unwrap(), ["1"]);

    // Value is allocated
    assert_eq!(stats(&store, COMMITTED, vpc_vni_pool.name()).unwrap(), used(1, 0));

    // DeleteVpc
    delete_vpc(&mut store, "test_vpc_assign_after_delete_1").unwrap();

    // Value is free
    assert_eq!(stats(&store, COMMITTED, vpc_vni_pool.name()).unwrap(), used(0, 1));

    // CreateVpc
    create_vpc(&mut store, "test_vpc_assign_after_delete_2").unwrap();

    // Value allocated again
    assert_eq!(stats(&store, COMMITTED, vpc_vni_pool.name()).unwrap(), used(1, 0));

    delete_vpc(&mut store, "test_vpc_assign_after_delete_2").unwrap();

    // Value is free
    let txn = store.begin().unwrap();
    assert_eq!(stats(&store, txn, vpc_vni_pool.name()).unwrap(), used(0, 1));

    // Allocate the value for something else. Deleting the already deleted VPC again
    // shouldn't free the VNI another time
    let _vni =
        allocate(&vpc_vni_pool, &mut store, txn, OwnerType::Vpc, "testalloc", None, 0).unwrap();
    assert_eq!(stats(&store, txn, vpc_vni_pool.name()).unwrap(), used(1, 0));
    commit(&mut store, txn);

    // Delete the VPC again
    assert_eq!(
        delete_vpc(&mut store, "test_vpc_assign_after_delete_2"),
        Err(ResourcePoolError::NotFound)
    );

    // The VNI isn't freed
    assert_eq!(stats(&store, COMMITTED, vpc_vni_pool.name()).unwrap(), used(1, 0));
}

#[test]
fn an_owner_is_given_a_value_from_each_pool() {
    let mut store = Store::new();
    let txn = store.begin().unwrap();
    let a = ResourcePool::new("a".to_string(), ValueType::Integer);
    let b = ResourcePool::new("b".to_string(), ValueType::Ipv4);
    populate(&a, &mut store, txn, vec!["10".to_string(), "9".to_string()], true).unwrap();
    populate(&b, &mut store, txn, vec!["10.0.0.9".to_string(), "9.0.0.10".to_string()], true)
        .unwrap();
    commit(&mut store, txn);

    let txn = store.begin().unwrap();
    let pools = vec![
        ResourcePool::new("a".to_string(), ValueType::Integer),
        ResourcePool::new("b".to_string(), ValueType::Ipv4),
        ResourcePool::new("a".to_string(), ValueType::Integer),
    ];
    let got = allocate_for_owner(&pools, &mut store, txn, OwnerType::Instance, "i-1", 5).unwrap();
    assert_eq!(got, ["9", "9.0.0.10", "10"]);
    assert_eq!(stats(&store, txn, "a").unwrap(), used(2, 0));
    assert_eq!(stats(&store, txn, "b").unwrap(), used(1, 1));

    // a second owner finds the first pool empty; what it was given before
    // the error stays in its transaction until that is rolled back
    let other = store.begin().unwrap();
    let pools = vec![
        ResourcePool::new("b".to_string(), ValueType::Ipv4),
        ResourcePool::new("a".to_string(), ValueType::Integer),
    ];
    assert_eq!(
        allocate_for_owner(&pools, &mut store, other, OwnerType::Instance, "i-2", 6),
        Err(ResourcePoolError::Empty)
    );
    assert_eq!(stats(&store, other, "b").unwrap(), used(1, 1));
    rollback(&mut store, other);
    commit(&mut store, txn);
    assert_eq!(stats(&store, COMMITTED, "b").unwrap(), used(1, 1));

    // the owner goes, and all that it held is free
    let txn = store.begin().unwrap();
    release_owner(&mut store, txn, OwnerType::Instance, "i-1").unwrap();
    assert_eq!(stats(&store, txn, "a").unwrap(), used(0, 2));
    assert_eq!(stats(&store, txn, "b").unwrap(), used(0, 2));
    // before the commit the others still see it held
    assert_eq!(stats(&store, COMMITTED, "a").unwrap(), used(2, 0));
    // an owner of the same name and another kind holds nothing
    assert_eq!(
        release_owner(&mut store, txn, OwnerType::Machine, "i-1"),
        Err(ResourcePoolError::NotFound)
    );
    commit(&mut store, txn);
    assert_eq!(stats(&store, COMMITTED, "a").unwrap(), used(0, 2));
}

#[test]
fn errors_of_allocate_and_release() {
    let mut store = Store::new();
    let pool = ResourcePool::new("p".to_string(), ValueType::Integer);
    let missing = ResourcePool::new("q".to_string(), ValueType::Integer);

    // a transaction that was never begun
    assert_eq!(
        allocate(&pool, &mut store, 0, OwnerType::Machine, "m", None, 0),
        Err(ResourcePoolError::Store)
    );
    assert_eq!(
        populate(&pool, &mut store, 0, vec!["1".to_string()], true),
        Err(ResourcePoolError::Store)
    );
    assert_eq!(release(&pool, &mut store, 0, "1".to_string()), Err(ResourcePoolError::Store));
    assert_eq!(
        release_owner(&mut store, 0, OwnerType::Machine, "m"),
        Err(ResourcePoolError::Store)
    );

    let txn = store.begin().unwrap();
    populate(&pool, &mut store, txn, vec!["1".to_string()], true).unwrap();
    populate(&pool, &mut store, txn, vec!["2".to_string()], false).unwrap();

    // another transaction does not see the pool, nor can it register it
    let other = store.begin().unwrap();
    assert_eq!(stats(&store, other, "p"), Err(ResourcePoolError::PoolUnknown));
    assert_eq!(
        populate(&pool, &mut store, other, vec!["3".to_string()], true),
        Err(ResourcePoolError::Store)
    );
    assert_eq!(
        allocate(&pool, &mut store, other, OwnerType::Machine, "m", None, 0),
        Err(ResourcePoolError::Empty)
    );
    assert_eq!(
        allocate(&pool, &mut store, other, OwnerType::Machine, "m", Some("1".to_string()), 0),
        Err(ResourcePoolError::NotFound)
    );
    commit(&mut store, txn);

    // unknown pool, unknown value
    assert_eq!(
        allocate(&missing, &mut store, other, OwnerType::Machine, "m", None, 0),
        Err(ResourcePoolError::Empty)
    );
    assert_eq!(
        allocate(&pool, &mut store, other, OwnerType::Machine, "m", Some("5".to_string()), 0),
        Err(ResourcePoolError::NotFound)
    );
    assert_eq!(stats(&store, other, "q"), Err(ResourcePoolError::PoolUnknown));
    assert_eq!(
        release(&pool, &mut store, other, "5".to_string()),
        Err(ResourcePoolError::NotAllocated)
    );
    assert_eq!(
        release(&pool, &mut store, other, "1".to_string()),
        Err(ResourcePoolError::NotAllocated)
    );

    // a value that is held is in conflict, for the holder and for others
    let first = store.begin().unwrap();
    assert_eq!(
        allocate(&pool, &mut store, first, OwnerType::Machine, "m", Some("2".to_string()), 9)
            .unwrap(),
        "2"
    );
    assert_eq!(
        allocate(&pool, &mut store, first, OwnerType::Machine, "m", Some("2".to_string()), 9),
        Err(ResourcePoolError::Conflict)
    );
    assert_eq!(
        allocate(&pool, &mut store, other, OwnerType::Machine, "n", Some("2".to_string()), 9),
        Err(ResourcePoolError::Conflict)
    );
    // the other transaction sees it free, and so cannot release it
    assert_eq!(
        release(&pool, &mut store, other, "2".to_string()),
        Err(ResourcePoolError::NotAllocated)
    );
    commit(&mut store, first);
    assert_eq!(
        allocate(&pool, &mut store, other, OwnerType::Machine, "n", Some("2".to_string()), 9),
        Err(ResourcePoolError::Conflict)
    );

    // a release that is not committed keeps the lock of the row
    release(&pool, &mut store, other, "2".to_string()).unwrap();
    let third = store.begin().unwrap();
    assert_eq!(
        release(&pool, &mut store, third, "2".to_string()),
        Err(ResourcePoolError::Store)
    );
    assert_eq!(
        release_owner(&mut store, third, OwnerType::Machine, "m"),
        Err(ResourcePoolError::Store)
    );
    assert_eq!(
        allocate(&pool, &mut store, third, OwnerType::Machine, "n", Some("2".to_string()), 9),
        Err(ResourcePoolError::Conflict)
    );
    rollback(&mut store, other);
    release(&pool, &mut store, third, "2".to_string()).unwrap();
    assert_eq!(
        release(&pool, &mut store, third, "2".to_string()),
        Err(ResourcePoolError::NotAllocated)
    );
}

#[test]
fn the_numbers_of_transactions_run_out() {
    let mut store = Store::new();
    store.next_txn = u64::MAX - 1;
    assert_eq!(store.begin(), Ok(u64::MAX - 1));
    assert_eq!(store.begin(), Err(ResourcePoolError::Store));
    assert_eq!(store.next_txn, u64::MAX);
}
