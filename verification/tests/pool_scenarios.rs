use resource_pool::allocator::{allocate, release};
use resource_pool::error::ResourcePoolError;
use resource_pool::populate::populate;
use resource_pool::stats::{all, stats, ResourcePoolStats as St};
use resource_pool::store::{OwnerType, ResourcePool, Store};
use resource_pool::transaction::{commit, rollback};
use resource_pool::value::ValueType;
use std::collections::HashSet;

/// A number that no transaction bears: it sees what is committed.
const COMMITTED: u64 = resource_pool::store::NO_TRANSACTION;

fn numbers(from: i64, to: i64) -> Vec<String> {
    (from..=to).map(|i| i.to_string()).collect()
}

#[test]
fn test_simple() {
    let mut store = Store::new();
    let txn = store.begin().unwrap();
    let pool = ResourcePool::new("test_simple".to_string(), ValueType::Integer);

    // one auto-assignable value in the pool
    populate(&pool, &mut store, txn, vec!["1".to_string()], true).unwrap();

    // one non-auto-assignable value in the pool
    populate(&pool, &mut store, txn, vec!["2".to_string()], false).unwrap();

    // Get an auto-allocated value
    let auto_allocated =
        allocate(&pool, &mut store, txn, OwnerType::Machine, "123", None, 1).unwrap();
    assert_eq!(auto_allocated, "1");
    assert_eq!(
        stats(&store, txn, pool.name()).unwrap(),
        St {
            used: 1,
            free: 1,
            auto_assign_free: 0,
            auto_assign_used: 1,
            non_auto_assign_free: 1,
            non_auto_assign_used: 0
        }
    );

    // no more auto values
    match allocate(&pool, &mut store, txn, OwnerType::Machine, "id456", None, 2) {
        Err(ResourcePoolError::Empty) => {} // expected
        Err(err) => panic!("Unexpected err: {err:?}"),
        Ok(_) => panic!("Pool should be empty"),
    }

    // Get an non-auto-allocated value
    let non_auto_allocated = allocate(
        &pool,
        &mut store,
        txn,
        OwnerType::Machine,
        "123",
        Some("2".to_string()),
        3,
    )
    .unwrap();
    assert_eq!(non_auto_allocated, "2");
    assert_eq!(
        stats(&store, txn, pool.name()).unwrap(),
        St {
            used: 2,
            free: 0,
            auto_assign_free: 0,
            auto_assign_used: 1,
            non_auto_assign_free: 0,
            non_auto_assign_used: 1
        }
    );

    // return the values
    release(&pool, &mut store, txn, auto_allocated).unwrap();
    release(&pool, &mut store, txn, non_auto_allocated).unwrap();

    assert_eq!(
        stats(&store, txn, pool.name()).unwrap(),
        St {
            used: 0,
            free: 2,
            auto_assign_free: 1,
            auto_assign_used: 0,
            non_auto_assign_free: 1,
            non_auto_assign_used: 0
        }
    );

    rollback(&mut store, txn);
    assert_eq!(
        stats(&store, COMMITTED, pool.name()),
        Err(ResourcePoolError::PoolUnknown)
    );
}

fn all_free(n: usize) -> St {
    St {
        used: 0,
        free: n,
        auto_assign_free: n,
        auto_assign_used: 0,
        non_auto_assign_free: 0,
        non_auto_assign_used: 0,
    }
}

#[test]
fn test_multiple() {
    let mut store = Store::new();
    let txn = store.begin().unwrap();
    let pool1 = ResourcePool::new("test_multiple_1".to_string(), ValueType::Integer);
    let pool2 = ResourcePool::new("test_multiple_2".to_string(), ValueType::Integer);
    let pool3 = ResourcePool::new("test_multiple_3".to_string(), ValueType::Integer);

    populate(&pool1, &mut store, txn, numbers(1, 10), true).unwrap();
    populate(&pool2, &mut store, txn, numbers(1, 100), true).unwrap();
    populate(&pool3, &mut store, txn, numbers(1, 500), true).unwrap();

    assert_eq!(stats(&store, txn, pool1.name()).unwrap(), all_free(10));
    assert_eq!(stats(&store, txn, pool2.name()).unwrap(), all_free(100));
    assert_eq!(stats(&store, txn, pool3.name()).unwrap(), all_free(500));

    let mut got = Vec::with_capacity(10);
    for _ in 1..=10 {
        got.push(allocate(&pool2, &mut store, txn, OwnerType::Machine, "my_id", None, 7).unwrap());
    }

    assert_eq!(stats(&store, txn, pool1.name()).unwrap(), all_free(10));
    assert_eq!(
        stats(&store, txn, pool2.name()).unwrap(),
        St {
            used: 10,
            free: 90,
            auto_assign_free: 90,
            auto_assign_used: 10,
            non_auto_assign_free: 0,
            non_auto_assign_used: 0
        }
    );
    assert_eq!(stats(&store, txn, pool3.name()).unwrap(), all_free(500));

    for val in got {
        release(&pool2, &mut store, txn, val).unwrap();
    }

    assert_eq!(stats(&store, txn, pool1.name()).unwrap(), all_free(10));
    assert_eq!(stats(&store, txn, pool2.name()).unwrap(), all_free(100));
    assert_eq!(stats(&store, txn, pool3.name()).unwrap(), all_free(500));

    rollback(&mut store, txn);
}

#[test]
fn test_rollback() {
    let mut store = Store::new();
    let pool = ResourcePool::new("test_rollback".to_string(), ValueType::Integer);

    // Pool has a single value
    let txn = store.begin().unwrap();
    populate(&pool, &mut store, txn, vec!["1".to_string()], true).unwrap();
    commit(&mut store, txn);

    // Which we allocate then rollback
    let txn = store.begin().unwrap();
    allocate(&pool, &mut store, txn, OwnerType::Machine, "my_id", None, 1).unwrap();
    assert_eq!(
        stats(&store, txn, pool.name()).unwrap(),
        St {
            used: 1,
            free: 0,
            auto_assign_free: 0,
            auto_assign_used: 1,
            non_auto_assign_free: 0,
            non_auto_assign_used: 0
        }
    );
    rollback(&mut store, txn);

    // The single value should be available
    assert_eq!(stats(&store, COMMITTED, pool.name()).unwrap(), all_free(1));
    let txn = store.begin().unwrap();
    allocate(&pool, &mut store, txn, OwnerType::Machine, "my_id", None, 2).unwrap();
    commit(&mut store, txn);

    // And now it's really allocated
    assert_eq!(
        stats(&store, COMMITTED, pool.name()).unwrap(),
        St {
            used: 1,
            free: 0,
            auto_assign_free: 0,
            auto_assign_used: 1,
            non_auto_assign_free: 0,
            non_auto_assign_used: 0
        }
    );
}

#[test]
fn test_list() {
    let mut store = Store::new();
    let txn = store.begin().unwrap();
    let names = &["a", "b", "c"];
    let max = &[10, 100, 500];

    // Setup, out of the order of the names
    let pool1 = ResourcePool::new(names[0].to_string(), ValueType::Integer);
    let pool2 = ResourcePool::new(names[1].to_string(), ValueType::Integer);
    let pool3 = ResourcePool::new(names[2].to_string(), ValueType::Integer);
    populate(&pool3, &mut store, txn, numbers(1, max[2]), true).unwrap();
    populate(&pool1, &mut store, txn, numbers(1, max[0]), true).unwrap();
    populate(&pool2, &mut store, txn, numbers(1, max[1]), true).unwrap();
    for _ in 1..=5 {
        let _ = allocate(&pool1, &mut store, txn, OwnerType::Machine, "my_id", None, 1).unwrap();
    }

    // What we're testing
    let all = all(&store, txn);

    // Verify
    assert_eq!(all.len(), 3);
    for (i, snapshot) in all.iter().enumerate() {
        assert_eq!(names[i], snapshot.name);
        assert_eq!(ValueType::Integer, snapshot.value_type);
        assert_eq!(1, snapshot.min.parse::<i32>().unwrap());
        assert_eq!(max[i], snapshot.max.parse::<i64>().unwrap());
        if i == 0 {
            assert_eq!(5, snapshot.stats.used);
            assert_eq!(5, snapshot.stats.free);
        } else {
            assert_eq!(0, snapshot.stats.used);
        }
    }

    // Nobody else sees pools that are not committed
    assert_eq!(resource_pool::stats::all(&store, COMMITTED).len(), 0);
}

#[test]
fn test_allocate() {
    let mut store = Store::new();
    let pool = ResourcePool::new("test_rollback".to_string(), ValueType::Integer);

    let txn = store.begin().unwrap();
    populate(&pool, &mut store, txn, numbers(1, 2), true).unwrap(); // Auto-assign
    commit(&mut store, txn);

    let one_of_two = St {
        used: 1,
        free: 1,
        auto_assign_free: 1,
        auto_assign_used: 1,
        non_auto_assign_free: 0,
        non_auto_assign_used: 0,
    };

    // allocate in one transaction
    let txn1 = store.begin().unwrap();
    let v1 = allocate(&pool, &mut store, txn1, OwnerType::Machine, "my_id", None, 1).unwrap();
    assert_eq!(stats(&store, txn1, pool.name()).unwrap(), one_of_two);

    // allocate in second transaction
    let txn2 = store.begin().unwrap();
    let v2 = allocate(&pool, &mut store, txn2, OwnerType::Machine, "my_id", None, 2).unwrap();
    assert_eq!(stats(&store, txn2, pool.name()).unwrap(), one_of_two);
    // commit second transaction
    commit(&mut store, txn2);
    commit(&mut store, txn1);

    assert_eq!(
        stats(&store, COMMITTED, pool.name()).unwrap(),
        St {
            used: 2,
            free: 0,
            auto_assign_free: 0,
            auto_assign_used: 2,
            non_auto_assign_free: 0,
            non_auto_assign_used: 0
        }
    );
    assert_ne!(v1, v2);
    assert_eq!(v1, "1");
    assert_eq!(v2, "2");
}

#[test]
fn test_parallel() {
    let mut store = Store::new();
    let txn = store.begin().unwrap();
    let pool = ResourcePool::new("test_parallel".to_string(), ValueType::Integer);
    populate(&pool, &mut store, txn, numbers(1, 5_000), true).unwrap();
    commit(&mut store, txn);

    // Fifty tasks, each of which allocates a hundred times, each time in a
    // transaction of its own. In every round all fifty transactions are open
    // at once: each allocates before any of them commits.
    let mut all_values = HashSet::new();
    for _ in 0..100 {
        let mut open = Vec::with_capacity(50);
        for i in 0..50 {
            let txn = store.begin().unwrap();
            let got =
                allocate(&pool, &mut store, txn, OwnerType::Machine, &i.to_string(), None, 0)
                    .unwrap();
            all_values.insert(got);
            open.push(txn);
        }
        for txn in open {
            commit(&mut store, txn);
        }
    }

    // Every value we got was unique, so the HashSet had no duplicates
    assert_eq!(all_values.len(), 5_000);
    assert_eq!(
        stats(&store, COMMITTED, pool.name()).unwrap(),
        St {
            used: 5_000,
            free: 0,
            auto_assign_free: 0,
            auto_assign_used: 5_000,
            non_auto_assign_free: 0,
            non_auto_assign_used: 0
        }
    );
}
