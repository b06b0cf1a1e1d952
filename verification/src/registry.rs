//! The register of pools: which pools there are, and of which type the
//! values of each are.

use crate::error::ResourcePoolError;
use crate::store::{lemma_pool_type, Pool, PoolView, Store, StoreView};
use crate::value::{
    lemma_text_lt_total, lemma_text_lt_transitive, text_less, text_lt, ValueType,
};
use vstd::prelude::*;

verus! {

/// The place at which a pool `name` is put among the pools, which are in
/// the order of their names: behind the last pool whose name comes before
/// `name`.
pub open spec fn insert_position(pools: Seq<PoolView>, name: Seq<char>) -> int
    decreases pools.len(),
{
    if pools.len() == 0 {
        0
    } else if text_lt(pools.last().name, name) {
        pools.len() as int
    } else {
        insert_position(pools.drop_last(), name)
    }
}

/// The pools after `txn` has made sure that there is a pool `name`: as
/// before where there was one, else with a new pool, uncommitted, at its
/// place in the order of the names.
pub open spec fn pools_with(
    s: StoreView,
    name: Seq<char>,
    value_type: ValueType,
    txn: u64,
) -> Seq<PoolView> {
    if s.has_pool(name) {
        s.pools
    } else {
        s.pools.insert(
            insert_position(s.pools, name),
            PoolView { name, value_type, created_by: Some(txn) },
        )
    }
}

/// Whether `txn` can have a pool `name` with values of type `value_type`,
/// and if not, why not. A transaction that the store does not know is
/// refused, and so is one that would have to wait for another transaction
/// that has registered the pool and not yet committed. A pool that is
/// registered with another type is a mismatch.
pub open spec fn ensure_verdict(
    s: StoreView,
    name: Seq<char>,
    value_type: ValueType,
    txn: u64,
) -> Result<(), ResourcePoolError> {
    if !s.knows(txn) {
        Err(ResourcePoolError::Store)
    } else if s.has_pool(name) && !s.sees_pool(name, txn) {
        Err(ResourcePoolError::Store)
    } else if s.has_pool(name) && s.pool_type(name) != value_type {
        Err(ResourcePoolError::TypeMismatch)
    } else {
        Ok(())
    }
}

/// The place of a new pool is within the pools or just behind them.
pub proof fn lemma_insert_position_bounds(pools: Seq<PoolView>, name: Seq<char>)
    ensures
        0 <= insert_position(pools, name) <= pools.len(),
    decreases pools.len(),
{
    if pools.len() > 0 {
        lemma_insert_position_bounds(pools.drop_last(), name);
    }
}

/// A store that is in order stays so where a new pool is put at its place.
pub proof fn lemma_pools_with_wf(s: StoreView, name: Seq<char>, value_type: ValueType, txn: u64)
    requires
        s.wf(),
        s.knows(txn),
    ensures
        (StoreView { pools: pools_with(s, name, value_type, txn), ..s }).wf(),
        (StoreView { pools: pools_with(s, name, value_type, txn), ..s }).has_pool(name),
{
    let t = StoreView { pools: pools_with(s, name, value_type, txn), ..s };
    if s.has_pool(name) {
    } else {
        let pos = insert_position(s.pools, name);
        lemma_insert_position_bounds(s.pools, name);
        lemma_insert_position_splits(s.pools, name);
        let p = PoolView { name, value_type, created_by: Some(txn) };
        assert(t.pools[pos] == p);
        assert forall|i: int, j: int| 0 <= i < j < t.pools.len() implies text_lt(
            (#[trigger] t.pools[i]).name,
            (#[trigger] t.pools[j]).name,
        ) by {
            if j < pos {
                assert(t.pools[i] == s.pools[i] && t.pools[j] == s.pools[j]);
            } else if j == pos {
                assert(t.pools[i] == s.pools[i]);
            } else if i < pos {
                assert(t.pools[i] == s.pools[i] && t.pools[j] == s.pools[j - 1]);
                lemma_text_lt_total(name, s.pools[j - 1].name);
                lemma_text_lt_transitive(s.pools[i].name, name, s.pools[j - 1].name);
            } else if i == pos {
                assert(t.pools[j] == s.pools[j - 1]);
                lemma_text_lt_total(name, s.pools[j - 1].name);
            } else {
                assert(t.pools[i] == s.pools[i - 1] && t.pools[j] == s.pools[j - 1]);
            }
        }
        assert forall|a: int| 0 <= a < t.values.len() implies t.has_pool_for(#[trigger] t.values[a]) by {
            assert(s.has_pool_for(s.values[a]));
            let k = choose|k: int| 0 <= k < s.pools.len() && (#[trigger] s.pools[k]).admits(s.values[a]);
            if k < pos {
                assert(t.pools[k] == s.pools[k]);
                assert(t.pools[k].admits(t.values[a]));
            } else {
                assert(t.pools[k + 1] == s.pools[k]);
                assert(t.pools[k + 1].admits(t.values[a]));
            }
        }
        assert forall|k: int| 0 <= k < t.pools.len() implies ((#[trigger] t.pools[k]).created_by matches Some(
            c,
        ) ==> c < t.next_txn) by {
            if k < pos {
                assert(t.pools[k] == s.pools[k]);
            } else if k > pos {
                assert(t.pools[k] == s.pools[k - 1]);
            }
        }
    }
}

/// The pools before the place of a new pool have names that come before
/// its name, and none behind it has.
pub proof fn lemma_insert_position_splits(pools: Seq<PoolView>, name: Seq<char>)
    requires
        forall|i: int, j: int|
            0 <= i < j < pools.len() ==> text_lt((#[trigger] pools[i]).name, (#[trigger] pools[j]).name),
    ensures
        forall|i: int|
            0 <= i < insert_position(pools, name) ==> text_lt((#[trigger] pools[i]).name, name),
        forall|i: int|
            insert_position(pools, name) <= i < pools.len() ==> !text_lt(
                (#[trigger] pools[i]).name,
                name,
            ),
    decreases pools.len(),
{
    if pools.len() > 0 {
        let last = pools.len() - 1;
        if text_lt(pools.last().name, name) {
            assert forall|i: int| 0 <= i < pools.len() implies text_lt(
                (#[trigger] pools[i]).name,
                name,
            ) by {
                if i < last {
                    assert(text_lt(pools[i].name, pools[last].name));
                    lemma_text_lt_transitive(pools[i].name, pools[last].name, name);
                }
            }
        } else {
            let front = pools.drop_last();
            assert forall|i: int, j: int| 0 <= i < j < front.len() implies text_lt(
                (#[trigger] front[i]).name,
                (#[trigger] front[j]).name,
            ) by {
                assert(front[i] == pools[i] && front[j] == pools[j]);
            }
            lemma_insert_position_splits(front, name);
            lemma_insert_position_bounds(front, name);
            assert forall|i: int| 0 <= i < insert_position(pools, name) implies text_lt(
                (#[trigger] pools[i]).name,
                name,
            ) by {
                assert(front[i] == pools[i]);
            }
            assert forall|i: int| insert_position(pools, name) <= i < pools.len() implies !text_lt(
                (#[trigger] pools[i]).name,
                name,
            ) by {
                if i < last {
                    assert(front[i] == pools[i]);
                }
            }
        }
    }
}

/// Makes sure, in the name of the transaction `txn`, that there is a pool
/// `name` with values of the type `value_type`. The values and the
/// transactions are as before, and so are the pools where an error is
/// reported.
pub fn ensure(store: &mut Store, txn: u64, name: &str, value_type: ValueType) -> (r: Result<
    (),
    ResourcePoolError,
>)
    requires
        old(store)@.wf(),
    ensures
        final(store)@.wf(),
        r == ensure_verdict(old(store)@, name@, value_type, txn),
        final(store)@.values == old(store)@.values,
        final(store)@.next_txn == old(store)@.next_txn,
        final(store)@.pools == if r is Ok {
            pools_with(old(store)@, name@, value_type, txn)
        } else {
            old(store)@.pools
        },
{
    match ensure_at(store, txn, name, value_type) {
        Ok(_) => Ok(()),
        Err(e) => Err(e),
    }
}

/// Makes sure of the pool as `ensure` does, and gives the place of the
/// pool among the pools.
pub(crate) fn ensure_at(store: &mut Store, txn: u64, name: &str, value_type: ValueType) -> (r: Result<
    usize,
    ResourcePoolError,
>)
    requires
        old(store)@.wf(),
    ensures
        final(store)@.wf(),
        match r {
            Ok(k) => {
                &&& ensure_verdict(old(store)@, name@, value_type, txn) is Ok
                &&& k < final(store)@.pools.len()
                &&& final(store)@.pools[k as int].name == name@
                &&& final(store)@.pools[k as int].value_type == value_type
                &&& final(store)@.pools[k as int].visible_to(txn)
            },
            Err(e) => ensure_verdict(old(store)@, name@, value_type, txn) == Err::<
                (),
                ResourcePoolError,
            >(e),
        },
        final(store)@.values == old(store)@.values,
        final(store)@.next_txn == old(store)@.next_txn,
        final(store)@.pools == if r is Ok {
            pools_with(old(store)@, name@, value_type, txn)
        } else {
            old(store)@.pools
        },
{
    if txn >= store.next_txn {
        return Err(ResourcePoolError::Store);
    }
    let ghost before = store@;
    match store.find_pool(name) {
        Some(k) => {
            proof {
                lemma_pool_type(before, k as int);
                assert(before.has_pool(name@));
                if before.sees_pool(name@, txn) {
                    let c = choose|c: int|
                        0 <= c < before.pools.len() && (#[trigger] before.pools[c]).name == name@
                            && before.pools[c].visible_to(txn);
                    crate::store::lemma_pool_names_differ(before, c, k as int);
                }
            }
            let visible = match store.pools[k].created_by {
                Some(c) => c == txn,
                None => true,
            };
            if !visible {
                return Err(ResourcePoolError::Store);
            }
            assert(before.sees_pool(name@, txn));
            if store.pools[k].value_type != value_type {
                return Err(ResourcePoolError::TypeMismatch);
            }
            Ok(k)
        },
        None => {
            assert(!before.has_pool(name@));
            let mut pos: usize = store.pools.len();
            proof {
                assert(before.pools.take(pos as int) =~= before.pools);
            }
            while pos > 0 && !text_less(store.pools[pos - 1].name.as_str(), name)
                invariant
                    store@ == before,
                    pos <= store.pools.len(),
                    store.pools.len() == before.pools.len(),
                    insert_position(before.pools, name@) == insert_position(
                        before.pools.take(pos as int),
                        name@,
                    ),
                decreases pos,
            {
                proof {
                    assert(before.pools.take(pos as int).drop_last() =~= before.pools.take(pos - 1));
                    assert(before.pools.take(pos as int).last() == before.pools[pos - 1]);
                }
                pos = pos - 1;
            }
            proof {
                if pos > 0 {
                    assert(before.pools.take(pos as int).last() == before.pools[pos - 1]);
                }
                assert(insert_position(before.pools, name@) == pos);
                lemma_pools_with_wf(before, name@, value_type, txn);
            }
            store.pools.insert(
                pos,
                Pool { name: name.to_owned(), value_type, created_by: Some(txn) },
            );
            proof {
                assert(store@.pools =~= pools_with(before, name@, value_type, txn));
                assert(store@.values =~= before.values);
            }
            Ok(pos)
        },
    }
}

} // verus!
