//! Putting values into a pool.

use crate::error::ResourcePoolError;
use crate::registry::{ensure_at, ensure_verdict, pools_with};
use crate::store::{
    Pending, PendingView, PoolValue, PoolValueView, ResourcePool, Store, StoreView,
};
use crate::value::{check_canonical, is_canonical, ValueType};
use vstd::prelude::*;

verus! {

/// Whether one of the rows is the value `value` of the pool `name`.
pub open spec fn has_value(rows: Seq<PoolValueView>, name: Seq<char>, value: Seq<char>) -> bool {
    exists|i: int| 0 <= i < rows.len() && (#[trigger] rows[i]).is_value(name, value)
}

/// The row of a value that `txn` has just inserted: free, and not yet
/// committed.
pub open spec fn fresh_row(
    name: Seq<char>,
    value: Seq<char>,
    auto_assignable: bool,
    txn: u64,
) -> PoolValueView {
    PoolValueView {
        pool_name: name,
        value,
        auto_assignable,
        allocation: None,
        pending: Some(PendingView { txn, created: true, allocation: None }),
    }
}

/// The rows after `txn` has put `values` into the pool `name`, one after
/// the other: a value that has a row already, whoever inserted it and
/// however it is classified, is passed over; any other gets a fresh row
/// behind the rows that are there.
pub open spec fn populated(
    rows: Seq<PoolValueView>,
    name: Seq<char>,
    values: Seq<Seq<char>>,
    auto_assignable: bool,
    txn: u64,
) -> Seq<PoolValueView>
    decreases values.len(),
{
    if values.len() == 0 {
        rows
    } else {
        let before = populated(rows, name, values.drop_last(), auto_assignable, txn);
        if has_value(before, name, values.last()) {
            before
        } else {
            before.push(fresh_row(name, values.last(), auto_assignable, txn))
        }
    }
}

/// Whether every one of `values` is the canonical text of a value of type
/// `value_type`.
pub open spec fn all_canonical(value_type: ValueType, values: Seq<Seq<char>>) -> bool {
    forall|i: int| 0 <= i < values.len() ==> is_canonical(value_type, #[trigger] values[i])
}

/// Whether `txn` can put `values` into the pool `name` of type
/// `value_type`, and if not, why not: because one of the values is not of
/// the pool's type, or for the reasons for which the pool cannot be had.
pub open spec fn populate_verdict(
    s: StoreView,
    name: Seq<char>,
    value_type: ValueType,
    values: Seq<Seq<char>>,
    txn: u64,
) -> Result<(), ResourcePoolError> {
    if !all_canonical(value_type, values) {
        Err(ResourcePoolError::TypeMismatch)
    } else {
        ensure_verdict(s, name, value_type, txn)
    }
}

/// A store that is in order stays so where a transaction inserts a value
/// that has no row yet into a pool that it sees.
pub proof fn lemma_push_fresh_wf(
    s: StoreView,
    k: int,
    value: Seq<char>,
    auto_assignable: bool,
    txn: u64,
)
    requires
        s.wf(),
        s.knows(txn),
        0 <= k < s.pools.len(),
        s.pools[k].visible_to(txn),
        is_canonical(s.pools[k].value_type, value),
        !has_value(s.values, s.pools[k].name, value),
    ensures
        (StoreView {
            values: s.values.push(fresh_row(s.pools[k].name, value, auto_assignable, txn)),
            ..s
        }).wf(),
{
    let row = fresh_row(s.pools[k].name, value, auto_assignable, txn);
    let t = StoreView { values: s.values.push(row), ..s };
    assert forall|a: int, b: int| 0 <= a < b < t.values.len() implies !(#[trigger] t.values[a]).is_value(
        (#[trigger] t.values[b]).pool_name,
        t.values[b].value,
    ) by {
        if b < s.values.len() {
            assert(!s.values[a].is_value(s.values[b].pool_name, s.values[b].value));
        } else {
            assert(t.values[a] == s.values[a]);
        }
    }
    assert forall|a: int| 0 <= a < t.values.len() implies t.has_pool_for(#[trigger] t.values[a]) by {
        if a < s.values.len() {
            assert(s.has_pool_for(s.values[a]));
            let c = choose|c: int| 0 <= c < s.pools.len() && (#[trigger] s.pools[c]).admits(s.values[a]);
            assert(t.pools[c].admits(t.values[a]));
        } else {
            assert(t.pools[k].admits(row));
        }
    }
    assert forall|a: int| 0 <= a < t.values.len() implies ((#[trigger] t.values[a]).pending matches Some(
        p,
    ) ==> p.txn < t.next_txn) by {
        if a < s.values.len() {
            assert(s.values[a].pending matches Some(p) ==> p.txn < s.next_txn);
        }
    }
}

/// Puts `values` into the pool, in the name of the transaction `txn`, each
/// with the classification `auto_assignable`. The pool is registered where
/// it is not yet. A value that occurs twice is put in once, and a value
/// that the pool holds already is left as it is. Nothing changes where an
/// error is reported.
pub fn populate(
    pool: &ResourcePool,
    store: &mut Store,
    txn: u64,
    values: Vec<String>,
    auto_assignable: bool,
) -> (r: Result<(), ResourcePoolError>)
    requires
        old(store)@.wf(),
    ensures
        final(store)@.wf(),
        r == populate_verdict(
            old(store)@,
            pool.spec_name(),
            pool.spec_value_type(),
            values.deep_view(),
            txn,
        ),
        final(store)@ == if r is Ok {
            StoreView {
                pools: pools_with(old(store)@, pool.spec_name(), pool.spec_value_type(), txn),
                values: populated(
                    old(store)@.values,
                    pool.spec_name(),
                    values.deep_view(),
                    auto_assignable,
                    txn,
                ),
                next_txn: old(store)@.next_txn,
            }
        } else {
            old(store)@
        },
{
    let ghost before = store@;
    let ghost texts = values.deep_view();
    let name = pool.name();
    let vt = pool.value_type();
    let mut i: usize = 0;
    while i < values.len()
        invariant
            i <= values.len(),
            texts == values.deep_view(),
            store@ == before,
            before == old(store)@,
            before.wf(),
            vt == pool.spec_value_type(),
            forall|j: int| 0 <= j < i ==> is_canonical(vt, #[trigger] texts[j]),
        decreases values.len() - i,
    {
        if !check_canonical(values[i].as_str(), vt) {
            assert(!is_canonical(vt, texts[i as int]));
            return Err(ResourcePoolError::TypeMismatch);
        }
        i = i + 1;
    }
    assert(all_canonical(vt, texts));
    let k = match ensure_at(store, txn, name, vt) {
        Ok(k) => k,
        Err(e) => {
            return Err(e);
        },
    };
    let ghost mid = store@;
    proof {
        assert(texts.take(0) =~= Seq::<Seq<char>>::empty());
    }
    let mut i: usize = 0;
    while i < values.len()
        invariant
            i <= values.len(),
            texts == values.deep_view(),
            all_canonical(vt, texts),
            store@.wf(),
            store@.knows(txn),
            store@.pools == mid.pools,
            store@.next_txn == mid.next_txn,
            k < mid.pools.len(),
            mid.pools[k as int].name == name@,
            mid.pools[k as int].value_type == vt,
            mid.pools[k as int].visible_to(txn),
            store@.values == populated(before.values, name@, texts.take(i as int), auto_assignable, txn),
        decreases values.len() - i,
    {
        let ghost cur = store@;
        proof {
            assert(texts.take(i + 1).drop_last() =~= texts.take(i as int));
            assert(texts.take(i + 1).last() == texts[i as int]);
            assert(is_canonical(vt, texts[i as int]));
        }
        match store.find_value(name, values[i].as_str()) {
            Some(_) => {
                assert(has_value(cur.values, name@, texts[i as int]));
            },
            None => {
                assert(!has_value(cur.values, name@, texts[i as int]));
                proof {
                    lemma_push_fresh_wf(cur, k as int, texts[i as int], auto_assignable, txn);
                }
                store.values.push(
                    PoolValue {
                        pool_name: name.to_owned(),
                        value: values[i].clone(),
                        auto_assignable,
                        allocation: None,
                        pending: Some(Pending { txn, created: true, allocation: None }),
                    },
                );
                proof {
                    assert(store@.values =~= cur.values.push(
                        fresh_row(name@, texts[i as int], auto_assignable, txn),
                    ));
                    assert(store@.pools =~= cur.pools);
                }
            },
        }
        i = i + 1;
    }
    proof {
        assert(texts.take(values.len() as int) =~= texts);
    }
    Ok(())
}

} // verus!
