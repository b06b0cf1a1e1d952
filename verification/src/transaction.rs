//! The end of a transaction: commit and rollback.

use crate::store::{PoolValueView, PoolView, Store, StoreView};
use vstd::prelude::*;

verus! {

/// The pool after `txn` has committed.
pub open spec fn committed_pool(p: PoolView, txn: u64) -> PoolView {
    if p.created_by == Some(txn) {
        PoolView { created_by: None, ..p }
    } else {
        p
    }
}

/// The rows that are left when `txn` rolls back: those that it did not
/// insert, in their order, each without what `txn` did to it.
pub open spec fn rolled_back_values(values: Seq<PoolValueView>, txn: u64) -> Seq<PoolValueView>
    decreases values.len(),
{
    if values.len() == 0 {
        Seq::empty()
    } else {
        let front = rolled_back_values(values.drop_last(), txn);
        if values.last().created_by(txn) {
            front
        } else {
            front.push(values.last().abandoned_by(txn))
        }
    }
}

/// The pools that are left when `txn` rolls back: those that it did not
/// register, in their order.
pub open spec fn rolled_back_pools(pools: Seq<PoolView>, txn: u64) -> Seq<PoolView>
    decreases pools.len(),
{
    if pools.len() == 0 {
        Seq::empty()
    } else {
        let front = rolled_back_pools(pools.drop_last(), txn);
        if pools.last().created_by == Some(txn) {
            front
        } else {
            front.push(pools.last())
        }
    }
}

impl StoreView {
    /// The tables after `txn` has committed: what it did is now what every
    /// transaction sees, and it holds no lock.
    pub open spec fn committed(self, txn: u64) -> StoreView {
        StoreView {
            pools: Seq::new(self.pools.len(), |k: int| committed_pool(self.pools[k], txn)),
            values: Seq::new(self.values.len(), |i: int| self.values[i].committed_by(txn)),
            next_txn: self.next_txn,
        }
    }

    /// The tables after `txn` has rolled back: what it did is gone, and it
    /// holds no lock.
    pub open spec fn rolled_back(self, txn: u64) -> StoreView {
        StoreView {
            pools: rolled_back_pools(self.pools, txn),
            values: rolled_back_values(self.values, txn),
            next_txn: self.next_txn,
        }
    }
}

/// The place in `values` of the row that is at `a` after `txn` has rolled
/// back.
pub open spec fn value_source(values: Seq<PoolValueView>, txn: u64, a: int) -> int
    decreases values.len(),
{
    if values.len() == 0 {
        0
    } else if !values.last().created_by(txn) && a == rolled_back_values(values.drop_last(), txn).len() {
        values.len() - 1
    } else {
        value_source(values.drop_last(), txn, a)
    }
}

/// Every row that is left after a rollback is a row from before, without
/// what the transaction did to it; and the rows are left in their order.
pub proof fn lemma_value_source(values: Seq<PoolValueView>, txn: u64, a: int)
    requires
        0 <= a < rolled_back_values(values, txn).len(),
    ensures
        0 <= value_source(values, txn, a) < values.len(),
        !values[value_source(values, txn, a)].created_by(txn),
        rolled_back_values(values, txn)[a] == values[value_source(values, txn, a)].abandoned_by(txn),
        forall|b: int|
            a < b < rolled_back_values(values, txn).len() ==> value_source(values, txn, a)
                < #[trigger] value_source(values, txn, b),
    decreases values.len(),
{
    if values.len() > 0 {
        let front = values.drop_last();
        let n = rolled_back_values(front, txn).len();
        if a < n {
            lemma_value_source(front, txn, a);
        }
        assert forall|b: int| a < b < rolled_back_values(values, txn).len() implies value_source(
            values,
            txn,
            a,
        ) < #[trigger] value_source(values, txn, b) by {
            if b < n {
                lemma_value_source(front, txn, b);
            }
        }
    }
}

/// The place in `pools` of the pool that is at `a` after `txn` has rolled
/// back.
pub open spec fn pool_source(pools: Seq<PoolView>, txn: u64, a: int) -> int
    decreases pools.len(),
{
    if pools.len() == 0 {
        0
    } else if pools.last().created_by != Some(txn) && a == rolled_back_pools(
        pools.drop_last(),
        txn,
    ).len() {
        pools.len() - 1
    } else {
        pool_source(pools.drop_last(), txn, a)
    }
}

/// Every pool that is left after a rollback is a pool from before; and
/// the pools are left in their order.
pub proof fn lemma_pool_source(pools: Seq<PoolView>, txn: u64, a: int)
    requires
        0 <= a < rolled_back_pools(pools, txn).len(),
    ensures
        0 <= pool_source(pools, txn, a) < pools.len(),
        pools[pool_source(pools, txn, a)].created_by != Some(txn),
        rolled_back_pools(pools, txn)[a] == pools[pool_source(pools, txn, a)],
        forall|b: int|
            a < b < rolled_back_pools(pools, txn).len() ==> pool_source(pools, txn, a)
                < #[trigger] pool_source(pools, txn, b),
    decreases pools.len(),
{
    if pools.len() > 0 {
        let front = pools.drop_last();
        let n = rolled_back_pools(front, txn).len();
        if a < n {
            lemma_pool_source(front, txn, a);
        }
        assert forall|b: int| a < b < rolled_back_pools(pools, txn).len() implies pool_source(
            pools,
            txn,
            a,
        ) < #[trigger] pool_source(pools, txn, b) by {
            if b < n {
                lemma_pool_source(front, txn, b);
            }
        }
    }
}

/// Every pool that the transaction did not register is left after its
/// rollback.
pub proof fn lemma_pool_survives(pools: Seq<PoolView>, txn: u64, k: int)
    requires
        0 <= k < pools.len(),
        pools[k].created_by != Some(txn),
    ensures
        exists|a: int|
            0 <= a < rolled_back_pools(pools, txn).len() && #[trigger] rolled_back_pools(pools, txn)[a]
                == pools[k],
    decreases pools.len(),
{
    let front = pools.drop_last();
    let rb = rolled_back_pools(pools, txn);
    if k == pools.len() - 1 {
        assert(rb[rb.len() - 1] == pools[k]);
    } else {
        lemma_pool_survives(front, txn, k);
        let a = choose|a: int|
            0 <= a < rolled_back_pools(front, txn).len() && #[trigger] rolled_back_pools(front, txn)[a]
                == front[k];
        assert(rb[a] == pools[k]);
    }
}

/// A store that is in order is in order after a commit, and the
/// transaction then holds no lock.
pub proof fn lemma_committed_wf(s: StoreView, txn: u64)
    requires
        s.wf(),
    ensures
        s.committed(txn).wf(),
        s.committed(txn).untouched_by(txn),
{
    let t = s.committed(txn);
    assert forall|i: int, j: int| 0 <= i < j < t.pools.len() implies crate::value::text_lt(
        (#[trigger] t.pools[i]).name,
        (#[trigger] t.pools[j]).name,
    ) by {
        assert(crate::value::text_lt(s.pools[i].name, s.pools[j].name));
    }
    assert forall|a: int, b: int| 0 <= a < b < t.values.len() implies !(#[trigger] t.values[a]).is_value(
        (#[trigger] t.values[b]).pool_name,
        t.values[b].value,
    ) by {
        assert(!s.values[a].is_value(s.values[b].pool_name, s.values[b].value));
    }
    assert forall|a: int| 0 <= a < t.values.len() implies t.has_pool_for(#[trigger] t.values[a]) by {
        assert(s.has_pool_for(s.values[a]));
        let k = choose|k: int| 0 <= k < s.pools.len() && (#[trigger] s.pools[k]).admits(s.values[a]);
        assert(t.pools[k].admits(t.values[a]));
    }
    assert forall|a: int| 0 <= a < t.values.len() implies ((#[trigger] t.values[a]).pending matches Some(
        p,
    ) ==> p.txn < t.next_txn) by {
        assert(s.values[a].pending matches Some(p) ==> p.txn < s.next_txn);
    }
    assert forall|k: int| 0 <= k < t.pools.len() implies ((#[trigger] t.pools[k]).created_by matches Some(
        c,
    ) ==> c < t.next_txn) by {
        assert(s.pools[k].created_by matches Some(c) ==> c < s.next_txn);
    }
}

/// A store that is in order is in order after a rollback, and the
/// transaction then holds no lock.
pub proof fn lemma_rolled_back_wf(s: StoreView, txn: u64)
    requires
        s.wf(),
    ensures
        s.rolled_back(txn).wf(),
        s.rolled_back(txn).untouched_by(txn),
{
    let t = s.rolled_back(txn);
    assert forall|i: int, j: int| 0 <= i < j < t.pools.len() implies crate::value::text_lt(
        (#[trigger] t.pools[i]).name,
        (#[trigger] t.pools[j]).name,
    ) by {
        lemma_pool_source(s.pools, txn, i);
        lemma_pool_source(s.pools, txn, j);
        let si = pool_source(s.pools, txn, i);
        let sj = pool_source(s.pools, txn, j);
        assert(crate::value::text_lt(s.pools[si].name, s.pools[sj].name));
    }
    assert forall|a: int, b: int| 0 <= a < b < t.values.len() implies !(#[trigger] t.values[a]).is_value(
        (#[trigger] t.values[b]).pool_name,
        t.values[b].value,
    ) by {
        lemma_value_source(s.values, txn, a);
        lemma_value_source(s.values, txn, b);
        let sa = value_source(s.values, txn, a);
        let sb = value_source(s.values, txn, b);
        assert(!s.values[sa].is_value(s.values[sb].pool_name, s.values[sb].value));
    }
    assert forall|a: int| 0 <= a < t.values.len() implies t.has_pool_for(#[trigger] t.values[a]) by {
        lemma_value_source(s.values, txn, a);
        let sa = value_source(s.values, txn, a);
        assert(s.has_pool_for(s.values[sa]));
        let k = choose|k: int| 0 <= k < s.pools.len() && (#[trigger] s.pools[k]).admits(s.values[sa]);
        lemma_pool_survives(s.pools, txn, k);
        let c = choose|c: int|
            0 <= c < rolled_back_pools(s.pools, txn).len() && #[trigger] rolled_back_pools(
                s.pools,
                txn,
            )[c] == s.pools[k];
        assert(t.pools[c].admits(t.values[a]));
    }
    assert forall|a: int| 0 <= a < t.values.len() implies ((#[trigger] t.values[a]).pending matches Some(
        p,
    ) ==> p.txn < t.next_txn) by {
        lemma_value_source(s.values, txn, a);
        let sa = value_source(s.values, txn, a);
        assert(s.values[sa].pending matches Some(p) ==> p.txn < s.next_txn);
    }
    assert forall|k: int| 0 <= k < t.pools.len() implies ((#[trigger] t.pools[k]).created_by matches Some(
        c,
    ) ==> c < t.next_txn) by {
        lemma_pool_source(s.pools, txn, k);
        let sk = pool_source(s.pools, txn, k);
        assert(s.pools[sk].created_by matches Some(c) ==> c < s.next_txn);
    }
    assert forall|a: int| 0 <= a < t.values.len() implies !(#[trigger] t.values[a]).locked_by(txn) by {
        lemma_value_source(s.values, txn, a);
    }
    assert forall|k: int| 0 <= k < t.pools.len() implies (#[trigger] t.pools[k]).created_by != Some(
        txn,
    ) by {
        lemma_pool_source(s.pools, txn, k);
    }
}

/// Commits the transaction `txn`: what it did is from now on what every
/// transaction sees, and the locks that it held are free.
pub fn commit(store: &mut Store, txn: u64)
    requires
        old(store)@.wf(),
    ensures
        final(store)@.wf(),
        final(store)@ == old(store)@.committed(txn),
        final(store)@.untouched_by(txn),
{
    let ghost before = store@;
    let mut k: usize = 0;
    while k < store.pools.len()
        invariant
            k <= store.pools.len(),
            store.pools.len() == before.pools.len(),
            store@.values == before.values,
            store@.next_txn == before.next_txn,
            forall|j: int| 0 <= j < k ==> #[trigger] store@.pools[j] == committed_pool(before.pools[j], txn),
            forall|j: int| k <= j < store.pools.len() ==> #[trigger] store@.pools[j] == before.pools[j],
        decreases store.pools.len() - k,
    {
        let mine = match store.pools[k].created_by {
            Some(c) => c == txn,
            None => false,
        };
        let ghost cur = store@.pools;
        if mine {
            store.pools[k].created_by = None;
        }
        proof {
            assert(store@.pools =~= cur.update(k as int, committed_pool(cur[k as int], txn)));
            assert(store@.values =~= before.values);
        }
        k = k + 1;
    }
    proof {
        assert(store@.pools =~= before.committed(txn).pools);
    }
    let mut i: usize = 0;
    while i < store.values.len()
        invariant
            i <= store.values.len(),
            store.values.len() == before.values.len(),
            store@.pools == before.committed(txn).pools,
            store@.next_txn == before.next_txn,
            forall|j: int| 0 <= j < i ==> #[trigger] store@.values[j] == before.values[j].committed_by(txn),
            forall|j: int| i <= j < store.values.len() ==> #[trigger] store@.values[j] == before.values[j],
        decreases store.values.len() - i,
    {
        let mine = match &store.values[i].pending {
            Some(p) => p.txn == txn,
            None => false,
        };
        let ghost cur = store@.values;
        if mine {
            let pending = store.values[i].pending.take();
            match pending {
                Some(p) => {
                    store.values[i].allocation = p.allocation;
                },
                None => {},
            }
        }
        proof {
            assert(store@.values =~= cur.update(i as int, cur[i as int].committed_by(txn)));
            assert(store@.pools =~= before.committed(txn).pools);
        }
        i = i + 1;
    }
    proof {
        assert(store@.values =~= before.committed(txn).values);
        lemma_committed_wf(before, txn);
    }
}

/// Rolls the transaction `txn` back: what it did is gone, and the locks
/// that it held are free.
pub fn rollback(store: &mut Store, txn: u64)
    requires
        old(store)@.wf(),
    ensures
        final(store)@.wf(),
        final(store)@ == old(store)@.rolled_back(txn),
        final(store)@.untouched_by(txn),
{
    let ghost before = store@;
    let ghost mut done: int = 0;
    let mut k: usize = 0;
    proof {
        assert(before.pools.take(0) =~= Seq::<PoolView>::empty());
        assert(before.pools.skip(0) =~= before.pools);
    }
    while k < store.pools.len()
        invariant
            0 <= done <= before.pools.len(),
            k == rolled_back_pools(before.pools.take(done), txn).len(),
            store@.values == before.values,
            store@.next_txn == before.next_txn,
            store@.pools == rolled_back_pools(before.pools.take(done), txn) + before.pools.skip(done),
        decreases before.pools.len() - done,
    {
        proof {
            assert(store@.pools[k as int] == before.pools.skip(done)[0]);
            assert(before.pools.take(done + 1).drop_last() =~= before.pools.take(done));
            assert(before.pools.take(done + 1).last() == before.pools[done]);
        }
        let mine = match store.pools[k].created_by {
            Some(c) => c == txn,
            None => false,
        };
        let ghost cur = store@.pools;
        if mine {
            store.pools.remove(k);
            proof {
                assert(store@.pools =~= cur.remove(k as int));
                assert(cur.remove(k as int) =~= rolled_back_pools(before.pools.take(done + 1), txn)
                    + before.pools.skip(done + 1));
            }
        } else {
            proof {
                assert(cur =~= rolled_back_pools(before.pools.take(done + 1), txn) + before.pools.skip(
                    done + 1,
                ));
            }
            k = k + 1;
        }
        proof {
            done = done + 1;
        }
    }
    proof {
        assert(done == before.pools.len()) by {
            if done < before.pools.len() {
                assert(store@.pools.len() == k + before.pools.len() - done);
            }
        }
        assert(before.pools.take(done) =~= before.pools);
        assert(store@.pools =~= rolled_back_pools(before.pools, txn));
        done = 0;
        assert(before.values.take(0) =~= Seq::<PoolValueView>::empty());
        assert(before.values.skip(0) =~= before.values);
    }
    let mut i: usize = 0;
    while i < store.values.len()
        invariant
            0 <= done <= before.values.len(),
            i == rolled_back_values(before.values.take(done), txn).len(),
            store@.pools == rolled_back_pools(before.pools, txn),
            store@.next_txn == before.next_txn,
            store@.values == rolled_back_values(before.values.take(done), txn) + before.values.skip(
                done,
            ),
        decreases before.values.len() - done,
    {
        proof {
            assert(store@.values[i as int] == before.values.skip(done)[0]);
            assert(before.values.take(done + 1).drop_last() =~= before.values.take(done));
            assert(before.values.take(done + 1).last() == before.values[done]);
        }
        let ghost cur = store@.values;
        if store.values[i].is_created_by(txn) {
            store.values.remove(i);
            proof {
                assert(store@.values =~= cur.remove(i as int));
                assert(cur.remove(i as int) =~= rolled_back_values(before.values.take(done + 1), txn)
                    + before.values.skip(done + 1));
            }
        } else {
            let mine = match &store.values[i].pending {
                Some(p) => p.txn == txn,
                None => false,
            };
            if mine {
                store.values[i].pending = None;
            }
            proof {
                assert(store@.values =~= cur.update(i as int, cur[i as int].abandoned_by(txn)));
                assert(store@.values =~= rolled_back_values(before.values.take(done + 1), txn)
                    + before.values.skip(done + 1));
            }
            i = i + 1;
        }
        proof {
            done = done + 1;
        }
    }
    proof {
        assert(done == before.values.len()) by {
            if done < before.values.len() {
                assert(store@.values.len() == i + before.values.len() - done);
            }
        }
        assert(before.values.take(done) =~= before.values);
        assert(store@.values =~= rolled_back_values(before.values, txn));
        lemma_rolled_back_wf(before, txn);
    }
}

} // verus!
