//! Counting the values of a pool, and listing all pools.

use crate::error::ResourcePoolError;
use crate::store::{
    lemma_pool_names_differ, lemma_pool_type, PoolValueView, PoolView, Store, StoreView,
};
use crate::strings::same_text;
use crate::value::{
    lemma_natural_lt_irreflexive, lemma_natural_lt_transitive, natural_less, natural_lt, text_lt,
    ValueType,
};
use vstd::prelude::*;

verus! {

/// How many values of a pool are held and how many are free, in all and
/// by the classification of the values.
#[derive(Clone, Copy, Debug, PartialEq, Eq, Structural)]
pub struct ResourcePoolStats {
    pub used: usize,
    pub free: usize,
    pub auto_assign_free: usize,
    pub auto_assign_used: usize,
    pub non_auto_assign_free: usize,
    pub non_auto_assign_used: usize,
}

/// One pool at one moment: its name, its type, the lowest and the highest
/// of its values, and its counts.
#[derive(Debug)]
pub struct ResourcePoolSnapshot {
    pub name: String,
    pub value_type: ValueType,
    /// The canonical text of the lowest value; empty where the pool has no
    /// value.
    pub min: String,
    /// The canonical text of the highest value; empty where the pool has
    /// no value.
    pub max: String,
    pub stats: ResourcePoolStats,
}

/// Whether `txn` sees the row as a value of the pool `name` with the
/// classification `auto_assignable` that is held (`used`) or free.
pub open spec fn counts_as(
    row: PoolValueView,
    name: Seq<char>,
    txn: u64,
    auto_assignable: bool,
    used: bool,
) -> bool {
    &&& row.seen_in(name, txn)
    &&& row.auto_assignable == auto_assignable
    &&& (row.allocation_for(txn) is Some) == used
}

/// How many of the rows count as values of the pool `name` with the
/// classification `auto_assignable` that are held (`used`) or free.
pub open spec fn count_rows(
    values: Seq<PoolValueView>,
    name: Seq<char>,
    txn: u64,
    auto_assignable: bool,
    used: bool,
) -> nat
    decreases values.len(),
{
    if values.len() == 0 {
        0
    } else {
        count_rows(values.drop_last(), name, txn, auto_assignable, used) + if counts_as(
            values.last(),
            name,
            txn,
            auto_assignable,
            used,
        ) {
            1nat
        } else {
            0nat
        }
    }
}

/// How many of the rows `txn` sees as values of the pool `name`.
pub open spec fn count_seen(values: Seq<PoolValueView>, name: Seq<char>, txn: u64) -> nat
    decreases values.len(),
{
    if values.len() == 0 {
        0
    } else {
        count_seen(values.drop_last(), name, txn) + if values.last().seen_in(name, txn) {
            1nat
        } else {
            0nat
        }
    }
}

/// Whether `st` holds the counts of the pool `name` as `txn` sees it.
pub open spec fn is_stats_of(
    st: ResourcePoolStats,
    values: Seq<PoolValueView>,
    name: Seq<char>,
    txn: u64,
) -> bool {
    &&& st.auto_assign_used == count_rows(values, name, txn, true, true)
    &&& st.auto_assign_free == count_rows(values, name, txn, true, false)
    &&& st.non_auto_assign_used == count_rows(values, name, txn, false, true)
    &&& st.non_auto_assign_free == count_rows(values, name, txn, false, false)
    &&& st.used == st.auto_assign_used + st.non_auto_assign_used
    &&& st.free == st.auto_assign_free + st.non_auto_assign_free
}

/// Every value that is seen in a pool is counted once: as held or as free,
/// and with one classification or the other.
pub proof fn lemma_counts_add_up(values: Seq<PoolValueView>, name: Seq<char>, txn: u64)
    ensures
        count_seen(values, name, txn) == count_rows(values, name, txn, true, true) + count_rows(
            values,
            name,
            txn,
            true,
            false,
        ) + count_rows(values, name, txn, false, true) + count_rows(values, name, txn, false, false),
        count_seen(values, name, txn) <= values.len(),
    decreases values.len(),
{
    if values.len() > 0 {
        lemma_counts_add_up(values.drop_last(), name, txn);
    }
}

/// The counts of the pool `name` as the transaction `txn` sees it, where
/// it sees the pool. A number that no transaction bears sees what is
/// committed.
pub fn stats(store: &Store, txn: u64, name: &str) -> (r: Result<ResourcePoolStats, ResourcePoolError>)
    requires
        store@.wf(),
    ensures
        match r {
            Ok(st) => store@.sees_pool(name@, txn) && is_stats_of(st, store@.values, name@, txn),
            Err(e) => e == ResourcePoolError::PoolUnknown && !store@.sees_pool(name@, txn),
        },
{
    match store.find_pool(name) {
        Some(k) => {
            let visible = match store.pools[k].created_by {
                Some(c) => c == txn,
                None => true,
            };
            if !visible {
                proof {
                    if store@.sees_pool(name@, txn) {
                        let c = choose|c: int|
                            0 <= c < store@.pools.len() && (#[trigger] store@.pools[c]).name == name@
                                && store@.pools[c].visible_to(txn);
                        lemma_pool_names_differ(store@, c, k as int);
                    }
                }
                return Err(ResourcePoolError::PoolUnknown);
            }
            assert(store@.sees_pool(name@, txn));
        },
        None => {
            return Err(ResourcePoolError::PoolUnknown);
        },
    }
    Ok(count_pool(store, txn, name))
}

/// The counts of the pool `name` as `txn` sees it.
fn count_pool(store: &Store, txn: u64, name: &str) -> (st: ResourcePoolStats)
    ensures
        is_stats_of(st, store@.values, name@, txn),
{
    let mut auto_used: usize = 0;
    let mut auto_free: usize = 0;
    let mut manual_used: usize = 0;
    let mut manual_free: usize = 0;
    let mut i: usize = 0;
    let ghost rows = store@.values;
    proof {
        assert(rows.take(0) =~= Seq::<PoolValueView>::empty());
    }
    while i < store.values.len()
        invariant
            i <= store.values.len(),
            rows == store@.values,
            rows.len() == store.values.len(),
            auto_used == count_rows(rows.take(i as int), name@, txn, true, true),
            auto_free == count_rows(rows.take(i as int), name@, txn, true, false),
            manual_used == count_rows(rows.take(i as int), name@, txn, false, true),
            manual_free == count_rows(rows.take(i as int), name@, txn, false, false),
            auto_used + auto_free + manual_used + manual_free <= i,
        decreases store.values.len() - i,
    {
        proof {
            assert(rows.take(i + 1).drop_last() =~= rows.take(i as int));
            assert(rows.take(i + 1).last() == rows[i as int]);
        }
        let row = &store.values[i];
        if same_text(row.pool_name.as_str(), name) && row.is_visible_to(txn) {
            let free = row.is_free_for(txn);
            if row.auto_assignable {
                if free {
                    auto_free = auto_free + 1;
                } else {
                    auto_used = auto_used + 1;
                }
            } else {
                if free {
                    manual_free = manual_free + 1;
                } else {
                    manual_used = manual_used + 1;
                }
            }
        }
        i = i + 1;
    }
    proof {
        assert(rows.take(i as int) =~= rows);
    }
    ResourcePoolStats {
        used: auto_used + manual_used,
        free: auto_free + manual_free,
        auto_assign_free: auto_free,
        auto_assign_used: auto_used,
        non_auto_assign_free: manual_free,
        non_auto_assign_used: manual_used,
    }
}

/// Whether the row at `i` is the lowest of the values that `txn` sees in
/// the pool `name`.
pub open spec fn is_lowest_seen(s: StoreView, i: int, name: Seq<char>, txn: u64) -> bool {
    &&& 0 <= i < s.values.len()
    &&& s.values[i].seen_in(name, txn)
    &&& forall|j: int|
        0 <= j < s.values.len() && (#[trigger] s.values[j]).seen_in(name, txn) ==> !natural_lt(
            s.pool_type(name),
            s.values[j].value,
            s.values[i].value,
        )
}

/// Whether the row at `i` is the highest of the values that `txn` sees in
/// the pool `name`.
pub open spec fn is_highest_seen(s: StoreView, i: int, name: Seq<char>, txn: u64) -> bool {
    &&& 0 <= i < s.values.len()
    &&& s.values[i].seen_in(name, txn)
    &&& forall|j: int|
        0 <= j < s.values.len() && (#[trigger] s.values[j]).seen_in(name, txn) ==> !natural_lt(
            s.pool_type(name),
            s.values[i].value,
            s.values[j].value,
        )
}

/// Whether `min` and `max` are the texts of the lowest and the highest of
/// the values that `txn` sees in the pool `name`; where it sees none, both
/// are empty.
pub open spec fn are_bounds_of(
    s: StoreView,
    name: Seq<char>,
    txn: u64,
    min: Seq<char>,
    max: Seq<char>,
) -> bool {
    if forall|i: int| 0 <= i < s.values.len() ==> !(#[trigger] s.values[i]).seen_in(name, txn) {
        min.len() == 0 && max.len() == 0
    } else {
        exists|lo: int, hi: int|
            {
                &&& #[trigger] is_lowest_seen(s, lo, name, txn)
                &&& #[trigger] is_highest_seen(s, hi, name, txn)
                &&& min == s.values[lo].value
                &&& max == s.values[hi].value
            }
    }
}

/// The canonical texts of the lowest and the highest of the values that the
/// transaction `txn` sees in the pool `name`, in the order of the pool's
/// type. Both are empty where it sees no value.
pub fn bounds(store: &Store, txn: u64, name: &str) -> (r: (String, String))
    requires
        store@.wf(),
    ensures
        are_bounds_of(store@, name@, txn, r.0@, r.1@),
{
    let ghost s = store@;
    let vt = match store.find_pool(name) {
        Some(k) => {
            proof {
                lemma_pool_type(s, k as int);
            }
            store.pools[k].value_type
        },
        None => {
            proof {
                assert forall|i: int| 0 <= i < s.values.len() implies !(#[trigger] s.values[i]).seen_in(
                    name@,
                    txn,
                ) by {
                    crate::store::lemma_row_has_pool(s, i);
                }
            }
            return (String::new(), String::new());
        },
    };
    let mut ends: Option<(usize, usize)> = None;
    let mut i: usize = 0;
    while i < store.values.len()
        invariant
            s == store@,
            i <= store.values.len(),
            store.values.len() == s.values.len(),
            vt == s.pool_type(name@),
            match ends {
                Some((lo, hi)) => {
                    &&& lo < i
                    &&& hi < i
                    &&& s.values[lo as int].seen_in(name@, txn)
                    &&& s.values[hi as int].seen_in(name@, txn)
                    &&& forall|j: int|
                        0 <= j < i && (#[trigger] s.values[j]).seen_in(name@, txn) ==> !natural_lt(
                            vt,
                            s.values[j].value,
                            s.values[lo as int].value,
                        ) && !natural_lt(vt, s.values[hi as int].value, s.values[j].value)
                },
                None => forall|j: int| 0 <= j < i ==> !(#[trigger] s.values[j]).seen_in(name@, txn),
            },
        decreases store.values.len() - i,
    {
        let row = &store.values[i];
        if same_text(row.pool_name.as_str(), name) && row.is_visible_to(txn) {
            proof {
                lemma_natural_lt_irreflexive(vt, s.values[i as int].value);
            }
            match ends {
                Some((lo, hi)) => {
                    let mut new_lo = lo;
                    let mut new_hi = hi;
                    if natural_less(vt, row.value.as_str(), store.values[lo].value.as_str()) {
                        new_lo = i;
                    }
                    if natural_less(vt, store.values[hi].value.as_str(), row.value.as_str()) {
                        new_hi = i;
                    }
                    proof {
                        assert forall|j: int|
                            0 <= j < i + 1 && (#[trigger] s.values[j]).seen_in(
                                name@,
                                txn,
                            ) implies !natural_lt(vt, s.values[j].value, s.values[new_lo as int].value)
                            && !natural_lt(vt, s.values[new_hi as int].value, s.values[j].value) by {
                            if j < i {
                                if natural_lt(vt, s.values[j].value, s.values[new_lo as int].value) {
                                    lemma_natural_lt_transitive(
                                        vt,
                                        s.values[j].value,
                                        s.values[i as int].value,
                                        s.values[lo as int].value,
                                    );
                                }
                                if natural_lt(vt, s.values[new_hi as int].value, s.values[j].value) {
                                    lemma_natural_lt_transitive(
                                        vt,
                                        s.values[hi as int].value,
                                        s.values[i as int].value,
                                        s.values[j].value,
                                    );
                                }
                            }
                        }
                    }
                    ends = Some((new_lo, new_hi));
                },
                None => {
                    ends = Some((i, i));
                },
            }
        }
        i = i + 1;
    }
    match ends {
        Some((lo, hi)) => {
            assert(is_lowest_seen(s, lo as int, name@, txn));
            assert(is_highest_seen(s, hi as int, name@, txn));
            (store.values[lo].value.clone(), store.values[hi].value.clone())
        },
        None => (String::new(), String::new()),
    }
}

/// The pools that `txn` sees, in their order.
pub open spec fn seen_pools(pools: Seq<PoolView>, txn: u64) -> Seq<PoolView>
    decreases pools.len(),
{
    if pools.len() == 0 {
        Seq::empty()
    } else {
        let front = seen_pools(pools.drop_last(), txn);
        if pools.last().visible_to(txn) {
            front.push(pools.last())
        } else {
            front
        }
    }
}

/// The pools that a transaction sees are pools of the store, and they
/// stand in the order of their names.
pub proof fn lemma_seen_pools_in_order(pools: Seq<PoolView>, txn: u64)
    requires
        forall|i: int, j: int|
            0 <= i < j < pools.len() ==> text_lt((#[trigger] pools[i]).name, (#[trigger] pools[j]).name),
    ensures
        forall|a: int|
            0 <= a < seen_pools(pools, txn).len() ==> exists|i: int|
                0 <= i < pools.len() && #[trigger] seen_pools(pools, txn)[a] == pools[i],
        forall|a: int, b: int|
            0 <= a < b < seen_pools(pools, txn).len() ==> text_lt(
                (#[trigger] seen_pools(pools, txn)[a]).name,
                (#[trigger] seen_pools(pools, txn)[b]).name,
            ),
    decreases pools.len(),
{
    if pools.len() > 0 {
        let front = pools.drop_last();
        let last = pools.len() - 1;
        assert forall|i: int, j: int| 0 <= i < j < front.len() implies text_lt(
            (#[trigger] front[i]).name,
            (#[trigger] front[j]).name,
        ) by {
            assert(front[i] == pools[i] && front[j] == pools[j]);
        }
        lemma_seen_pools_in_order(front, txn);
        let seen = seen_pools(pools, txn);
        let before = seen_pools(front, txn);
        assert forall|a: int| 0 <= a < seen.len() implies exists|i: int|
            0 <= i < pools.len() && #[trigger] seen[a] == pools[i] by {
            if a < before.len() {
                let i = choose|i: int| 0 <= i < front.len() && before[a] == front[i];
                assert(seen[a] == pools[i]);
            } else {
                assert(seen[a] == pools[last]);
            }
        }
        assert forall|a: int, b: int| 0 <= a < b < seen.len() implies text_lt(
            (#[trigger] seen[a]).name,
            (#[trigger] seen[b]).name,
        ) by {
            if b < before.len() {
                assert(seen[a] == before[a] && seen[b] == before[b]);
            } else {
                let i = choose|i: int| 0 <= i < front.len() && before[a] == front[i];
                assert(seen[a] == pools[i] && seen[b] == pools[last]);
            }
        }
    }
}

/// Whether `snapshot` shows the pool `pool` of the store `s` as `txn` sees
/// it.
pub open spec fn is_snapshot_of(
    snapshot: ResourcePoolSnapshot,
    s: StoreView,
    pool: PoolView,
    txn: u64,
) -> bool {
    &&& snapshot.name@ == pool.name
    &&& snapshot.value_type == pool.value_type
    &&& are_bounds_of(s, pool.name, txn, snapshot.min@, snapshot.max@)
    &&& is_stats_of(snapshot.stats, s.values, pool.name, txn)
}

/// A snapshot of every pool that the transaction `txn` sees, in the order
/// of the names of the pools.
pub fn all(store: &Store, txn: u64) -> (r: Vec<ResourcePoolSnapshot>)
    requires
        store@.wf(),
    ensures
        r@.len() == seen_pools(store@.pools, txn).len(),
        forall|a: int|
            0 <= a < r@.len() ==> is_snapshot_of(
                #[trigger] r@[a],
                store@,
                seen_pools(store@.pools, txn)[a],
                txn,
            ),
        forall|a: int, b: int|
            0 <= a < b < r@.len() ==> text_lt((#[trigger] r@[a]).name@, (#[trigger] r@[b]).name@),
{
    let mut out: Vec<ResourcePoolSnapshot> = Vec::new();
    let mut k: usize = 0;
    let ghost s = store@;
    proof {
        assert(s.pools.take(0) =~= Seq::<PoolView>::empty());
    }
    while k < store.pools.len()
        invariant
            s == store@,
            s.wf(),
            k <= store.pools.len(),
            store.pools.len() == s.pools.len(),
            out@.len() == seen_pools(s.pools.take(k as int), txn).len(),
            forall|a: int|
                0 <= a < out@.len() ==> is_snapshot_of(
                    #[trigger] out@[a],
                    s,
                    seen_pools(s.pools.take(k as int), txn)[a],
                    txn,
                ),
        decreases store.pools.len() - k,
    {
        proof {
            assert(s.pools.take(k + 1).drop_last() =~= s.pools.take(k as int));
            assert(s.pools.take(k + 1).last() == s.pools[k as int]);
        }
        let pool = &store.pools[k];
        let visible = match pool.created_by {
            Some(c) => c == txn,
            None => true,
        };
        if visible {
            let name = pool.name.as_str();
            let (min, max) = bounds(store, txn, name);
            let stats = count_pool(store, txn, name);
            let ghost before = out@;
            out.push(
                ResourcePoolSnapshot { name: pool.name.clone(), value_type: pool.value_type, min, max, stats },
            );
            proof {
                assert forall|a: int| 0 <= a < out@.len() implies is_snapshot_of(
                    #[trigger] out@[a],
                    s,
                    seen_pools(s.pools.take(k + 1), txn)[a],
                    txn,
                ) by {
                    if a < before.len() {
                        assert(out@[a] == before[a]);
                    }
                }
            }
        }
        k = k + 1;
    }
    proof {
        assert(s.pools.take(k as int) =~= s.pools);
        lemma_seen_pools_in_order(s.pools, txn);
    }
    out
}

} // verus!
