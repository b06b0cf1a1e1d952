//! What holds of the pools whatever is done with them.

use crate::allocator::{auto_allocated, auto_outcome, manual_outcome, release_outcome};
use crate::definition::{DefinitionView, RangeView};
use crate::error::ResourcePoolError;
use crate::grow::{grown, grown_by};
use crate::owner::{is_held_by, release_owner_verdict, released_rows};
use crate::populate::{all_canonical, fresh_row, has_value, populate_verdict, populated};
use crate::registry::{ensure_verdict, lemma_pools_with_wf, pools_with};
use crate::seeds::{prefix_values, range_values, ranges_values, seed_values};
use crate::stats::{count_rows, count_seen, counts_as, is_stats_of, lemma_counts_add_up, ResourcePoolStats};
use crate::store::{
    lemma_pool_type, lemma_values_differ, lemma_with_allocation_wf, AllocationView, OwnerType,
    PoolValueView, PoolView, StoreView,
};
use crate::transaction::{rolled_back_pools, rolled_back_values};
use crate::value::{decimal_value, parse_integer, parse_ipv4, split_on, ValueType};
use vstd::arithmetic::power2::pow2;
use vstd::prelude::*;

verus! {

/// Every value that a transaction sees in a pool is either held or free:
/// the two counts of the pool add up to the number of its values.
pub proof fn lemma_stats_cover_the_pool(
    st: ResourcePoolStats,
    values: Seq<PoolValueView>,
    name: Seq<char>,
    txn: u64,
)
    requires
        is_stats_of(st, values, name, txn),
    ensures
        st.used + st.free == count_seen(values, name, txn),
        st.used == st.auto_assign_used + st.non_auto_assign_used,
        st.free == st.auto_assign_free + st.non_auto_assign_free,
{
    lemma_counts_add_up(values, name, txn);
}

/// A value of a pool has one row, and so at most one allocation.
pub proof fn lemma_one_allocation_per_value(s: StoreView, i: int, j: int)
    requires
        s.wf(),
        0 <= i < s.values.len(),
        0 <= j < s.values.len(),
        s.values[i].pool_name == s.values[j].pool_name,
        s.values[i].value == s.values[j].value,
    ensures
        i == j,
        s.values[i].allocation == s.values[j].allocation,
{
    lemma_values_differ(s, i, j);
}

/// Two transactions that are open at once are never handed the same value:
/// after one has allocated a value without naming it, the value that the
/// other is handed is another one.
pub proof fn lemma_overlapping_allocations_differ(
    s: StoreView,
    name: Seq<char>,
    first: u64,
    second: u64,
    to_first: AllocationView,
    i: int,
    j: int,
)
    requires
        s.wf(),
        s.knows(first),
        first != second,
        s.is_lowest_candidate(i, name, first),
        s.with_allocation(i, first, Some(to_first)).is_lowest_candidate(j, name, second),
    ensures
        i != j,
        s.values[j].value != s.values[i].value,
{
    let t = s.with_allocation(i, first, Some(to_first));
    assert(t.values[i].locked_by_other(second));
    assert(t.values[j] == s.values[j]);
    if s.values[j].value == s.values[i].value {
        lemma_values_differ(s, i, j);
    }
}

/// A value that one transaction has allocated and not yet committed cannot
/// be allocated by name in another: the other is told of a conflict, and
/// nothing changes.
pub proof fn lemma_uncommitted_allocation_conflicts(
    s: StoreView,
    after: StoreView,
    name: Seq<char>,
    first: u64,
    second: u64,
    to_first: AllocationView,
    to_second: AllocationView,
    i: int,
    r: Result<Seq<char>, ResourcePoolError>,
)
    requires
        s.wf(),
        s.knows(first),
        s.knows(second),
        first != second,
        0 <= i < s.values.len(),
        s.values[i].pool_name == name,
        s.values[i].pending is None,
        manual_outcome(
            s.with_allocation(i, first, Some(to_first)),
            after,
            name,
            s.values[i].value,
            second,
            to_second,
            r,
        ),
    ensures
        r == Err::<Seq<char>, ResourcePoolError>(ResourcePoolError::Conflict),
        after == s.with_allocation(i, first, Some(to_first)),
{
    let t = s.with_allocation(i, first, Some(to_first));
    lemma_with_allocation_wf(s, i, first, Some(to_first));
    assert(t.values[i].is_value(name, s.values[i].value) && t.values[i].visible_to(second));
    let k = choose|k: int|
        {
            &&& 0 <= k < t.values.len()
            &&& (#[trigger] t.values[k]).is_value(name, s.values[i].value)
            &&& if t.values[k].allocation_for(second) is Some || t.values[k].locked_by_other(second) {
                r == Err::<Seq<char>, ResourcePoolError>(ResourcePoolError::Conflict) && after == t
            } else {
                r == Ok::<Seq<char>, ResourcePoolError>(s.values[i].value) && after
                    == t.with_allocation(k, second, Some(to_second))
            }
        };
    lemma_values_differ(t, k, i);
}

/// Rows that agree, place by place, in whether a transaction inserted them
/// and in what is left of them when it rolls back, are left the same by
/// its rollback.
pub proof fn lemma_rolled_back_alike(a: Seq<PoolValueView>, b: Seq<PoolValueView>, txn: u64)
    requires
        a.len() == b.len(),
        forall|i: int|
            0 <= i < a.len() ==> (#[trigger] a[i]).created_by(txn) == b[i].created_by(txn)
                && a[i].abandoned_by(txn) == b[i].abandoned_by(txn),
    ensures
        rolled_back_values(a, txn) == rolled_back_values(b, txn),
    decreases a.len(),
{
    if a.len() > 0 {
        assert forall|i: int| 0 <= i < a.drop_last().len() implies (#[trigger] a.drop_last()[i]).created_by(
            txn,
        ) == b.drop_last()[i].created_by(txn) && a.drop_last()[i].abandoned_by(txn)
            == b.drop_last()[i].abandoned_by(txn) by {
            assert(a.drop_last()[i] == a[i]);
        }
        lemma_rolled_back_alike(a.drop_last(), b.drop_last(), txn);
        assert(a.last() == a[a.len() - 1]);
    }
}

/// A rollback undoes an allocation and a release: the tables after the
/// rollback are what they would be had the transaction not set the
/// allocation of the row.
pub proof fn lemma_rollback_forgets_allocation(
    s: StoreView,
    i: int,
    txn: u64,
    allocation: Option<AllocationView>,
)
    requires
        0 <= i < s.values.len(),
        !s.values[i].locked_by_other(txn),
    ensures
        s.with_allocation(i, txn, allocation).rolled_back(txn) == s.rolled_back(txn),
{
    let t = s.with_allocation(i, txn, allocation);
    assert forall|k: int| 0 <= k < t.values.len() implies (#[trigger] t.values[k]).created_by(txn)
        == s.values[k].created_by(txn) && t.values[k].abandoned_by(txn) == s.values[k].abandoned_by(
        txn,
    ) by {}
    lemma_rolled_back_alike(t.values, s.values, txn);
}

/// The rollback of a transaction that holds no lock and has inserted
/// nothing changes nothing.
pub proof fn lemma_rollback_of_untouched(s: StoreView, txn: u64)
    requires
        s.untouched_by(txn),
    ensures
        s.rolled_back(txn) == s,
{
    lemma_rolled_back_values_untouched(s.values, txn);
    lemma_rolled_back_pools_untouched(s.pools, txn);
}

proof fn lemma_rolled_back_values_untouched(values: Seq<PoolValueView>, txn: u64)
    requires
        forall|i: int| 0 <= i < values.len() ==> !(#[trigger] values[i]).locked_by(txn),
    ensures
        rolled_back_values(values, txn) == values,
    decreases values.len(),
{
    if values.len() > 0 {
        assert forall|i: int| 0 <= i < values.drop_last().len() implies !(
        #[trigger] values.drop_last()[i]).locked_by(txn) by {
            assert(values.drop_last()[i] == values[i]);
        }
        lemma_rolled_back_values_untouched(values.drop_last(), txn);
        assert(!values[values.len() - 1].locked_by(txn));
        assert(values.drop_last().push(values.last()) =~= values);
    } else {
        assert(values =~= Seq::<PoolValueView>::empty());
    }
}

proof fn lemma_rolled_back_pools_untouched(pools: Seq<PoolView>, txn: u64)
    requires
        forall|k: int| 0 <= k < pools.len() ==> (#[trigger] pools[k]).created_by != Some(txn),
    ensures
        rolled_back_pools(pools, txn) == pools,
    decreases pools.len(),
{
    if pools.len() > 0 {
        assert forall|k: int| 0 <= k < pools.drop_last().len() implies (
        #[trigger] pools.drop_last()[k]).created_by != Some(txn) by {
            assert(pools.drop_last()[k] == pools[k]);
        }
        lemma_rolled_back_pools_untouched(pools.drop_last(), txn);
        assert(pools[pools.len() - 1].created_by != Some(txn));
        assert(pools.drop_last().push(pools.last()) =~= pools);
    } else {
        assert(pools =~= Seq::<PoolView>::empty());
    }
}

/// The tables after `txn` has set the allocations of the rows `rows`, one
/// after the other, to `allocations`.
pub open spec fn after_allocations(
    s: StoreView,
    rows: Seq<int>,
    allocations: Seq<Option<AllocationView>>,
    txn: u64,
) -> StoreView
    decreases rows.len(),
{
    if rows.len() == 0 || allocations.len() != rows.len() {
        s
    } else {
        after_allocations(s, rows.drop_last(), allocations.drop_last(), txn).with_allocation(
            rows.last(),
            txn,
            allocations.last(),
        )
    }
}

/// Whatever a transaction that held no lock allocates and releases, one
/// value after the other, when it rolls back the tables are as they were
/// before.
pub proof fn lemma_allocations_then_rollback(
    s: StoreView,
    rows: Seq<int>,
    allocations: Seq<Option<AllocationView>>,
    txn: u64,
)
    requires
        s.untouched_by(txn),
        rows.len() == allocations.len(),
        forall|k: int|
            0 <= k < rows.len() ==> 0 <= #[trigger] rows[k] < s.values.len()
                && !s.values[rows[k]].locked_by_other(txn),
    ensures
        after_allocations(s, rows, allocations, txn).rolled_back(txn) == s,
        after_allocations(s, rows, allocations, txn).values.len() == s.values.len(),
        forall|i: int|
            0 <= i < s.values.len() ==> (#[trigger] after_allocations(
                s,
                rows,
                allocations,
                txn,
            ).values[i]).locked_by_other(txn) == s.values[i].locked_by_other(txn),
    decreases rows.len(),
{
    if rows.len() == 0 {
        lemma_rollback_of_untouched(s, txn);
    } else {
        let front = after_allocations(s, rows.drop_last(), allocations.drop_last(), txn);
        assert forall|k: int| 0 <= k < rows.drop_last().len() implies 0 <= #[trigger] rows.drop_last()[k]
            < s.values.len() && !s.values[rows.drop_last()[k]].locked_by_other(txn) by {
            assert(rows.drop_last()[k] == rows[k]);
        }
        lemma_allocations_then_rollback(s, rows.drop_last(), allocations.drop_last(), txn);
        let i = rows.last();
        assert(i == rows[rows.len() - 1]);
        assert(!front.values[i].locked_by_other(txn));
        lemma_rollback_forgets_allocation(front, i, txn, allocations.last());
    }
}

/// No transaction bears the number that stands for none: under it no lock
/// is held and nothing is uncommitted, so that what is read under it is
/// what is committed.
pub proof fn lemma_no_transaction_holds_nothing(s: StoreView)
    requires
        s.wf(),
    ensures
        s.untouched_by(crate::store::NO_TRANSACTION),
        !s.knows(crate::store::NO_TRANSACTION),
{
    assert forall|i: int| 0 <= i < s.values.len() implies !(#[trigger] s.values[i]).locked_by(
        crate::store::NO_TRANSACTION,
    ) by {
        assert(s.values[i].pending matches Some(p) ==> p.txn < s.next_txn);
    }
}

/// An allocation that is rolled back has never happened: where a
/// transaction that held no lock allocates a value and then rolls back,
/// the tables are as they were before, and the value is free and unlocked.
pub proof fn lemma_allocate_then_rollback(s: StoreView, i: int, txn: u64, allocation: AllocationView)
    requires
        s.untouched_by(txn),
        0 <= i < s.values.len(),
        !s.values[i].locked_by_other(txn),
    ensures
        s.with_allocation(i, txn, Some(allocation)).rolled_back(txn) == s,
{
    lemma_rollback_forgets_allocation(s, i, txn, Some(allocation));
    lemma_rollback_of_untouched(s, txn);
}

/// A rollback undoes what the transaction has put into a pool: the rows
/// after the rollback are what they would be had it put nothing in.
pub proof fn lemma_rollback_forgets_values(
    rows: Seq<PoolValueView>,
    name: Seq<char>,
    values: Seq<Seq<char>>,
    auto_assignable: bool,
    txn: u64,
)
    ensures
        rolled_back_values(populated(rows, name, values, auto_assignable, txn), txn)
            == rolled_back_values(rows, txn),
    decreases values.len(),
{
    if values.len() > 0 {
        lemma_rollback_forgets_values(rows, name, values.drop_last(), auto_assignable, txn);
        let front = populated(rows, name, values.drop_last(), auto_assignable, txn);
        if !has_value(front, name, values.last()) {
            let row = fresh_row(name, values.last(), auto_assignable, txn);
            assert(front.push(row).drop_last() =~= front);
        }
    }
}

/// A rollback undoes the registration of a pool: the pools after the
/// rollback are what they would be had the transaction not made sure of
/// the pool.
pub proof fn lemma_rollback_forgets_pool(s: StoreView, name: Seq<char>, value_type: ValueType, txn: u64)
    ensures
        rolled_back_pools(pools_with(s, name, value_type, txn), txn) == rolled_back_pools(s.pools, txn),
{
    if !s.has_pool(name) {
        crate::registry::lemma_insert_position_bounds(s.pools, name);
        lemma_rolled_back_insert(
            s.pools,
            crate::registry::insert_position(s.pools, name),
            PoolView { name, value_type, created_by: Some(txn) },
            txn,
        );
    }
}

proof fn lemma_rolled_back_insert(pools: Seq<PoolView>, pos: int, p: PoolView, txn: u64)
    requires
        0 <= pos <= pools.len(),
        p.created_by == Some(txn),
    ensures
        rolled_back_pools(pools.insert(pos, p), txn) == rolled_back_pools(pools, txn),
    decreases pools.len(),
{
    let with = pools.insert(pos, p);
    if pos == pools.len() {
        assert(with.drop_last() =~= pools);
    } else {
        assert(with.drop_last() =~= pools.drop_last().insert(pos, p));
        assert(with.last() == pools.last());
        lemma_rolled_back_insert(pools.drop_last(), pos, p, txn);
    }
}

/// Values that are put into a pool and rolled back were never there:
/// where a transaction that held no lock and had inserted nothing puts
/// values into a pool and then rolls back, the tables are as they were.
pub proof fn lemma_populate_then_rollback(
    s: StoreView,
    name: Seq<char>,
    value_type: ValueType,
    values: Seq<Seq<char>>,
    auto_assignable: bool,
    txn: u64,
)
    requires
        s.untouched_by(txn),
    ensures
        (StoreView {
            pools: pools_with(s, name, value_type, txn),
            values: populated(s.values, name, values, auto_assignable, txn),
            next_txn: s.next_txn,
        }).rolled_back(txn) == s,
{
    lemma_rollback_forgets_values(s.values, name, values, auto_assignable, txn);
    lemma_rollback_forgets_pool(s, name, value_type, txn);
    lemma_rollback_of_untouched(s, txn);
}

/// Rows that count alike, place by place, give the same counts.
pub proof fn lemma_counts_alike(
    a: Seq<PoolValueView>,
    b: Seq<PoolValueView>,
    name: Seq<char>,
    txn: u64,
    auto_assignable: bool,
    used: bool,
)
    requires
        a.len() == b.len(),
        forall|i: int|
            0 <= i < a.len() ==> counts_as(#[trigger] a[i], name, txn, auto_assignable, used)
                == counts_as(b[i], name, txn, auto_assignable, used),
    ensures
        count_rows(a, name, txn, auto_assignable, used) == count_rows(
            b,
            name,
            txn,
            auto_assignable,
            used,
        ),
    decreases a.len(),
{
    if a.len() > 0 {
        assert forall|i: int| 0 <= i < a.drop_last().len() implies counts_as(
            #[trigger] a.drop_last()[i],
            name,
            txn,
            auto_assignable,
            used,
        ) == counts_as(b.drop_last()[i], name, txn, auto_assignable, used) by {
            assert(a.drop_last()[i] == a[i]);
        }
        lemma_counts_alike(a.drop_last(), b.drop_last(), name, txn, auto_assignable, used);
        assert(a.last() == a[a.len() - 1]);
    }
}

/// To allocate a free value and release it again in the same transaction
/// changes no count of any pool.
pub proof fn lemma_allocate_then_release_keeps_stats(
    s: StoreView,
    i: int,
    txn: u64,
    allocation: AllocationView,
    name: Seq<char>,
    st: ResourcePoolStats,
)
    requires
        0 <= i < s.values.len(),
        s.values[i].allocation_for(txn) is None,
        !s.values[i].locked_by_other(txn),
    ensures
        is_stats_of(
            st,
            s.with_allocation(i, txn, Some(allocation)).with_allocation(i, txn, None).values,
            name,
            txn,
        ) == is_stats_of(st, s.values, name, txn),
{
    let t = s.with_allocation(i, txn, Some(allocation)).with_allocation(i, txn, None);
    lemma_counts_alike(t.values, s.values, name, txn, true, true);
    lemma_counts_alike(t.values, s.values, name, txn, true, false);
    lemma_counts_alike(t.values, s.values, name, txn, false, true);
    lemma_counts_alike(t.values, s.values, name, txn, false, false);
}

/// What one transaction allocates or releases and has not committed
/// changes no count that another transaction sees.
pub proof fn lemma_uncommitted_allocation_is_unseen(
    s: StoreView,
    i: int,
    txn: u64,
    allocation: Option<AllocationView>,
    other: u64,
    name: Seq<char>,
    st: ResourcePoolStats,
)
    requires
        0 <= i < s.values.len(),
        !s.values[i].locked_by_other(txn),
        other != txn,
    ensures
        is_stats_of(st, s.with_allocation(i, txn, allocation).values, name, other) == is_stats_of(
            st,
            s.values,
            name,
            other,
        ),
{
    let t = s.with_allocation(i, txn, allocation);
    lemma_counts_alike(t.values, s.values, name, other, true, true);
    lemma_counts_alike(t.values, s.values, name, other, true, false);
    lemma_counts_alike(t.values, s.values, name, other, false, true);
    lemma_counts_alike(t.values, s.values, name, other, false, false);
}

/// After a commit, every transaction that holds no lock of a row sees the
/// row as the transaction that committed saw it.
pub proof fn lemma_commit_publishes(row: PoolValueView, txn: u64, other: u64)
    requires
        !row.locked_by(other) || other == txn,
    ensures
        row.committed_by(txn).visible_to(other) == row.visible_to(txn),
        row.committed_by(txn).allocation_for(other) == row.allocation_for(txn),
{
}

/// A value that has a row keeps it when values are put into a pool.
pub proof fn lemma_populated_keeps_rows(
    rows: Seq<PoolValueView>,
    name: Seq<char>,
    values: Seq<Seq<char>>,
    auto_assignable: bool,
    txn: u64,
)
    ensures
        rows.len() <= populated(rows, name, values, auto_assignable, txn).len(),
        forall|i: int|
            0 <= i < rows.len() ==> #[trigger] populated(rows, name, values, auto_assignable, txn)[i]
                == rows[i],
    decreases values.len(),
{
    if values.len() > 0 {
        lemma_populated_keeps_rows(rows, name, values.drop_last(), auto_assignable, txn);
    }
}

/// After values have been put into a pool, each of them has a row.
pub proof fn lemma_populated_holds_values(
    rows: Seq<PoolValueView>,
    name: Seq<char>,
    values: Seq<Seq<char>>,
    auto_assignable: bool,
    txn: u64,
    k: int,
)
    requires
        0 <= k < values.len(),
    ensures
        has_value(populated(rows, name, values, auto_assignable, txn), name, values[k]),
    decreases values.len(),
{
    let front = populated(rows, name, values.drop_last(), auto_assignable, txn);
    let whole = populated(rows, name, values, auto_assignable, txn);
    if k < values.len() - 1 {
        lemma_populated_holds_values(rows, name, values.drop_last(), auto_assignable, txn, k);
        let i = choose|i: int| 0 <= i < front.len() && (#[trigger] front[i]).is_value(name, values[k]);
        assert(whole[i] == front[i]);
    } else if !has_value(front, name, values.last()) {
        assert(whole[front.len() as int].is_value(name, values[k]));
    }
}

/// To put values into a pool that has a row for each of them changes
/// nothing.
pub proof fn lemma_populated_when_held(
    rows: Seq<PoolValueView>,
    name: Seq<char>,
    values: Seq<Seq<char>>,
    auto_assignable: bool,
    txn: u64,
)
    requires
        forall|k: int| 0 <= k < values.len() ==> has_value(rows, name, #[trigger] values[k]),
    ensures
        populated(rows, name, values, auto_assignable, txn) == rows,
    decreases values.len(),
{
    if values.len() > 0 {
        assert forall|k: int| 0 <= k < values.drop_last().len() implies has_value(
            rows,
            name,
            #[trigger] values.drop_last()[k],
        ) by {
            assert(values.drop_last()[k] == values[k]);
        }
        lemma_populated_when_held(rows, name, values.drop_last(), auto_assignable, txn);
        assert(has_value(rows, name, values[values.len() - 1]));
    }
}

/// To put the same values into a pool a second time changes nothing,
/// whoever does it and however the values are classified then: each value
/// is in the pool once, as it was classified first.
pub proof fn lemma_populate_again(
    rows: Seq<PoolValueView>,
    name: Seq<char>,
    values: Seq<Seq<char>>,
    auto_assignable: bool,
    txn: u64,
    again_auto_assignable: bool,
    again_txn: u64,
)
    ensures
        populated(
            populated(rows, name, values, auto_assignable, txn),
            name,
            values,
            again_auto_assignable,
            again_txn,
        ) == populated(rows, name, values, auto_assignable, txn),
{
    let once = populated(rows, name, values, auto_assignable, txn);
    assert forall|k: int| 0 <= k < values.len() implies has_value(once, name, #[trigger] values[k]) by {
        lemma_populated_holds_values(rows, name, values, auto_assignable, txn, k);
    }
    lemma_populated_when_held(once, name, values, again_auto_assignable, again_txn);
}

/// Whether to grow the pool of the definition `d` changes nothing in `s`.
pub open spec fn is_grown(s: StoreView, d: DefinitionView, txn: u64) -> bool {
    grown_by(s, d, txn) == (s, Ok::<(), ResourcePoolError>(()))
}

/// A pool that has been grown from a definition is not changed when it is
/// grown from the same definition again in the same transaction.
pub proof fn lemma_grown_by_again(s: StoreView, d: DefinitionView, txn: u64)
    requires
        s.wf(),
        grown_by(s, d, txn).1 is Ok,
    ensures
        is_grown(grown_by(s, d, txn).0, d, txn),
{
    let t = grown_by(s, d, txn).0;
    let values = seed_values(d.value_type, d.seed)->Some_0;
    lemma_pools_with_wf(s, d.name, d.value_type, txn);
    let u = StoreView { pools: pools_with(s, d.name, d.value_type, txn), ..s };
    lemma_grown_pool_is_seen(s, d.name, d.value_type, txn);
    let c = choose|c: int|
        0 <= c < u.pools.len() && (#[trigger] u.pools[c]).name == d.name && u.pools[c].visible_to(txn)
            && u.pools[c].value_type == d.value_type;
    lemma_pool_type(u, c);
    assert(t.pools == u.pools);
    assert(t.pools[c].name == d.name && t.pools[c].visible_to(txn));
    assert(t.has_pool(d.name));
    assert(t.sees_pool(d.name, txn));
    assert(t.pool_type(d.name) == u.pool_type(d.name));
    assert(ensure_verdict(t, d.name, d.value_type, txn) is Ok);
    assert(populate_verdict(t, d.name, d.value_type, values, txn) is Ok);
    lemma_populate_again(s.values, d.name, values, true, txn, true, txn);
    assert(pools_with(t, d.name, d.value_type, txn) == t.pools);
    assert(grown_by(t, d, txn).0 == t);
}

/// After a transaction has made sure of a pool, it sees the pool, with
/// the type that it asked for.
pub proof fn lemma_grown_pool_is_seen(s: StoreView, name: Seq<char>, value_type: ValueType, txn: u64)
    requires
        s.wf(),
        ensure_verdict(s, name, value_type, txn) is Ok,
    ensures
        exists|c: int|
            0 <= c < pools_with(s, name, value_type, txn).len() && (#[trigger] pools_with(
                s,
                name,
                value_type,
                txn,
            )[c]).name == name && pools_with(s, name, value_type, txn)[c].visible_to(txn)
                && pools_with(s, name, value_type, txn)[c].value_type == value_type,
{
    let p = pools_with(s, name, value_type, txn);
    if s.has_pool(name) {
        let c = choose|c: int|
            0 <= c < s.pools.len() && (#[trigger] s.pools[c]).name == name && s.pools[c].visible_to(txn);
        lemma_pool_type(s, c);
        assert(p[c].name == name);
    } else {
        let pos = crate::registry::insert_position(s.pools, name);
        crate::registry::lemma_insert_position_bounds(s.pools, name);
        assert(p[pos].name == name);
    }
}

/// A pool that is grown stays grown when another pool, or the same, is
/// grown in the same transaction.
pub proof fn lemma_grown_stays(s: StoreView, d: DefinitionView, other: DefinitionView, txn: u64)
    requires
        s.wf(),
        is_grown(s, d, txn),
        grown_by(s, other, txn).1 is Ok,
    ensures
        is_grown(grown_by(s, other, txn).0, d, txn),
{
    let t = grown_by(s, other, txn).0;
    let values = seed_values(d.value_type, d.seed)->Some_0;
    let more = seed_values(other.value_type, other.seed)->Some_0;
    // the pool of `d` is in `s`, is seen, and has the type of `d`
    assert(s.has_pool(d.name)) by {
        if !s.has_pool(d.name) {
            crate::registry::lemma_insert_position_bounds(s.pools, d.name);
            assert(pools_with(s, d.name, d.value_type, txn).len() == s.pools.len() + 1);
        }
    }
    let c = choose|c: int|
        0 <= c < s.pools.len() && (#[trigger] s.pools[c]).name == d.name && s.pools[c].visible_to(txn);
    lemma_pool_type(s, c);
    lemma_pools_with_wf(s, other.name, other.value_type, txn);
    let u = StoreView { pools: pools_with(s, other.name, other.value_type, txn), ..s };
    assert(t.pools == u.pools);
    // that pool is in `t` as it is in `s`
    let place = if s.has_pool(other.name) {
        c
    } else {
        let pos = crate::registry::insert_position(s.pools, other.name);
        if c < pos {
            c
        } else {
            c + 1
        }
    };
    crate::registry::lemma_insert_position_bounds(s.pools, other.name);
    assert(0 <= place < t.pools.len() && t.pools[place] == s.pools[c]);
    lemma_pool_type(u, place);
    assert(t.pool_type(d.name) == u.pool_type(d.name));
    assert(t.has_pool(d.name));
    assert(t.sees_pool(d.name, txn));
    // the values of `d` have their rows in `s`, and so in `t`
    assert forall|k: int| 0 <= k < values.len() implies has_value(t.values, d.name, #[trigger] values[k]) by {
        lemma_populated_holds_values(s.values, d.name, values, true, txn, k);
        let i = choose|i: int| 0 <= i < s.values.len() && (#[trigger] s.values[i]).is_value(d.name, values[k]);
        lemma_populated_keeps_rows(s.values, other.name, more, true, txn);
        assert(t.values[i] == s.values[i]);
    }
    lemma_populated_when_held(t.values, d.name, values, true, txn);
}

/// Growing keeps the tables in order.
pub proof fn lemma_grown_by_wf(s: StoreView, d: DefinitionView, txn: u64)
    requires
        s.wf(),
    ensures
        grown_by(s, d, txn).0.wf(),
{
    if grown_by(s, d, txn).1 is Ok {
        let values = seed_values(d.value_type, d.seed)->Some_0;
        lemma_pools_with_wf(s, d.name, d.value_type, txn);
        let u = StoreView { pools: pools_with(s, d.name, d.value_type, txn), ..s };
        lemma_grown_pool_is_seen(s, d.name, d.value_type, txn);
        let c = choose|c: int|
            0 <= c < u.pools.len() && (#[trigger] u.pools[c]).name == d.name && u.pools[c].visible_to(txn)
                && u.pools[c].value_type == d.value_type;
        lemma_populated_wf(u, c, values, true, txn);
    }
}

/// Putting canonical values into a pool that the transaction sees keeps
/// the tables in order.
pub proof fn lemma_populated_wf(
    s: StoreView,
    k: int,
    values: Seq<Seq<char>>,
    auto_assignable: bool,
    txn: u64,
)
    requires
        s.wf(),
        s.knows(txn),
        0 <= k < s.pools.len(),
        s.pools[k].visible_to(txn),
        all_canonical(s.pools[k].value_type, values),
    ensures
        (StoreView {
            values: populated(s.values, s.pools[k].name, values, auto_assignable, txn),
            ..s
        }).wf(),
    decreases values.len(),
{
    if values.len() > 0 {
        assert(all_canonical(s.pools[k].value_type, values.drop_last())) by {
            assert forall|i: int| 0 <= i < values.drop_last().len() implies crate::value::is_canonical(
                s.pools[k].value_type,
                #[trigger] values.drop_last()[i],
            ) by {
                assert(values.drop_last()[i] == values[i]);
            }
        }
        lemma_populated_wf(s, k, values.drop_last(), auto_assignable, txn);
        let front = StoreView {
            values: populated(s.values, s.pools[k].name, values.drop_last(), auto_assignable, txn),
            ..s
        };
        if !has_value(front.values, s.pools[k].name, values.last()) {
            assert(crate::value::is_canonical(s.pools[k].value_type, values[values.len() - 1]));
            crate::populate::lemma_push_fresh_wf(front, k, values.last(), auto_assignable, txn);
        }
    } else {
        assert((StoreView {
            values: populated(s.values, s.pools[k].name, values, auto_assignable, txn),
            ..s
        }) == s);
    }
}

/// Growing from definitions keeps the tables in order.
pub proof fn lemma_grown_wf(s: StoreView, definitions: Seq<DefinitionView>, txn: u64)
    requires
        s.wf(),
    ensures
        grown(s, definitions, txn).0.wf(),
    decreases definitions.len(),
{
    if definitions.len() > 0 {
        lemma_grown_wf(s, definitions.drop_last(), txn);
        let before = grown(s, definitions.drop_last(), txn);
        if before.1 is Ok {
            lemma_grown_by_wf(before.0, definitions.last(), txn);
        }
    }
}

/// After pools have been grown from definitions, each of the definitions
/// is one from which its pool is grown.
pub proof fn lemma_grown_each(s: StoreView, definitions: Seq<DefinitionView>, txn: u64, k: int)
    requires
        s.wf(),
        grown(s, definitions, txn).1 is Ok,
        0 <= k < definitions.len(),
    ensures
        is_grown(grown(s, definitions, txn).0, definitions[k], txn),
    decreases definitions.len(),
{
    let before = grown(s, definitions.drop_last(), txn);
    lemma_grown_wf(s, definitions.drop_last(), txn);
    if k < definitions.len() - 1 {
        lemma_grown_each(s, definitions.drop_last(), txn, k);
        assert(definitions.drop_last()[k] == definitions[k]);
        lemma_grown_stays(before.0, definitions[k], definitions.last(), txn);
    } else {
        lemma_grown_by_again(before.0, definitions.last(), txn);
    }
}

/// Where each of the definitions is one from which its pool is grown, to
/// grow from them changes nothing.
pub proof fn lemma_grown_when_grown(s: StoreView, definitions: Seq<DefinitionView>, txn: u64)
    requires
        forall|k: int| 0 <= k < definitions.len() ==> is_grown(s, #[trigger] definitions[k], txn),
    ensures
        grown(s, definitions, txn) == (s, Ok::<(), ResourcePoolError>(())),
    decreases definitions.len(),
{
    if definitions.len() > 0 {
        assert forall|k: int| 0 <= k < definitions.drop_last().len() implies is_grown(
            s,
            #[trigger] definitions.drop_last()[k],
            txn,
        ) by {
            assert(definitions.drop_last()[k] == definitions[k]);
        }
        lemma_grown_when_grown(s, definitions.drop_last(), txn);
        assert(is_grown(s, definitions[definitions.len() - 1], txn));
    }
}

/// To grow pools from the same definitions a second time, in the same
/// transaction, changes nothing: the tables, and with them all counts, are
/// as after the first time.
pub proof fn lemma_grow_again(s: StoreView, definitions: Seq<DefinitionView>, txn: u64)
    requires
        s.wf(),
        grown(s, definitions, txn).1 is Ok,
    ensures
        grown(grown(s, definitions, txn).0, definitions, txn) == (
            grown(s, definitions, txn).0,
            Ok::<(), ResourcePoolError>(()),
        ),
{
    let t = grown(s, definitions, txn).0;
    assert forall|k: int| 0 <= k < definitions.len() implies is_grown(t, #[trigger] definitions[k], txn) by {
        lemma_grown_each(s, definitions, txn, k);
    }
    lemma_grown_when_grown(t, definitions, txn);
}

/// Where every value of a pool that may be assigned automatically is held
/// or locked, an allocation without a named value finds the pool empty,
/// whatever other values of the pool are free.
pub proof fn lemma_exhausted_pool_is_empty(
    s: StoreView,
    name: Seq<char>,
    txn: u64,
    allocation: AllocationView,
)
    requires
        s.knows(txn),
        forall|i: int|
            0 <= i < s.values.len() && (#[trigger] s.values[i]).seen_in(name, txn)
                && s.values[i].auto_assignable ==> s.values[i].allocation_for(txn) is Some
                || s.values[i].locked_by_other(txn),
    ensures
        auto_allocated(s, name, txn, allocation) == (
            s,
            Err::<Seq<char>, ResourcePoolError>(ResourcePoolError::Empty),
        ),
{
}

/// A value that is free and unlocked can be allocated by name, whether or
/// not it may be assigned automatically; and an allocation by name never
/// finds the pool empty.
pub proof fn lemma_named_allocation(
    before: StoreView,
    after: StoreView,
    i: int,
    txn: u64,
    allocation: AllocationView,
    r: Result<Seq<char>, ResourcePoolError>,
)
    requires
        before.wf(),
        before.knows(txn),
        0 <= i < before.values.len(),
        before.values[i].visible_to(txn),
        before.values[i].allocation_for(txn) is None,
        !before.values[i].locked_by_other(txn),
        manual_outcome(
            before,
            after,
            before.values[i].pool_name,
            before.values[i].value,
            txn,
            allocation,
            r,
        ),
    ensures
        r == Ok::<Seq<char>, ResourcePoolError>(before.values[i].value),
        after == before.with_allocation(i, txn, Some(allocation)),
{
    let name = before.values[i].pool_name;
    let value = before.values[i].value;
    assert(before.values[i].is_value(name, value));
    assert(before.sees_value(name, value, txn));
    let k = choose|k: int|
        {
            &&& 0 <= k < before.values.len()
            &&& (#[trigger] before.values[k]).is_value(name, value)
            &&& if before.values[k].allocation_for(txn) is Some || before.values[k].locked_by_other(
                txn,
            ) {
                r == Err::<Seq<char>, ResourcePoolError>(ResourcePoolError::Conflict) && after
                    == before
            } else {
                r == Ok::<Seq<char>, ResourcePoolError>(value) && after == before.with_allocation(
                    k,
                    txn,
                    Some(allocation),
                )
            }
        };
    lemma_values_differ(before, k, i);
}

/// An allocation by name never finds the pool empty.
pub proof fn lemma_named_allocation_is_never_empty(
    before: StoreView,
    after: StoreView,
    name: Seq<char>,
    value: Seq<char>,
    txn: u64,
    allocation: AllocationView,
    r: Result<Seq<char>, ResourcePoolError>,
)
    requires
        manual_outcome(before, after, name, value, txn, allocation, r),
    ensures
        r != Err::<Seq<char>, ResourcePoolError>(ResourcePoolError::Empty),
{
}

/// After all that an owner holds has been released, the owner holds
/// nothing: to release it once more finds nothing and changes nothing.
pub proof fn lemma_released_owner_holds_nothing(
    s: StoreView,
    txn: u64,
    owner_type: OwnerType,
    owner_id: Seq<char>,
)
    requires
        s.knows(txn),
        release_owner_verdict(s, txn, owner_type, owner_id) is Ok,
    ensures
        release_owner_verdict(
            StoreView { values: released_rows(s.values, txn, owner_type, owner_id), ..s },
            txn,
            owner_type,
            owner_id,
        ) == Err::<(), ResourcePoolError>(ResourcePoolError::NotFound),
{
    let t = StoreView { values: released_rows(s.values, txn, owner_type, owner_id), ..s };
    assert forall|i: int| 0 <= i < t.values.len() implies !is_held_by(
        #[trigger] t.values[i],
        txn,
        owner_type,
        owner_id,
    ) by {
        if is_held_by(s.values[i], txn, owner_type, owner_id) {
            assert(!s.values[i].locked_by_other(txn));
        }
    }
}

/// An owner that holds nothing still holds nothing after a value has been
/// allocated to another owner, or released.
pub proof fn lemma_other_owner_allocation(
    s: StoreView,
    i: int,
    txn: u64,
    allocation: Option<AllocationView>,
    owner_type: OwnerType,
    owner_id: Seq<char>,
)
    requires
        s.knows(txn),
        0 <= i < s.values.len(),
        allocation matches Some(a) ==> !(a.owner_type == owner_type && a.owner_id == owner_id),
        release_owner_verdict(s, txn, owner_type, owner_id) == Err::<(), ResourcePoolError>(
            ResourcePoolError::NotFound,
        ),
    ensures
        release_owner_verdict(s.with_allocation(i, txn, allocation), txn, owner_type, owner_id)
            == Err::<(), ResourcePoolError>(ResourcePoolError::NotFound),
{
    let t = s.with_allocation(i, txn, allocation);
    assert forall|k: int| 0 <= k < t.values.len() implies !is_held_by(
        #[trigger] t.values[k],
        txn,
        owner_type,
        owner_id,
    ) by {
        assert(!is_held_by(s.values[k], txn, owner_type, owner_id));
    }
}

/// Where a transaction is handed a value, named or not, and releases it
/// again, the release succeeds, the value is free as the transaction sees
/// it, and every count of every pool is as it was before the allocation.
pub proof fn lemma_allocate_then_release(
    s: StoreView,
    mid: StoreView,
    after: StoreView,
    name: Seq<char>,
    value: Seq<char>,
    txn: u64,
    allocation: AllocationView,
    released: Result<(), ResourcePoolError>,
    pool: Seq<char>,
    st: ResourcePoolStats,
)
    requires
        s.wf(),
        auto_outcome(s, mid, name, txn, allocation, Ok::<Seq<char>, ResourcePoolError>(value))
            || manual_outcome(
            s,
            mid,
            name,
            value,
            txn,
            allocation,
            Ok::<Seq<char>, ResourcePoolError>(value),
        ),
        release_outcome(mid, after, name, value, txn, released),
    ensures
        released == Ok::<(), ResourcePoolError>(()),
        is_stats_of(st, after.values, pool, txn) == is_stats_of(st, s.values, pool, txn),
        forall|k: int|
            0 <= k < after.values.len() && (#[trigger] after.values[k]).is_value(name, value)
                ==> after.values[k].allocation_for(txn) is None,
{
    let i = allocated_row(s, mid, name, value, txn, allocation);
    lemma_with_allocation_wf(s, i, txn, Some(allocation));
    assert(mid.values[i].is_value(name, value) && mid.values[i].visible_to(txn));
    assert(mid.sees_value(name, value, txn));
    let k = choose|k: int|
        {
            &&& 0 <= k < mid.values.len()
            &&& (#[trigger] mid.values[k]).is_value(name, value)
            &&& if mid.values[k].allocation_for(txn) is None {
                released == Err::<(), ResourcePoolError>(ResourcePoolError::NotAllocated) && after
                    == mid
            } else if mid.values[k].locked_by_other(txn) {
                released == Err::<(), ResourcePoolError>(ResourcePoolError::Store) && after == mid
            } else {
                released == Ok::<(), ResourcePoolError>(()) && after == mid.with_allocation(
                    k,
                    txn,
                    None,
                )
            }
        };
    lemma_values_differ(mid, k, i);
    lemma_allocate_then_release_keeps_stats(s, i, txn, allocation, pool, st);
    assert forall|j: int|
        0 <= j < after.values.len() && (#[trigger] after.values[j]).is_value(
            name,
            value,
        ) implies after.values[j].allocation_for(txn) is None by {
        lemma_with_allocation_wf(mid, i, txn, None);
        lemma_values_differ(after, j, i);
    }
}

/// The row that an allocation which succeeded has allocated: a row of the
/// value that the transaction saw free and that no other transaction had
/// locked.
pub proof fn allocated_row(
    s: StoreView,
    mid: StoreView,
    name: Seq<char>,
    value: Seq<char>,
    txn: u64,
    allocation: AllocationView,
) -> (i: int)
    requires
        s.wf(),
        auto_outcome(s, mid, name, txn, allocation, Ok::<Seq<char>, ResourcePoolError>(value))
            || manual_outcome(
            s,
            mid,
            name,
            value,
            txn,
            allocation,
            Ok::<Seq<char>, ResourcePoolError>(value),
        ),
    ensures
        s.knows(txn),
        0 <= i < s.values.len(),
        s.values[i].is_value(name, value),
        s.values[i].visible_to(txn),
        s.values[i].allocation_for(txn) is None,
        !s.values[i].locked_by_other(txn),
        mid == s.with_allocation(i, txn, Some(allocation)),
{
    let r = Ok::<Seq<char>, ResourcePoolError>(value);
    if auto_outcome(s, mid, name, txn, allocation, r) {
        let i = choose|i: int|
            {
                &&& #[trigger] s.is_lowest_candidate(i, name, txn)
                &&& r == Ok::<Seq<char>, ResourcePoolError>(s.values[i].value)
                &&& mid == s.with_allocation(i, txn, Some(allocation))
            };
        i
    } else {
        let i = choose|i: int|
            {
                &&& 0 <= i < s.values.len()
                &&& (#[trigger] s.values[i]).is_value(name, value)
                &&& if s.values[i].allocation_for(txn) is Some || s.values[i].locked_by_other(txn) {
                    r == Err::<Seq<char>, ResourcePoolError>(ResourcePoolError::Conflict) && mid
                        == s
                } else {
                    r == Ok::<Seq<char>, ResourcePoolError>(value) && mid == s.with_allocation(
                        i,
                        txn,
                        Some(allocation),
                    )
                }
            };
        let seen = choose|k: int|
            0 <= k < s.values.len() && (#[trigger] s.values[k]).is_value(name, value)
                && s.values[k].visible_to(txn);
        lemma_values_differ(s, seen, i);
        i
    }
}

/// Where a transaction that the store knows sees no value of a pool that
/// may be assigned automatically and is free, an allocation without a
/// named value reports that the pool is empty and changes nothing,
/// whatever other values of the pool are free.
pub proof fn lemma_exhausted_pool_gives_nothing(
    before: StoreView,
    after: StoreView,
    name: Seq<char>,
    txn: u64,
    allocation: AllocationView,
    r: Result<Seq<char>, ResourcePoolError>,
)
    requires
        before.knows(txn),
        forall|i: int|
            0 <= i < before.values.len() && (#[trigger] before.values[i]).seen_in(name, txn)
                && before.values[i].auto_assignable ==> before.values[i].allocation_for(txn) is Some,
        auto_outcome(before, after, name, txn, allocation, r),
    ensures
        r == Err::<Seq<char>, ResourcePoolError>(ResourcePoolError::Empty),
        after == before,
{
}

/// What a changed row does to a count: the row counts no more as what it
/// was, and counts as what it is.
pub proof fn lemma_count_of_changed_row(
    values: Seq<PoolValueView>,
    i: int,
    row: PoolValueView,
    name: Seq<char>,
    txn: u64,
    auto_assignable: bool,
    used: bool,
)
    requires
        0 <= i < values.len(),
    ensures
        count_rows(values.update(i, row), name, txn, auto_assignable, used) + (if counts_as(
            values[i],
            name,
            txn,
            auto_assignable,
            used,
        ) {
            1nat
        } else {
            0nat
        }) == count_rows(values, name, txn, auto_assignable, used) + (if counts_as(
            row,
            name,
            txn,
            auto_assignable,
            used,
        ) {
            1nat
        } else {
            0nat
        }),
    decreases values.len(),
{
    let changed = values.update(i, row);
    if i == values.len() - 1 {
        assert(changed.drop_last() =~= values.drop_last());
    } else {
        assert(changed.drop_last() =~= values.drop_last().update(i, row));
        assert(changed.last() == values.last());
        lemma_count_of_changed_row(values.drop_last(), i, row, name, txn, auto_assignable, used);
    }
}

/// An allocation moves one value of its pool and its classification from
/// free to held, as the transaction sees it: that count of held values
/// grows by one, that count of free values shrinks by one, and the row
/// bears the allocation. Every other count is as before.
pub proof fn lemma_allocation_moves_one_value(
    s: StoreView,
    i: int,
    txn: u64,
    allocation: AllocationView,
    pool: Seq<char>,
    auto_assignable: bool,
    used: bool,
)
    requires
        0 <= i < s.values.len(),
        s.values[i].visible_to(txn),
        s.values[i].allocation_for(txn) is None,
        !s.values[i].locked_by_other(txn),
    ensures
        s.with_allocation(i, txn, Some(allocation)).values[i].allocation_for(txn) == Some(allocation),
        count_rows(
            s.with_allocation(i, txn, Some(allocation)).values,
            pool,
            txn,
            auto_assignable,
            used,
        ) == if pool == s.values[i].pool_name && auto_assignable == s.values[i].auto_assignable {
            if used {
                count_rows(s.values, pool, txn, auto_assignable, used) as int + 1
            } else {
                count_rows(s.values, pool, txn, auto_assignable, used) as int - 1
            }
        } else {
            count_rows(s.values, pool, txn, auto_assignable, used) as int
        },
{
    lemma_count_of_changed_row(
        s.values,
        i,
        s.values[i].changed_by(txn, Some(allocation)),
        pool,
        txn,
        auto_assignable,
        used,
    );
}

/// An owner that holds nothing releases nothing: it is not found, and
/// where it is told so the tables, and with them every count, are as they
/// were.
pub proof fn lemma_absent_owner_is_not_found(
    s: StoreView,
    txn: u64,
    owner_type: OwnerType,
    owner_id: Seq<char>,
)
    requires
        s.knows(txn),
        forall|i: int|
            0 <= i < s.values.len() ==> !is_held_by(#[trigger] s.values[i], txn, owner_type, owner_id),
    ensures
        release_owner_verdict(s, txn, owner_type, owner_id) == Err::<(), ResourcePoolError>(
            ResourcePoolError::NotFound,
        ),
{
}

/// A pool that is grown in one transaction is grown for every transaction
/// once the first has committed.
pub proof fn lemma_grown_after_commit(s: StoreView, d: DefinitionView, txn: u64, other: u64)
    requires
        s.wf(),
        s.knows(other),
        is_grown(s, d, txn),
    ensures
        is_grown(s.committed(txn), d, other),
{
    let t = s.committed(txn);
    let values = seed_values(d.value_type, d.seed)->Some_0;
    crate::transaction::lemma_committed_wf(s, txn);
    assert(s.has_pool(d.name)) by {
        if !s.has_pool(d.name) {
            crate::registry::lemma_insert_position_bounds(s.pools, d.name);
            assert(pools_with(s, d.name, d.value_type, txn).len() == s.pools.len() + 1);
        }
    }
    let c = choose|c: int|
        0 <= c < s.pools.len() && (#[trigger] s.pools[c]).name == d.name && s.pools[c].visible_to(txn);
    lemma_pool_type(s, c);
    assert(t.pools[c].name == d.name && t.pools[c].visible_to(other) && t.pools[c].value_type
        == d.value_type);
    lemma_pool_type(t, c);
    assert(t.has_pool(d.name));
    assert(t.sees_pool(d.name, other));
    assert forall|k: int| 0 <= k < values.len() implies has_value(t.values, d.name, #[trigger] values[k]) by {
        lemma_populated_holds_values(s.values, d.name, values, true, txn, k);
        let i = choose|i: int| 0 <= i < s.values.len() && (#[trigger] s.values[i]).is_value(d.name, values[k]);
        assert(t.values[i].is_value(d.name, values[k]));
    }
    lemma_populated_when_held(t.values, d.name, values, true, other);
    assert(pools_with(t, d.name, d.value_type, other) == t.pools);
    assert(grown_by(t, d, other).0 == t);
}

/// To grow pools from the same definitions a second time, in another
/// transaction after the first has committed, changes nothing: the tables,
/// and with them all counts, are as after the first time.
pub proof fn lemma_grow_again_after_commit(
    s: StoreView,
    definitions: Seq<DefinitionView>,
    txn: u64,
    other: u64,
)
    requires
        s.wf(),
        s.knows(other),
        grown(s, definitions, txn).1 is Ok,
    ensures
        grown(grown(s, definitions, txn).0.committed(txn), definitions, other) == (
            grown(s, definitions, txn).0.committed(txn),
            Ok::<(), ResourcePoolError>(()),
        ),
{
    let once = grown(s, definitions, txn).0;
    lemma_grown_wf(s, definitions, txn);
    lemma_grown_keeps_transactions(s, definitions, txn);
    assert forall|k: int| 0 <= k < definitions.len() implies is_grown(
        once.committed(txn),
        #[trigger] definitions[k],
        other,
    ) by {
        lemma_grown_each(s, definitions, txn, k);
        lemma_grown_after_commit(once, definitions[k], txn, other);
    }
    lemma_grown_when_grown(once.committed(txn), definitions, other);
}

/// Growing begins no transaction.
pub proof fn lemma_grown_keeps_transactions(s: StoreView, definitions: Seq<DefinitionView>, txn: u64)
    ensures
        grown(s, definitions, txn).0.next_txn == s.next_txn,
    decreases definitions.len(),
{
    if definitions.len() > 0 {
        lemma_grown_keeps_transactions(s, definitions.drop_last(), txn);
    }
}

/// Whether the value of the row is held as things stand: as the
/// transaction that holds the lock of the row has it, or, where none holds
/// it, as it is committed.
pub open spec fn holds_now(row: PoolValueView) -> bool {
    match row.pending {
        Some(p) => p.allocation is Some,
        None => row.allocation is Some,
    }
}

/// Whether the value `value` of the pool `name` has a row, and is held as
/// things stand.
pub open spec fn is_handed_out(s: StoreView, name: Seq<char>, value: Seq<char>) -> bool {
    exists|i: int|
        0 <= i < s.values.len() && (#[trigger] s.values[i]).is_value(name, value) && holds_now(
            s.values[i],
        )
}

/// One step of transactions that run side by side: one of them allocates
/// a value of a pool without naming it, or one of them commits.
pub enum Step {
    Allocate { txn: u64, pool: Seq<char>, allocation: AllocationView },
    Commit { txn: u64 },
}

/// The tables after the steps, taken one after the other, and the values
/// that were handed out on the way, each with the name of its pool, in
/// the order in which they were handed out.
pub open spec fn after_steps(s: StoreView, steps: Seq<Step>) -> (
    StoreView,
    Seq<(Seq<char>, Seq<char>)>,
)
    decreases steps.len(),
{
    if steps.len() == 0 {
        (s, Seq::empty())
    } else {
        let before = after_steps(s, steps.drop_last());
        match steps.last() {
            Step::Allocate { txn, pool, allocation } => {
                let out = auto_allocated(before.0, pool, txn, allocation);
                match out.1 {
                    Ok(value) => (out.0, before.1.push((pool, value))),
                    Err(_) => (out.0, before.1),
                }
            },
            Step::Commit { txn } => (before.0.committed(txn), before.1),
        }
    }
}

/// Of the first `k` rows, where one of them can be handed out to the
/// transaction, one comes first.
pub proof fn lemma_lowest_among(s: StoreView, name: Seq<char>, txn: u64, k: int) -> (b: int)
    requires
        0 <= k <= s.values.len(),
        exists|j: int| 0 <= j < k && (#[trigger] s.values[j]).is_candidate(name, txn),
    ensures
        0 <= b < k,
        s.values[b].is_candidate(name, txn),
        forall|j: int|
            0 <= j < k && (#[trigger] s.values[j]).is_candidate(name, txn) ==> !crate::value::natural_lt(
                s.pool_type(name),
                s.values[j].value,
                s.values[b].value,
            ),
    decreases k,
{
    let vt = s.pool_type(name);
    let last = k - 1;
    if exists|j: int| 0 <= j < last && (#[trigger] s.values[j]).is_candidate(name, txn) {
        let front = lemma_lowest_among(s, name, txn, last);
        if s.values[last].is_candidate(name, txn) && crate::value::natural_lt(
            vt,
            s.values[last].value,
            s.values[front].value,
        ) {
            assert forall|j: int|
                0 <= j < k && (#[trigger] s.values[j]).is_candidate(
                    name,
                    txn,
                ) implies !crate::value::natural_lt(vt, s.values[j].value, s.values[last].value) by {
                if j == last {
                    crate::value::lemma_natural_lt_irreflexive(vt, s.values[last].value);
                } else if crate::value::natural_lt(vt, s.values[j].value, s.values[last].value) {
                    crate::value::lemma_natural_lt_transitive(
                        vt,
                        s.values[j].value,
                        s.values[last].value,
                        s.values[front].value,
                    );
                }
            }
            last
        } else {
            front
        }
    } else {
        let j = choose|j: int| 0 <= j < k && (#[trigger] s.values[j]).is_candidate(name, txn);
        assert(j == last);
        crate::value::lemma_natural_lt_irreflexive(vt, s.values[last].value);
        last
    }
}

/// Where a value of a pool can be handed out to a transaction, an
/// allocation without a named value hands out the one that comes first,
/// which was not held before and is held after.
pub proof fn lemma_auto_allocated_row(s: StoreView, name: Seq<char>, txn: u64, allocation: AllocationView) -> (i: int)
    requires
        s.wf(),
        auto_allocated(s, name, txn, allocation).1 is Ok,
    ensures
        s.is_lowest_candidate(i, name, txn),
        auto_allocated(s, name, txn, allocation) == (
            s.with_allocation(i, txn, Some(allocation)),
            Ok::<Seq<char>, ResourcePoolError>(s.values[i].value),
        ),
        !holds_now(s.values[i]),
        holds_now(s.with_allocation(i, txn, Some(allocation)).values[i]),
{
    let b = lemma_lowest_among(s, name, txn, s.values.len() as int);
    assert(s.is_lowest_candidate(b, name, txn));
    let i = choose|i: int| #[trigger] s.is_lowest_candidate(i, name, txn);
    i
}

/// However transactions that run side by side take turns to allocate and
/// to commit, no value is handed out twice: the values that were handed
/// out, each with its pool, are all different, and each of them is held.
pub proof fn lemma_no_value_is_handed_out_twice(s: StoreView, steps: Seq<Step>)
    requires
        s.wf(),
    ensures
        after_steps(s, steps).0.wf(),
        forall|a: int, b: int|
            0 <= a < b < after_steps(s, steps).1.len() ==> #[trigger] after_steps(s, steps).1[a]
                != #[trigger] after_steps(s, steps).1[b],
        forall|a: int|
            0 <= a < after_steps(s, steps).1.len() ==> is_handed_out(
                after_steps(s, steps).0,
                (#[trigger] after_steps(s, steps).1[a]).0,
                after_steps(s, steps).1[a].1,
            ),
    decreases steps.len(),
{
    if steps.len() > 0 {
        lemma_no_value_is_handed_out_twice(s, steps.drop_last());
        let before = after_steps(s, steps.drop_last());
        let mid = before.0;
        let handed = before.1;
        let end = after_steps(s, steps);
        match steps.last() {
            Step::Allocate { txn, pool, allocation } => {
                let out = auto_allocated(mid, pool, txn, allocation);
                if out.1 is Ok {
                    let i = lemma_auto_allocated_row(mid, pool, txn, allocation);
                    lemma_with_allocation_wf(mid, i, txn, Some(allocation));
                    let value = mid.values[i].value;
                    assert(end.1 == handed.push((pool, value)));
                    assert forall|a: int| 0 <= a < end.1.len() implies is_handed_out(
                        end.0,
                        (#[trigger] end.1[a]).0,
                        end.1[a].1,
                    ) by {
                        if a < handed.len() {
                            assert(end.1[a] == handed[a]);
                            assert(is_handed_out(mid, handed[a].0, handed[a].1));
                            let j = choose|j: int|
                                0 <= j < mid.values.len() && (#[trigger] mid.values[j]).is_value(
                                    handed[a].0,
                                    handed[a].1,
                                ) && holds_now(mid.values[j]);
                            assert(j != i);
                            assert(end.0.values[j] == mid.values[j]);
                        } else {
                            assert(end.0.values[i].is_value(pool, value));
                        }
                    }
                    assert forall|a: int, b: int| 0 <= a < b < end.1.len() implies #[trigger] end.1[a]
                        != #[trigger] end.1[b] by {
                        if b < handed.len() {
                            assert(end.1[a] == handed[a] && end.1[b] == handed[b]);
                        } else {
                            assert(end.1[a] == handed[a]);
                            if handed[a] == (pool, value) {
                                assert(is_handed_out(mid, handed[a].0, handed[a].1));
                                let j = choose|j: int|
                                    0 <= j < mid.values.len() && (#[trigger] mid.values[j]).is_value(
                                        handed[a].0,
                                        handed[a].1,
                                    ) && holds_now(mid.values[j]);
                                lemma_values_differ(mid, j, i);
                            }
                        }
                    }
                }
            },
            Step::Commit { txn } => {
                crate::transaction::lemma_committed_wf(mid, txn);
                assert forall|a: int| 0 <= a < end.1.len() implies is_handed_out(
                    end.0,
                    (#[trigger] end.1[a]).0,
                    end.1[a].1,
                ) by {
                    assert(is_handed_out(mid, handed[a].0, handed[a].1));
                    let j = choose|j: int|
                        0 <= j < mid.values.len() && (#[trigger] mid.values[j]).is_value(
                            handed[a].0,
                            handed[a].1,
                        ) && holds_now(mid.values[j]);
                    assert(end.0.values[j] == mid.values[j].committed_by(txn));
                    assert(end.0.values[j].is_value(handed[a].0, handed[a].1));
                }
            },
        }
    }
}

/// Whether no two of the texts are the same.
pub open spec fn all_different(values: Seq<Seq<char>>) -> bool {
    forall|a: int, b: int| 0 <= a < b < values.len() ==> #[trigger] values[a] != #[trigger] values[b]
}

/// A range gives as many values as lie between its start and its end, the
/// start counted and the end not; they are all different, and each is the
/// canonical text of a value of the type.
pub proof fn lemma_range_values_count(vt: ValueType, r: RangeView)
    requires
        range_values(vt, r) is Some,
    ensures
        range_values(vt, r)->Some_0.len() == match vt {
            ValueType::Integer => parse_integer(r.end)->Some_0 - parse_integer(r.start)->Some_0,
            ValueType::Ipv4 => parse_ipv4(r.end)->Some_0 - parse_ipv4(r.start)->Some_0,
            ValueType::String => 0,
        },
        all_different(range_values(vt, r)->Some_0),
        all_canonical(vt, range_values(vt, r)->Some_0),
{
    let values = range_values(vt, r)->Some_0;
    match vt {
        ValueType::Integer => {
            let a = parse_integer(r.start)->Some_0;
            crate::value::lemma_parsed_integer_text(r.start);
            crate::value::lemma_parsed_integer_text(r.end);
            assert forall|i: int| 0 <= i < values.len() implies parse_integer(#[trigger] values[i])
                == Some(a + i) by {
                crate::value::lemma_integer_text_parses(a + i);
            }
        },
        ValueType::Ipv4 => {
            let a = parse_ipv4(r.start)->Some_0;
            crate::value::lemma_parsed_ipv4_text(r.start);
            crate::value::lemma_parsed_ipv4_text(r.end);
            assert forall|i: int| 0 <= i < values.len() implies parse_ipv4(#[trigger] values[i])
                == Some((a + i) as nat) by {
                crate::value::lemma_ipv4_text_parses((a + i) as nat);
            }
        },
        ValueType::String => {},
    }
}

/// A prefix of the length `n` gives one value less than its block has
/// addresses, two to the power of `32 - n`; they are all different, and
/// each is the canonical text of an address.
pub proof fn lemma_prefix_values_count(vt: ValueType, prefix: Seq<char>)
    requires
        prefix_values(vt, prefix) is Some,
    ensures
        prefix_values(vt, prefix)->Some_0.len() == pow2(
            (32 - decimal_value(split_on(prefix, '/')[1])) as nat,
        ) - 1,
        all_different(prefix_values(vt, prefix)->Some_0),
        all_canonical(vt, prefix_values(vt, prefix)->Some_0),
{
    let values = prefix_values(vt, prefix)->Some_0;
    let parts = split_on(prefix, '/');
    let address = parse_ipv4(parts[0])->Some_0;
    let n = decimal_value(parts[1]);
    let size = pow2((32 - n) as nat);
    let q = pow2(n);
    let network = address - address % size;
    crate::value::lemma_parsed_ipv4_text(parts[0]);
    vstd::arithmetic::power2::lemma_pow2_pos((32 - n) as nat);
    vstd::arithmetic::power2::lemma_pow2_pos(n);
    vstd::arithmetic::power2::lemma_pow2_adds((32 - n) as nat, n);
    vstd::arithmetic::power2::lemma2_to64();
    assert(size * q == 0x1_0000_0000);
    assert(0 <= network && network + size <= 0x1_0000_0000) by (nonlinear_arith)
        requires
            size > 0,
            q > 0,
            size * q == 0x1_0000_0000,
            0 <= address < 0x1_0000_0000,
            network == address - address % size,
    ;
    assert forall|i: int| 0 <= i < values.len() implies parse_ipv4(#[trigger] values[i]) == Some(
        (network + i) as nat,
    ) by {
        crate::value::lemma_ipv4_text_parses((network + i) as nat);
    }
}

/// A value that has a row after values were put into a pool had one
/// before or is one of those values.
pub proof fn lemma_populated_only_adds(
    rows: Seq<PoolValueView>,
    name: Seq<char>,
    values: Seq<Seq<char>>,
    auto_assignable: bool,
    txn: u64,
    value: Seq<char>,
)
    requires
        has_value(populated(rows, name, values, auto_assignable, txn), name, value),
    ensures
        has_value(rows, name, value) || exists|k: int| 0 <= k < values.len() && #[trigger] values[k] == value,
    decreases values.len(),
{
    if values.len() > 0 {
        let front = populated(rows, name, values.drop_last(), auto_assignable, txn);
        let whole = populated(rows, name, values, auto_assignable, txn);
        let i = choose|i: int| 0 <= i < whole.len() && (#[trigger] whole[i]).is_value(name, value);
        if i < front.len() {
            assert(whole[i] == front[i]);
            assert(has_value(front, name, value));
            lemma_populated_only_adds(rows, name, values.drop_last(), auto_assignable, txn, value);
            if !has_value(rows, name, value) {
                let k = choose|k: int|
                    0 <= k < values.drop_last().len() && #[trigger] values.drop_last()[k] == value;
                assert(values[k] == value);
            }
        } else {
            assert(values[values.len() - 1] == value);
        }
    }
}

/// Where values that are all different are put into a pool that had no
/// row, the pool has one free value for each of them, classified as was
/// asked, and no other.
pub proof fn lemma_populated_new_pool(
    rows: Seq<PoolValueView>,
    name: Seq<char>,
    values: Seq<Seq<char>>,
    auto_assignable: bool,
    txn: u64,
    st: ResourcePoolStats,
)
    requires
        forall|i: int| 0 <= i < rows.len() ==> (#[trigger] rows[i]).pool_name != name,
        all_different(values),
        is_stats_of(st, populated(rows, name, values, auto_assignable, txn), name, txn),
    ensures
        st.used == 0,
        st.free == values.len(),
        st.auto_assign_used == 0,
        st.non_auto_assign_used == 0,
        st.auto_assign_free == if auto_assignable {
            values.len()
        } else {
            0
        },
        st.non_auto_assign_free == if auto_assignable {
            0
        } else {
            values.len()
        },
{
    lemma_populated_new_pool_counts(rows, name, values, auto_assignable, txn);
}

proof fn lemma_populated_new_pool_counts(
    rows: Seq<PoolValueView>,
    name: Seq<char>,
    values: Seq<Seq<char>>,
    auto_assignable: bool,
    txn: u64,
)
    requires
        forall|i: int| 0 <= i < rows.len() ==> (#[trigger] rows[i]).pool_name != name,
        all_different(values),
    ensures
        forall|auto: bool, used: bool|
            #![trigger count_rows(populated(rows, name, values, auto_assignable, txn), name, txn, auto, used)]
            count_rows(populated(rows, name, values, auto_assignable, txn), name, txn, auto, used)
                == if auto == auto_assignable && !used {
                values.len()
            } else {
                0
            },
    decreases values.len(),
{
    if values.len() == 0 {
        assert forall|auto: bool, used: bool| count_rows(rows, name, txn, auto, used) == 0 by {
            lemma_no_row_no_count(rows, name, txn, auto, used);
        }
    } else {
        let front_values = values.drop_last();
        assert(all_different(front_values)) by {
            assert forall|a: int, b: int| 0 <= a < b < front_values.len() implies #[trigger] front_values[a]
                != #[trigger] front_values[b] by {
                assert(front_values[a] == values[a] && front_values[b] == values[b]);
            }
        }
        lemma_populated_new_pool_counts(rows, name, front_values, auto_assignable, txn);
        let front = populated(rows, name, front_values, auto_assignable, txn);
        let last = values.last();
        if has_value(front, name, last) {
            lemma_populated_only_adds(rows, name, front_values, auto_assignable, txn, last);
            if has_value(rows, name, last) {
                let i = choose|i: int| 0 <= i < rows.len() && (#[trigger] rows[i]).is_value(name, last);
                assert(rows[i].pool_name == name);
            } else {
                let k = choose|k: int| 0 <= k < front_values.len() && #[trigger] front_values[k] == last;
                assert(values[k] == front_values[k]);
                assert(values[k] != values[values.len() - 1]);
            }
        }
        let row = fresh_row(name, last, auto_assignable, txn);
        let whole = front.push(row);
        assert(whole.drop_last() =~= front);
        assert forall|auto: bool, used: bool|
            #![trigger count_rows(populated(rows, name, values, auto_assignable, txn), name, txn, auto, used)]
            count_rows(populated(rows, name, values, auto_assignable, txn), name, txn, auto, used)
                == if auto == auto_assignable && !used {
                values.len()
            } else {
                0
            } by {
            assert(count_rows(front, name, txn, auto, used) == if auto == auto_assignable && !used {
                front_values.len()
            } else {
                0
            });
            assert(whole.last() == row);
        }
    }
}

proof fn lemma_no_row_no_count(
    rows: Seq<PoolValueView>,
    name: Seq<char>,
    txn: u64,
    auto_assignable: bool,
    used: bool,
)
    requires
        forall|i: int| 0 <= i < rows.len() ==> (#[trigger] rows[i]).pool_name != name,
    ensures
        count_rows(rows, name, txn, auto_assignable, used) == 0,
    decreases rows.len(),
{
    if rows.len() > 0 {
        assert forall|i: int| 0 <= i < rows.drop_last().len() implies (#[trigger] rows.drop_last()[i]).pool_name
            != name by {
            assert(rows.drop_last()[i] == rows[i]);
        }
        lemma_no_row_no_count(rows.drop_last(), name, txn, auto_assignable, used);
        assert(rows[rows.len() - 1].pool_name != name);
    }
}

/// The values of a list of one range are the values of the range.
pub proof fn lemma_single_range_values(vt: ValueType, r: RangeView)
    ensures
        ranges_values(vt, seq![r]) == range_values(vt, r),
{
    let ranges = seq![r];
    assert(ranges.drop_last() =~= Seq::<RangeView>::empty());
    assert(ranges.last() == r);
    assert(ranges_values(vt, ranges.drop_last()) == Some(Seq::<Seq<char>>::empty()));
    match range_values(vt, r) {
        Some(values) => {
            assert(Seq::<Seq<char>>::empty() + values =~= values);
        },
        None => {},
    }
}

/// Where a pool that had no row is grown from a definition whose values
/// are all different, as those of one range or of a prefix are, the pool
/// then has one free value for each of them, open to automatic assignment,
/// and no value of it is held.
pub proof fn lemma_grown_new_pool(s: StoreView, d: DefinitionView, txn: u64, st: ResourcePoolStats)
    requires
        grown_by(s, d, txn).1 is Ok,
        forall|i: int| 0 <= i < s.values.len() ==> (#[trigger] s.values[i]).pool_name != d.name,
        all_different(seed_values(d.value_type, d.seed)->Some_0),
        is_stats_of(st, grown_by(s, d, txn).0.values, d.name, txn),
    ensures
        st.used == 0,
        st.free == seed_values(d.value_type, d.seed)->Some_0.len(),
        st.auto_assign_free == st.free,
        st.auto_assign_used == 0,
        st.non_auto_assign_free == 0,
        st.non_auto_assign_used == 0,
{
    lemma_populated_new_pool(
        s.values,
        d.name,
        seed_values(d.value_type, d.seed)->Some_0,
        true,
        txn,
        st,
    );
}

} // verus!
