//! Handing out the values of a pool, and taking them back.

use crate::error::ResourcePoolError;
use crate::store::{
    lemma_pool_type, lemma_row_has_pool, lemma_with_allocation_wf, Allocation, AllocationView,
    OwnerType, Pending, ResourcePool, Store, StoreView,
};
use crate::value::{lemma_natural_lt_transitive, natural_less, natural_lt};
use vstd::prelude::*;

verus! {

/// What an allocation without a named value comes to. A transaction that
/// the store does not know is refused. Where no value of the pool can be
/// handed out, the pool counts as empty. Else the value that comes first in
/// the order of the pool's type is allocated. Nothing changes where an
/// error is reported.
pub open spec fn auto_outcome(
    before: StoreView,
    after: StoreView,
    name: Seq<char>,
    txn: u64,
    allocation: AllocationView,
    r: Result<Seq<char>, ResourcePoolError>,
) -> bool {
    if !before.knows(txn) {
        r == Err::<Seq<char>, ResourcePoolError>(ResourcePoolError::Store) && after == before
    } else if forall|i: int|
        0 <= i < before.values.len() ==> !(#[trigger] before.values[i]).is_candidate(name, txn) {
        r == Err::<Seq<char>, ResourcePoolError>(ResourcePoolError::Empty) && after == before
    } else {
        exists|i: int|
            {
                &&& #[trigger] before.is_lowest_candidate(i, name, txn)
                &&& r == Ok::<Seq<char>, ResourcePoolError>(before.values[i].value)
                &&& after == before.with_allocation(i, txn, Some(allocation))
            }
    }
}

/// What an allocation of a named value comes to. A transaction that the
/// store does not know is refused. A value that the transaction does not
/// see in the pool is not found. A value that is held as the transaction
/// sees it, or whose lock another transaction holds, is in conflict. Else
/// the value is allocated, whether or not automatic assignment is allowed
/// for it. Nothing changes where an error is reported.
pub open spec fn manual_outcome(
    before: StoreView,
    after: StoreView,
    name: Seq<char>,
    value: Seq<char>,
    txn: u64,
    allocation: AllocationView,
    r: Result<Seq<char>, ResourcePoolError>,
) -> bool {
    if !before.knows(txn) {
        r == Err::<Seq<char>, ResourcePoolError>(ResourcePoolError::Store) && after == before
    } else if !before.sees_value(name, value, txn) {
        r == Err::<Seq<char>, ResourcePoolError>(ResourcePoolError::NotFound) && after == before
    } else {
        exists|i: int|
            {
                &&& 0 <= i < before.values.len()
                &&& (#[trigger] before.values[i]).is_value(name, value)
                &&& if before.values[i].allocation_for(txn) is Some
                    || before.values[i].locked_by_other(txn) {
                    r == Err::<Seq<char>, ResourcePoolError>(ResourcePoolError::Conflict) && after
                        == before
                } else {
                    r == Ok::<Seq<char>, ResourcePoolError>(value) && after
                        == before.with_allocation(i, txn, Some(allocation))
                }
            }
    }
}

/// What the release of a value comes to. A transaction that the store does
/// not know is refused. A value that the transaction does not see in the
/// pool, or sees free, is not allocated. A held value whose lock another
/// transaction holds cannot be released now. Else the value is free again.
/// Nothing changes where an error is reported.
pub open spec fn release_outcome(
    before: StoreView,
    after: StoreView,
    name: Seq<char>,
    value: Seq<char>,
    txn: u64,
    r: Result<(), ResourcePoolError>,
) -> bool {
    if !before.knows(txn) {
        r == Err::<(), ResourcePoolError>(ResourcePoolError::Store) && after == before
    } else if !before.sees_value(name, value, txn) {
        r == Err::<(), ResourcePoolError>(ResourcePoolError::NotAllocated) && after == before
    } else {
        exists|i: int|
            {
                &&& 0 <= i < before.values.len()
                &&& (#[trigger] before.values[i]).is_value(name, value)
                &&& if before.values[i].allocation_for(txn) is None {
                    r == Err::<(), ResourcePoolError>(ResourcePoolError::NotAllocated) && after
                        == before
                } else if before.values[i].locked_by_other(txn) {
                    r == Err::<(), ResourcePoolError>(ResourcePoolError::Store) && after == before
                } else {
                    r == Ok::<(), ResourcePoolError>(()) && after == before.with_allocation(
                        i,
                        txn,
                        None,
                    )
                }
            }
    }
}

/// The tables after an allocation without a named value, and what is
/// reported: as `auto_outcome` has it, with the row that is allocated
/// picked out.
pub open spec fn auto_allocated(
    s: StoreView,
    name: Seq<char>,
    txn: u64,
    allocation: AllocationView,
) -> (StoreView, Result<Seq<char>, ResourcePoolError>) {
    if !s.knows(txn) {
        (s, Err(ResourcePoolError::Store))
    } else if forall|i: int| 0 <= i < s.values.len() ==> !(#[trigger] s.values[i]).is_candidate(name, txn) {
        (s, Err(ResourcePoolError::Empty))
    } else {
        let i = choose|i: int| #[trigger] s.is_lowest_candidate(i, name, txn);
        (s.with_allocation(i, txn, Some(allocation)), Ok(s.values[i].value))
    }
}

/// Of the values of a pool that can be handed out to a transaction, one
/// only comes first.
pub proof fn lemma_lowest_candidate_is_one(s: StoreView, i: int, j: int, name: Seq<char>, txn: u64)
    requires
        s.wf(),
        s.is_lowest_candidate(i, name, txn),
        s.is_lowest_candidate(j, name, txn),
    ensures
        i == j,
{
    if i != j {
        if s.values[i].value == s.values[j].value {
            crate::store::lemma_values_differ(s, i, j);
        }
        lemma_row_has_pool(s, i);
        lemma_row_has_pool(s, j);
        crate::value::lemma_natural_lt_total(s.pool_type(name), s.values[i].value, s.values[j].value);
    }
}

/// What an allocation without a named value comes to is settled by the
/// tables, the pool, the transaction and the owner.
pub proof fn lemma_auto_outcome_is_settled(
    before: StoreView,
    after: StoreView,
    name: Seq<char>,
    txn: u64,
    allocation: AllocationView,
    r: Result<Seq<char>, ResourcePoolError>,
)
    requires
        before.wf(),
        auto_outcome(before, after, name, txn, allocation, r),
    ensures
        (after, r) == auto_allocated(before, name, txn, allocation),
{
    if before.knows(txn) && !(forall|i: int|
        0 <= i < before.values.len() ==> !(#[trigger] before.values[i]).is_candidate(name, txn)) {
        let i = choose|i: int|
            {
                &&& #[trigger] before.is_lowest_candidate(i, name, txn)
                &&& r == Ok::<Seq<char>, ResourcePoolError>(before.values[i].value)
                &&& after == before.with_allocation(i, txn, Some(allocation))
            };
        let c = choose|c: int| #[trigger] before.is_lowest_candidate(c, name, txn);
        lemma_lowest_candidate_is_one(before, i, c, name, txn);
    }
}

/// The text of a result that holds one.
pub open spec fn text_of(r: Result<String, ResourcePoolError>) -> Result<Seq<char>, ResourcePoolError> {
    match r {
        Ok(v) => Ok(v@),
        Err(e) => Err(e),
    }
}

/// Sets the allocation of the row at `i` in the name of `txn`.
pub(crate) fn set_allocation(store: &mut Store, i: usize, txn: u64, allocation: Option<Allocation>)
    requires
        old(store)@.wf(),
        old(store)@.knows(txn),
        i < old(store)@.values.len(),
        !old(store)@.values[i as int].locked_by_other(txn),
    ensures
        final(store)@.wf(),
        final(store)@ == old(store)@.with_allocation(i as int, txn, allocation.deep_view()),
{
    let created = store.values[i].is_created_by(txn);
    store.values[i].pending = Some(Pending { txn, created, allocation });
    proof {
        let before = old(store)@;
        assert(store@.values =~= before.values.update(
            i as int,
            before.values[i as int].changed_by(txn, allocation.deep_view()),
        ));
        assert(store@.pools =~= before.pools);
        lemma_with_allocation_wf(before, i as int, txn, allocation.deep_view());
    }
}

/// Allocates the lowest value of the pool `name` that can be handed out to
/// `txn` without being named.
fn allocate_auto(
    store: &mut Store,
    name: &str,
    txn: u64,
    owner_type: OwnerType,
    owner_id: &str,
    allocated_at: u64,
) -> (r: Result<String, ResourcePoolError>)
    requires
        old(store)@.wf(),
    ensures
        final(store)@.wf(),
        auto_outcome(
            old(store)@,
            final(store)@,
            name@,
            txn,
            AllocationView { owner_type, owner_id: owner_id@, allocated_at },
            text_of(r),
        ),
{
    if txn >= store.next_txn {
        return Err(ResourcePoolError::Store);
    }
    let ghost before = store@;
    let vt = match store.find_pool(name) {
        Some(k) => {
            proof {
                lemma_pool_type(before, k as int);
            }
            store.pools[k].value_type
        },
        None => {
            proof {
                assert forall|i: int| 0 <= i < before.values.len() implies !(
                #[trigger] before.values[i]).is_candidate(name@, txn) by {
                    lemma_row_has_pool(before, i);
                }
            }
            return Err(ResourcePoolError::Empty);
        },
    };
    let mut best: Option<usize> = None;
    let mut i: usize = 0;
    while i < store.values.len()
        invariant
            store@ == before,
            i <= store.values.len(),
            store.values.len() == before.values.len(),
            vt == before.pool_type(name@),
            match best {
                Some(b) => {
                    &&& b < i
                    &&& before.values[b as int].is_candidate(name@, txn)
                    &&& forall|j: int|
                        0 <= j < i && (#[trigger] before.values[j]).is_candidate(name@, txn)
                            ==> !natural_lt(vt, before.values[j].value, before.values[b as int].value)
                },
                None => forall|j: int|
                    0 <= j < i ==> !(#[trigger] before.values[j]).is_candidate(name@, txn),
            },
        decreases store.values.len() - i,
    {
        let row = &store.values[i];
        if row.auto_assignable && crate::strings::same_text(row.pool_name.as_str(), name)
            && row.is_visible_to(txn) && row.is_free_for(txn) && !row.is_locked_by_other(txn) {
            assert(before.values[i as int].is_candidate(name@, txn));
            match best {
                Some(b) => {
                    if natural_less(vt, row.value.as_str(), store.values[b].value.as_str()) {
                        proof {
                            assert forall|j: int|
                                0 <= j < i + 1 && (#[trigger] before.values[j]).is_candidate(
                                    name@,
                                    txn,
                                ) implies !natural_lt(
                                vt,
                                before.values[j].value,
                                before.values[i as int].value,
                            ) by {
                                if j == i {
                                    crate::value::lemma_natural_lt_irreflexive(
                                        vt,
                                        before.values[i as int].value,
                                    );
                                } else if natural_lt(
                                    vt,
                                    before.values[j].value,
                                    before.values[i as int].value,
                                ) {
                                    lemma_natural_lt_transitive(
                                        vt,
                                        before.values[j].value,
                                        before.values[i as int].value,
                                        before.values[b as int].value,
                                    );
                                }
                            }
                        }
                        best = Some(i);
                    }
                },
                None => {
                    proof {
                        crate::value::lemma_natural_lt_irreflexive(vt, before.values[i as int].value);
                    }
                    best = Some(i);
                },
            }
        } else {
            assert(!before.values[i as int].is_candidate(name@, txn));
        }
        i = i + 1;
    }
    match best {
        Some(b) => {
            let value = store.values[b].value.clone();
            let allocation = Allocation { owner_type, owner_id: owner_id.to_owned(), allocated_at };
            assert(before.is_lowest_candidate(b as int, name@, txn));
            set_allocation(store, b, txn, Some(allocation));
            Ok(value)
        },
        None => Err(ResourcePoolError::Empty),
    }
}

/// Allocates the value `value` of the pool `name`.
fn allocate_manual(
    store: &mut Store,
    name: &str,
    value: String,
    txn: u64,
    owner_type: OwnerType,
    owner_id: &str,
    allocated_at: u64,
) -> (r: Result<String, ResourcePoolError>)
    requires
        old(store)@.wf(),
    ensures
        final(store)@.wf(),
        manual_outcome(
            old(store)@,
            final(store)@,
            name@,
            value@,
            txn,
            AllocationView { owner_type, owner_id: owner_id@, allocated_at },
            text_of(r),
        ),
{
    if txn >= store.next_txn {
        return Err(ResourcePoolError::Store);
    }
    let ghost before = store@;
    match store.find_value(name, value.as_str()) {
        Some(i) => {
            if !store.values[i].is_visible_to(txn) {
                proof {
                    assert forall|j: int|
                        0 <= j < before.values.len() && (#[trigger] before.values[j]).is_value(
                            name@,
                            value@,
                        ) implies !before.values[j].visible_to(txn) by {
                        crate::store::lemma_values_differ(before, j, i as int);
                    }
                }
                return Err(ResourcePoolError::NotFound);
            }
            assert(before.sees_value(name@, value@, txn));
            if !store.values[i].is_free_for(txn) || store.values[i].is_locked_by_other(txn) {
                return Err(ResourcePoolError::Conflict);
            }
            let allocation = Allocation { owner_type, owner_id: owner_id.to_owned(), allocated_at };
            set_allocation(store, i, txn, Some(allocation));
            Ok(value)
        },
        None => Err(ResourcePoolError::NotFound),
    }
}

/// Allocates a value of the pool to the owner, in the name of the
/// transaction `txn`: the value `requested` where one is named, else the
/// lowest value that is free for automatic assignment. Gives the canonical
/// text of the value.
pub fn allocate(
    pool: &ResourcePool,
    store: &mut Store,
    txn: u64,
    owner_type: OwnerType,
    owner_id: &str,
    requested: Option<String>,
    allocated_at: u64,
) -> (r: Result<String, ResourcePoolError>)
    requires
        old(store)@.wf(),
    ensures
        final(store)@.wf(),
        match requested {
            None => auto_outcome(
                old(store)@,
                final(store)@,
                pool.spec_name(),
                txn,
                AllocationView { owner_type, owner_id: owner_id@, allocated_at },
                text_of(r),
            ),
            Some(value) => manual_outcome(
                old(store)@,
                final(store)@,
                pool.spec_name(),
                value@,
                txn,
                AllocationView { owner_type, owner_id: owner_id@, allocated_at },
                text_of(r),
            ),
        },
{
    match requested {
        None => allocate_auto(store, pool.name(), txn, owner_type, owner_id, allocated_at),
        Some(value) => allocate_manual(
            store,
            pool.name(),
            value,
            txn,
            owner_type,
            owner_id,
            allocated_at,
        ),
    }
}

/// Releases the value `value` of the pool, in the name of the transaction
/// `txn`.
pub fn release(pool: &ResourcePool, store: &mut Store, txn: u64, value: String) -> (r: Result<
    (),
    ResourcePoolError,
>)
    requires
        old(store)@.wf(),
    ensures
        final(store)@.wf(),
        release_outcome(old(store)@, final(store)@, pool.spec_name(), value@, txn, r),
{
    if txn >= store.next_txn {
        return Err(ResourcePoolError::Store);
    }
    let ghost before = store@;
    let name = pool.name();
    match store.find_value(name, value.as_str()) {
        Some(i) => {
            if !store.values[i].is_visible_to(txn) {
                proof {
                    assert forall|j: int|
                        0 <= j < before.values.len() && (#[trigger] before.values[j]).is_value(
                            name@,
                            value@,
                        ) implies !before.values[j].visible_to(txn) by {
                        crate::store::lemma_values_differ(before, j, i as int);
                    }
                }
                return Err(ResourcePoolError::NotAllocated);
            }
            assert(before.sees_value(name@, value@, txn));
            if store.values[i].is_free_for(txn) {
                return Err(ResourcePoolError::NotAllocated);
            }
            if store.values[i].is_locked_by_other(txn) {
                return Err(ResourcePoolError::Store);
            }
            set_allocation(store, i, txn, None);
            Ok(())
        },
        None => Err(ResourcePoolError::NotAllocated),
    }
}

} // verus!
