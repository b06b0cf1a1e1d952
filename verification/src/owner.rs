//! Owners and what they hold.
//!
//! When an owner comes into being it is given a value from each pool that
//! it needs one from; when it goes, all that it holds is released. An
//! owner that holds nothing is not known here, so that an owner which is
//! deleted a second time releases nothing.

use crate::allocator::{
    allocate, auto_allocated, lemma_auto_outcome_is_settled, set_allocation, text_of,
};
use crate::error::ResourcePoolError;
use crate::store::{
    AllocationView, OwnerType, PoolValue, PoolValueView, ResourcePool, Store, StoreView,
};
use crate::strings::same_text;
use vstd::prelude::*;

verus! {

/// Whether, as `txn` sees it, the row is held by the owner.
pub open spec fn is_held_by(
    row: PoolValueView,
    txn: u64,
    owner_type: OwnerType,
    owner_id: Seq<char>,
) -> bool {
    &&& row.visible_to(txn)
    &&& row.allocation_for(txn) matches Some(a) && a.owner_type == owner_type && a.owner_id
        == owner_id
}

/// The row after `txn` has released it where the owner held it.
pub open spec fn released_row(
    row: PoolValueView,
    txn: u64,
    owner_type: OwnerType,
    owner_id: Seq<char>,
) -> PoolValueView {
    if is_held_by(row, txn, owner_type, owner_id) {
        row.changed_by(txn, None)
    } else {
        row
    }
}

/// The rows after `txn` has released all that the owner held.
pub open spec fn released_rows(
    values: Seq<PoolValueView>,
    txn: u64,
    owner_type: OwnerType,
    owner_id: Seq<char>,
) -> Seq<PoolValueView> {
    Seq::new(values.len(), |i: int| released_row(values[i], txn, owner_type, owner_id))
}

/// Whether `txn` can release all that the owner holds, and if not, why
/// not. A transaction that the store does not know is refused. An owner
/// that holds nothing is not found. Where another transaction holds the
/// lock of a value that the owner holds, the release cannot be done now.
pub open spec fn release_owner_verdict(
    s: StoreView,
    txn: u64,
    owner_type: OwnerType,
    owner_id: Seq<char>,
) -> Result<(), ResourcePoolError> {
    if !s.knows(txn) {
        Err(ResourcePoolError::Store)
    } else if forall|i: int|
        0 <= i < s.values.len() ==> !is_held_by(#[trigger] s.values[i], txn, owner_type, owner_id) {
        Err(ResourcePoolError::NotFound)
    } else if exists|i: int|
        0 <= i < s.values.len() && is_held_by(#[trigger] s.values[i], txn, owner_type, owner_id)
            && s.values[i].locked_by_other(txn) {
        Err(ResourcePoolError::Store)
    } else {
        Ok(())
    }
}

/// Whether, as `txn` sees it, the row is held by the owner.
fn held_by(row: &PoolValue, txn: u64, owner_type: OwnerType, owner_id: &str) -> (r: bool)
    ensures
        r == is_held_by(row.deep_view(), txn, owner_type, owner_id@),
{
    if !row.is_visible_to(txn) {
        return false;
    }
    let mine = match &row.pending {
        Some(p) => p.txn == txn,
        None => false,
    };
    if mine {
        match &row.pending {
            Some(p) => match &p.allocation {
                Some(a) => a.owner_type == owner_type && same_text(a.owner_id.as_str(), owner_id),
                None => false,
            },
            None => false,
        }
    } else {
        match &row.allocation {
            Some(a) => a.owner_type == owner_type && same_text(a.owner_id.as_str(), owner_id),
            None => false,
        }
    }
}

/// Releases, in the name of the transaction `txn`, every value that the
/// owner holds. Nothing changes where an error is reported.
pub fn release_owner(store: &mut Store, txn: u64, owner_type: OwnerType, owner_id: &str) -> (r: Result<
    (),
    ResourcePoolError,
>)
    requires
        old(store)@.wf(),
    ensures
        final(store)@.wf(),
        r == release_owner_verdict(old(store)@, txn, owner_type, owner_id@),
        final(store)@ == if r is Ok {
            StoreView {
                values: released_rows(old(store)@.values, txn, owner_type, owner_id@),
                ..old(store)@
            }
        } else {
            old(store)@
        },
{
    if txn >= store.next_txn {
        return Err(ResourcePoolError::Store);
    }
    let ghost before = store@;
    let mut holds = false;
    let mut blocked = false;
    let mut i: usize = 0;
    while i < store.values.len()
        invariant
            store@ == before,
            i <= store.values.len(),
            store.values.len() == before.values.len(),
            holds == exists|j: int|
                0 <= j < i && is_held_by(#[trigger] before.values[j], txn, owner_type, owner_id@),
            blocked == exists|j: int|
                0 <= j < i && is_held_by(#[trigger] before.values[j], txn, owner_type, owner_id@)
                    && before.values[j].locked_by_other(txn),
        decreases store.values.len() - i,
    {
        assert(before.values[i as int] == store.values@[i as int].deep_view());
        if held_by(&store.values[i], txn, owner_type, owner_id) {
            holds = true;
            if store.values[i].is_locked_by_other(txn) {
                blocked = true;
            }
        }
        i = i + 1;
    }
    if !holds {
        return Err(ResourcePoolError::NotFound);
    }
    if blocked {
        return Err(ResourcePoolError::Store);
    }
    let mut i: usize = 0;
    while i < store.values.len()
        invariant
            before.wf(),
            before.knows(txn),
            store@.wf(),
            i <= store.values.len(),
            store.values.len() == before.values.len(),
            store@.pools == before.pools,
            store@.next_txn == before.next_txn,
            forall|j: int|
                0 <= j < before.values.len() && is_held_by(
                    #[trigger] before.values[j],
                    txn,
                    owner_type,
                    owner_id@,
                ) ==> !before.values[j].locked_by_other(txn),
            forall|j: int|
                0 <= j < i ==> #[trigger] store@.values[j] == released_row(
                    before.values[j],
                    txn,
                    owner_type,
                    owner_id@,
                ),
            forall|j: int| i <= j < store.values.len() ==> #[trigger] store@.values[j] == before.values[j],
        decreases store.values.len() - i,
    {
        assert(store@.values[i as int] == store.values@[i as int].deep_view());
        if held_by(&store.values[i], txn, owner_type, owner_id) {
            assert(is_held_by(before.values[i as int], txn, owner_type, owner_id@));
            let ghost cur = store@;
            set_allocation(store, i, txn, None);
            proof {
                assert(store@.values.len() == store.values@.len());
                assert forall|j: int| 0 <= j < i + 1 implies #[trigger] store@.values[j] == released_row(
                    before.values[j],
                    txn,
                    owner_type,
                    owner_id@,
                ) by {
                    if j < i {
                        assert(store@.values[j] == cur.values[j]);
                    }
                }
                assert forall|j: int| i + 1 <= j < store.values.len() implies #[trigger] store@.values[j]
                    == before.values[j] by {
                    assert(store@.values[j] == cur.values[j]);
                }
            }
        }
        i = i + 1;
    }
    proof {
        assert(store@.values =~= released_rows(before.values, txn, owner_type, owner_id@));
    }
    Ok(())
}

/// The tables after `txn` has allocated to the owner, without naming a
/// value, one value from each of the pools `names` in turn, and what is
/// reported: the values, or the first error. An error ends the work: what
/// was allocated before it stays allocated in the transaction, and the
/// caller rolls the transaction back.
pub open spec fn allocated_each(
    s: StoreView,
    names: Seq<Seq<char>>,
    txn: u64,
    allocation: AllocationView,
) -> (StoreView, Result<Seq<Seq<char>>, ResourcePoolError>)
    decreases names.len(),
{
    if names.len() == 0 {
        (s, Ok(Seq::empty()))
    } else {
        let front = allocated_each(s, names.drop_last(), txn, allocation);
        match front.1 {
            Err(_) => front,
            Ok(values) => {
                let last = auto_allocated(front.0, names.last(), txn, allocation);
                match last.1 {
                    Ok(v) => (last.0, Ok(values.push(v))),
                    Err(e) => (last.0, Err(e)),
                }
            },
        }
    }
}

/// The names of the pools.
pub open spec fn names_of(pools: Seq<ResourcePool>) -> Seq<Seq<char>> {
    Seq::new(pools.len(), |i: int| pools[i].spec_name())
}

/// The texts of a result that holds some.
pub open spec fn texts_of(r: Result<Vec<String>, ResourcePoolError>) -> Result<
    Seq<Seq<char>>,
    ResourcePoolError,
> {
    match r {
        Ok(v) => Ok(v.deep_view()),
        Err(e) => Err(e),
    }
}

/// Allocates to the owner, in the name of the transaction `txn` and
/// without naming a value, one value from each of the pools in turn. Gives
/// the canonical texts of the values, in the order of the pools.
pub fn allocate_for_owner(
    pools: &Vec<ResourcePool>,
    store: &mut Store,
    txn: u64,
    owner_type: OwnerType,
    owner_id: &str,
    allocated_at: u64,
) -> (r: Result<Vec<String>, ResourcePoolError>)
    requires
        old(store)@.wf(),
    ensures
        final(store)@.wf(),
        (final(store)@, texts_of(r)) == allocated_each(
            old(store)@,
            names_of(pools@),
            txn,
            AllocationView { owner_type, owner_id: owner_id@, allocated_at },
        ),
{
    let ghost before = store@;
    let ghost names = names_of(pools@);
    let ghost allocation = AllocationView { owner_type, owner_id: owner_id@, allocated_at };
    let mut out: Vec<String> = Vec::new();
    let mut k: usize = 0;
    proof {
        assert(names.take(0) =~= Seq::<Seq<char>>::empty());
        assert(out.deep_view() =~= Seq::<Seq<char>>::empty());
    }
    while k < pools.len()
        invariant
            k <= pools.len(),
            names == names_of(pools@),
            before == old(store)@,
            allocation == (AllocationView { owner_type, owner_id: owner_id@, allocated_at }),
            store@.wf(),
            (store@, Ok::<Seq<Seq<char>>, ResourcePoolError>(out.deep_view())) == allocated_each(
                before,
                names.take(k as int),
                txn,
                allocation,
            ),
        decreases pools.len() - k,
    {
        let ghost mid = store@;
        let ghost front = out.deep_view();
        proof {
            assert(names.take(k + 1).drop_last() =~= names.take(k as int));
            assert(names.take(k + 1).last() == pools@[k as int].spec_name());
        }
        let got = allocate(&pools[k], store, txn, owner_type, owner_id, None, allocated_at);
        proof {
            lemma_auto_outcome_is_settled(
                mid,
                store@,
                pools@[k as int].spec_name(),
                txn,
                allocation,
                text_of(got),
            );
        }
        match got {
            Ok(v) => {
                out.push(v);
                proof {
                    assert(out.deep_view() =~= front.push(v@));
                }
            },
            Err(e) => {
                proof {
                    lemma_allocated_each_stops(before, names, txn, allocation, k + 1);
                }
                return Err(e);
            },
        }
        k = k + 1;
    }
    proof {
        assert(names.take(pools.len() as int) =~= names);
    }
    Ok(out)
}

/// Where the allocation from the first `k` pools has ended in an error, the
/// allocation from all of them comes to the same.
pub proof fn lemma_allocated_each_stops(
    s: StoreView,
    names: Seq<Seq<char>>,
    txn: u64,
    allocation: AllocationView,
    k: int,
)
    requires
        0 <= k <= names.len(),
        allocated_each(s, names.take(k), txn, allocation).1 is Err,
    ensures
        allocated_each(s, names, txn, allocation) == allocated_each(s, names.take(k), txn, allocation),
    decreases names.len() - k,
{
    if k == names.len() {
        assert(names.take(k) =~= names);
    } else {
        assert(names.take(k + 1).drop_last() =~= names.take(k));
        lemma_allocated_each_stops(s, names, txn, allocation, k + 1);
    }
}

} // verus!
