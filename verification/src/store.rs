//! The tables of pools and pool values, and the transactions on them.
//!
//! A store holds every pool and every value of every pool. All changes are
//! made in the name of a transaction. What a transaction has changed is
//! seen by that transaction alone until it commits, and is gone when it
//! rolls back. A row that a transaction has changed is locked: no other
//! transaction can change it until the first one has ended.

use crate::error::ResourcePoolError;
use crate::strings::same_text;
use crate::value::{is_canonical, natural_lt, text_lt, ValueType};
use vstd::prelude::*;

verus! {

/// The kind of entity that holds a value.
#[derive(Clone, Copy, Debug, PartialEq, Eq, Structural)]
pub enum OwnerType {
    Machine,
    Vpc,
    Instance,
    NetworkSegment,
}

/// The record that a value is held: by whom, and since when.
#[derive(Debug)]
pub struct Allocation {
    pub owner_type: OwnerType,
    pub owner_id: String,
    pub allocated_at: u64,
}

/// An allocation as mathematics has it.
pub struct AllocationView {
    pub owner_type: OwnerType,
    pub owner_id: Seq<char>,
    pub allocated_at: u64,
}

impl DeepView for Allocation {
    type V = AllocationView;

    open spec fn deep_view(&self) -> AllocationView {
        AllocationView {
            owner_type: self.owner_type,
            owner_id: self.owner_id@,
            allocated_at: self.allocated_at,
        }
    }
}

/// What an open transaction has done to a row and not yet committed. The
/// transaction holds the lock of the row.
#[derive(Debug)]
pub struct Pending {
    /// The transaction.
    pub txn: u64,
    /// Whether the transaction inserted the row.
    pub created: bool,
    /// The allocation of the row as the transaction has it.
    pub allocation: Option<Allocation>,
}

/// A pending change as mathematics has it.
pub struct PendingView {
    pub txn: u64,
    pub created: bool,
    pub allocation: Option<AllocationView>,
}

impl DeepView for Pending {
    type V = PendingView;

    open spec fn deep_view(&self) -> PendingView {
        PendingView {
            txn: self.txn,
            created: self.created,
            allocation: self.allocation.deep_view(),
        }
    }
}

/// One value of one pool.
#[derive(Debug)]
pub struct PoolValue {
    pub pool_name: String,
    /// The canonical text of the value.
    pub value: String,
    /// Whether the value may be handed out to a caller that names none.
    pub auto_assignable: bool,
    /// The committed allocation of the value, if it is held.
    pub allocation: Option<Allocation>,
    /// The uncommitted change of the transaction that holds the lock of
    /// the row, if one does.
    pub pending: Option<Pending>,
}

/// A pool value as mathematics has it.
pub struct PoolValueView {
    pub pool_name: Seq<char>,
    pub value: Seq<char>,
    pub auto_assignable: bool,
    pub allocation: Option<AllocationView>,
    pub pending: Option<PendingView>,
}

impl DeepView for PoolValue {
    type V = PoolValueView;

    open spec fn deep_view(&self) -> PoolValueView {
        PoolValueView {
            pool_name: self.pool_name@,
            value: self.value@,
            auto_assignable: self.auto_assignable,
            allocation: self.allocation.deep_view(),
            pending: self.pending.deep_view(),
        }
    }
}

impl PoolValueView {
    /// Whether the row is the value `value` of the pool `name`.
    pub open spec fn is_value(self, name: Seq<char>, value: Seq<char>) -> bool {
        self.pool_name == name && self.value == value
    }

    /// Whether the transaction `txn` holds the lock of the row.
    pub open spec fn locked_by(self, txn: u64) -> bool {
        self.pending matches Some(p) && p.txn == txn
    }

    /// Whether another transaction than `txn` holds the lock of the row.
    pub open spec fn locked_by_other(self, txn: u64) -> bool {
        self.pending matches Some(p) && p.txn != txn
    }

    /// Whether the transaction `txn` inserted the row and has not yet
    /// committed.
    pub open spec fn created_by(self, txn: u64) -> bool {
        self.pending matches Some(p) && p.txn == txn && p.created
    }

    /// Whether the transaction `txn` sees the row: it does unless another
    /// transaction inserted it and has not yet committed.
    pub open spec fn visible_to(self, txn: u64) -> bool {
        self.pending matches Some(p) ==> !p.created || p.txn == txn
    }

    /// The allocation of the row as the transaction `txn` sees it: its own
    /// uncommitted one where it holds the lock, else the committed one.
    pub open spec fn allocation_for(self, txn: u64) -> Option<AllocationView> {
        match self.pending {
            Some(p) => if p.txn == txn {
                p.allocation
            } else {
                self.allocation
            },
            None => self.allocation,
        }
    }

    /// Whether `txn` sees the row as a value of the pool `name`.
    pub open spec fn seen_in(self, name: Seq<char>, txn: u64) -> bool {
        self.pool_name == name && self.visible_to(txn)
    }

    /// Whether the row can be handed out to `txn` without being named: it
    /// is a value of the pool `name` that `txn` sees, automatic assignment
    /// is allowed, it is free as `txn` sees it, and no other transaction
    /// holds its lock.
    pub open spec fn is_candidate(self, name: Seq<char>, txn: u64) -> bool {
        &&& self.seen_in(name, txn)
        &&& self.auto_assignable
        &&& self.allocation_for(txn) is None
        &&& !self.locked_by_other(txn)
    }

    /// The row after `txn` has set its allocation to `allocation`: `txn`
    /// holds the lock, and the committed allocation is as before.
    pub open spec fn changed_by(self, txn: u64, allocation: Option<AllocationView>) -> PoolValueView {
        PoolValueView {
            pending: Some(PendingView { txn, created: self.created_by(txn), allocation }),
            ..self
        }
    }

    /// The row after `txn` has committed.
    pub open spec fn committed_by(self, txn: u64) -> PoolValueView {
        match self.pending {
            Some(p) => if p.txn == txn {
                PoolValueView { allocation: p.allocation, pending: None, ..self }
            } else {
                self
            },
            None => self,
        }
    }

    /// The row after `txn` has rolled back, where `txn` did not insert it.
    pub open spec fn abandoned_by(self, txn: u64) -> PoolValueView {
        if self.locked_by(txn) {
            PoolValueView { pending: None, ..self }
        } else {
            self
        }
    }
}

/// A pool: its name and the type of its values.
#[derive(Debug)]
pub struct Pool {
    pub name: String,
    pub value_type: ValueType,
    /// The transaction that registered the pool, until it commits.
    pub created_by: Option<u64>,
}

/// A pool as mathematics has it.
pub struct PoolView {
    pub name: Seq<char>,
    pub value_type: ValueType,
    pub created_by: Option<u64>,
}

impl DeepView for Pool {
    type V = PoolView;

    open spec fn deep_view(&self) -> PoolView {
        PoolView { name: self.name@, value_type: self.value_type, created_by: self.created_by }
    }
}

impl PoolView {
    /// Whether the transaction `txn` sees the pool: it does unless another
    /// transaction registered it and has not yet committed.
    pub open spec fn visible_to(self, txn: u64) -> bool {
        self.created_by matches Some(c) ==> c == txn
    }

    /// Whether the row `r` is in order as a value of this pool: it bears
    /// the pool's name, its text is canonical for the pool's type, and as
    /// long as the pool is uncommitted the row is an uncommitted insert of
    /// the same transaction.
    pub open spec fn admits(self, r: PoolValueView) -> bool {
        &&& self.name == r.pool_name
        &&& is_canonical(self.value_type, r.value)
        &&& self.created_by matches Some(c) ==> r.created_by(c)
    }
}

/// The tables as mathematics has them.
pub struct StoreView {
    /// The pools, in the order of their names.
    pub pools: Seq<PoolView>,
    /// The values of all pools, in the order in which they were inserted.
    pub values: Seq<PoolValueView>,
    /// The number that the next transaction gets.
    pub next_txn: u64,
}

impl StoreView {
    /// Whether the tables are in order.
    pub open spec fn wf(self) -> bool {
        &&& forall|i: int, j: int|
            0 <= i < j < self.pools.len() ==> text_lt(
                (#[trigger] self.pools[i]).name,
                (#[trigger] self.pools[j]).name,
            )
        &&& forall|i: int, j: int|
            0 <= i < j < self.values.len() ==> !(#[trigger] self.values[i]).is_value(
                (#[trigger] self.values[j]).pool_name,
                self.values[j].value,
            )
        &&& forall|i: int| 0 <= i < self.values.len() ==> self.has_pool_for(#[trigger] self.values[i])
        &&& forall|i: int|
            0 <= i < self.values.len() ==> ((#[trigger] self.values[i]).pending matches Some(p)
                ==> p.txn < self.next_txn)
        &&& forall|k: int|
            0 <= k < self.pools.len() ==> ((#[trigger] self.pools[k]).created_by matches Some(c)
                ==> c < self.next_txn)
    }

    /// Whether a pool of the store admits the row `r`.
    pub open spec fn has_pool_for(self, r: PoolValueView) -> bool {
        exists|k: int| 0 <= k < self.pools.len() && (#[trigger] self.pools[k]).admits(r)
    }

    /// Whether `txn` is a transaction that the store has begun.
    pub open spec fn knows(self, txn: u64) -> bool {
        txn < self.next_txn
    }

    /// Whether `txn` holds no lock and has no uncommitted insert.
    pub open spec fn untouched_by(self, txn: u64) -> bool {
        &&& forall|i: int| 0 <= i < self.values.len() ==> !(#[trigger] self.values[i]).locked_by(txn)
        &&& forall|k: int|
            0 <= k < self.pools.len() ==> (#[trigger] self.pools[k]).created_by != Some(txn)
    }

    /// Whether the store has a pool `name`, committed or not.
    pub open spec fn has_pool(self, name: Seq<char>) -> bool {
        exists|k: int| 0 <= k < self.pools.len() && (#[trigger] self.pools[k]).name == name
    }

    /// Whether `txn` sees a pool `name`.
    pub open spec fn sees_pool(self, name: Seq<char>, txn: u64) -> bool {
        exists|k: int|
            0 <= k < self.pools.len() && (#[trigger] self.pools[k]).name == name
                && self.pools[k].visible_to(txn)
    }

    /// The type of the values of the pool `name`, where the store has it.
    pub open spec fn pool_type(self, name: Seq<char>) -> ValueType {
        let k = choose|k: int| 0 <= k < self.pools.len() && (#[trigger] self.pools[k]).name == name;
        self.pools[k].value_type
    }

    /// Whether `txn` sees a value `value` in the pool `name`.
    pub open spec fn sees_value(self, name: Seq<char>, value: Seq<char>, txn: u64) -> bool {
        exists|i: int|
            0 <= i < self.values.len() && (#[trigger] self.values[i]).is_value(name, value)
                && self.values[i].visible_to(txn)
    }

    /// Whether the row at `i` is, of the values of the pool `name` that can
    /// be handed out to `txn` without being named, the one that comes first
    /// in the order of the pool's type.
    pub open spec fn is_lowest_candidate(self, i: int, name: Seq<char>, txn: u64) -> bool {
        &&& 0 <= i < self.values.len()
        &&& self.values[i].is_candidate(name, txn)
        &&& forall|j: int|
            0 <= j < self.values.len() && (#[trigger] self.values[j]).is_candidate(name, txn)
                ==> !natural_lt(self.pool_type(name), self.values[j].value, self.values[i].value)
    }

    /// The tables after `txn` has set the allocation of the row at `i`.
    pub open spec fn with_allocation(
        self,
        i: int,
        txn: u64,
        allocation: Option<AllocationView>,
    ) -> StoreView {
        StoreView { values: self.values.update(i, self.values[i].changed_by(txn, allocation)), ..self }
    }
}

/// A store that is in order stays so where a transaction that it knows sets
/// the allocation of a row whose lock no other transaction holds.
pub proof fn lemma_with_allocation_wf(
    s: StoreView,
    i: int,
    txn: u64,
    allocation: Option<AllocationView>,
)
    requires
        s.wf(),
        s.knows(txn),
        0 <= i < s.values.len(),
        !s.values[i].locked_by_other(txn),
    ensures
        s.with_allocation(i, txn, allocation).wf(),
{
    let t = s.with_allocation(i, txn, allocation);
    assert forall|a: int, b: int| 0 <= a < b < t.values.len() implies !(#[trigger] t.values[a]).is_value(
        (#[trigger] t.values[b]).pool_name,
        t.values[b].value,
    ) by {
        assert(!s.values[a].is_value(s.values[b].pool_name, s.values[b].value));
    }
    assert forall|a: int| 0 <= a < t.values.len() implies t.has_pool_for(#[trigger] t.values[a]) by {
        assert(s.has_pool_for(s.values[a]));
        let k = choose|k: int| 0 <= k < s.pools.len() && (#[trigger] s.pools[k]).admits(s.values[a]);
        assert(t.pools[k].admits(t.values[a]));
    }
    assert forall|a: int| 0 <= a < t.values.len() implies ((#[trigger] t.values[a]).pending matches Some(
        p,
    ) ==> p.txn < t.next_txn) by {
        assert(s.values[a].pending matches Some(p) ==> p.txn < s.next_txn);
    }
}

/// No two pools of a store that is in order bear one name.
pub proof fn lemma_pool_names_differ(s: StoreView, i: int, j: int)
    requires
        s.wf(),
        0 <= i < s.pools.len(),
        0 <= j < s.pools.len(),
        s.pools[i].name == s.pools[j].name,
    ensures
        i == j,
{
    crate::value::lemma_text_lt_irreflexive(s.pools[i].name);
}

/// The type of a pool is that of the one pool that bears its name.
pub proof fn lemma_pool_type(s: StoreView, k: int)
    requires
        s.wf(),
        0 <= k < s.pools.len(),
    ensures
        s.pool_type(s.pools[k].name) == s.pools[k].value_type,
{
    let name = s.pools[k].name;
    let c = choose|c: int| 0 <= c < s.pools.len() && (#[trigger] s.pools[c]).name == name;
    lemma_pool_names_differ(s, c, k);
}

/// No two rows of a store that is in order are one value of one pool.
pub proof fn lemma_values_differ(s: StoreView, i: int, j: int)
    requires
        s.wf(),
        0 <= i < s.values.len(),
        0 <= j < s.values.len(),
        s.values[i].is_value(s.values[j].pool_name, s.values[j].value),
    ensures
        i == j,
{
    if i < j {
        assert(!s.values[i].is_value(s.values[j].pool_name, s.values[j].value));
    } else if j < i {
        assert(!s.values[j].is_value(s.values[i].pool_name, s.values[i].value));
    }
}

/// The row of a store that is in order has its pool in the store, and its
/// text is canonical for the type of that pool.
pub proof fn lemma_row_has_pool(s: StoreView, i: int)
    requires
        s.wf(),
        0 <= i < s.values.len(),
    ensures
        s.has_pool(s.values[i].pool_name),
        is_canonical(s.pool_type(s.values[i].pool_name), s.values[i].value),
{
    assert(s.has_pool_for(s.values[i]));
    let k = choose|k: int| 0 <= k < s.pools.len() && (#[trigger] s.pools[k]).admits(s.values[i]);
    lemma_pool_type(s, k);
}

/// The name of a pool and the type of its values, as a caller holds them.
#[derive(Debug)]
pub struct ResourcePool {
    name: String,
    value_type: ValueType,
}

impl ResourcePool {
    /// The name of the pool, as a sequence of characters.
    pub closed spec fn spec_name(&self) -> Seq<char> {
        self.name@
    }

    /// The type of the values of the pool.
    pub closed spec fn spec_value_type(&self) -> ValueType {
        self.value_type
    }

    /// The pool `name` with values of the type `value_type`.
    pub fn new(name: String, value_type: ValueType) -> (r: Self)
        ensures
            r.spec_name() == name@,
            r.spec_value_type() == value_type,
    {
        ResourcePool { name, value_type }
    }

    /// The name of the pool.
    pub fn name(&self) -> (r: &str)
        ensures
            r@ == self.spec_name(),
    {
        self.name.as_str()
    }

    /// The type of the values of the pool.
    pub fn value_type(&self) -> (r: ValueType)
        ensures
            r == self.spec_value_type(),
    {
        self.value_type
    }
}

/// A number that no transaction bears. What is read under it is what is
/// committed.
pub const NO_TRANSACTION: u64 = u64::MAX;

/// The tables of pools and pool values.
#[derive(Debug)]
pub struct Store {
    /// The pools, in the order of their names.
    pub pools: Vec<Pool>,
    /// The values of all pools, in the order in which they were inserted.
    pub values: Vec<PoolValue>,
    /// The number that the next transaction gets.
    pub next_txn: u64,
}

impl View for Store {
    type V = StoreView;

    open spec fn view(&self) -> StoreView {
        StoreView {
            pools: self.pools.deep_view(),
            values: self.values.deep_view(),
            next_txn: self.next_txn,
        }
    }
}

impl PoolValue {
    /// Whether `txn` sees the row.
    pub fn is_visible_to(&self, txn: u64) -> (b: bool)
        ensures
            b == self.deep_view().visible_to(txn),
    {
        match &self.pending {
            Some(p) => !p.created || p.txn == txn,
            None => true,
        }
    }

    /// Whether another transaction than `txn` holds the lock of the row.
    pub fn is_locked_by_other(&self, txn: u64) -> (b: bool)
        ensures
            b == self.deep_view().locked_by_other(txn),
    {
        match &self.pending {
            Some(p) => p.txn != txn,
            None => false,
        }
    }

    /// Whether `txn` inserted the row and has not yet committed.
    pub fn is_created_by(&self, txn: u64) -> (b: bool)
        ensures
            b == self.deep_view().created_by(txn),
    {
        match &self.pending {
            Some(p) => p.txn == txn && p.created,
            None => false,
        }
    }

    /// Whether the row is free as `txn` sees it.
    pub fn is_free_for(&self, txn: u64) -> (b: bool)
        ensures
            b == (self.deep_view().allocation_for(txn) is None),
    {
        match &self.pending {
            Some(p) => if p.txn == txn {
                p.allocation.is_none()
            } else {
                self.allocation.is_none()
            },
            None => self.allocation.is_none(),
        }
    }
}

impl Store {
    /// A store without pools, in which no transaction has begun.
    pub fn new() -> (s: Store)
        ensures
            s@.wf(),
            s@.pools.len() == 0,
            s@.values.len() == 0,
            s@.next_txn == 0,
    {
        Store { pools: Vec::new(), values: Vec::new(), next_txn: 0 }
    }

    /// Begins a transaction and gives its number. The transaction holds no
    /// lock. The store is otherwise unchanged. Where the numbers have run
    /// out, nothing is begun.
    pub fn begin(&mut self) -> (r: Result<u64, ResourcePoolError>)
        requires
            old(self)@.wf(),
        ensures
            final(self)@.wf(),
            final(self)@.pools == old(self)@.pools,
            final(self)@.values == old(self)@.values,
            match r {
                Ok(txn) => {
                    &&& old(self)@.next_txn < u64::MAX
                    &&& txn == old(self)@.next_txn
                    &&& final(self)@.next_txn == txn + 1
                    &&& final(self)@.untouched_by(txn)
                },
                Err(e) => {
                    &&& e == ResourcePoolError::Store
                    &&& old(self)@.next_txn == u64::MAX
                    &&& final(self)@ == old(self)@
                },
            },
    {
        if self.next_txn == u64::MAX {
            return Err(ResourcePoolError::Store);
        }
        let txn = self.next_txn;
        self.next_txn = txn + 1;
        Ok(txn)
    }

    /// Finds the row of the value `value` of the pool `name`.
    pub(crate) fn find_value(&self, name: &str, value: &str) -> (r: Option<usize>)
        ensures
            match r {
                Some(i) => i < self@.values.len() && self@.values[i as int].is_value(name@, value@),
                None => forall|i: int|
                    0 <= i < self@.values.len() ==> !(#[trigger] self@.values[i]).is_value(
                        name@,
                        value@,
                    ),
            },
    {
        let mut i: usize = 0;
        while i < self.values.len()
            invariant
                i <= self.values.len(),
                self@.values.len() == self.values.len(),
                forall|j: int| 0 <= j < i ==> !(#[trigger] self@.values[j]).is_value(name@, value@),
            decreases self.values.len() - i,
        {
            if same_text(self.values[i].value.as_str(), value) && same_text(
                self.values[i].pool_name.as_str(),
                name,
            ) {
                return Some(i);
            }
            i = i + 1;
        }
        None
    }

    /// Finds the pool `name`.
    pub(crate) fn find_pool(&self, name: &str) -> (r: Option<usize>)
        ensures
            match r {
                Some(k) => k < self@.pools.len() && self@.pools[k as int].name == name@,
                None => forall|k: int| 0 <= k < self@.pools.len() ==> (#[trigger] self@.pools[k]).name != name@,
            },
    {
        let mut k: usize = 0;
        while k < self.pools.len()
            invariant
                k <= self.pools.len(),
                self@.pools.len() == self.pools.len(),
                forall|j: int| 0 <= j < k ==> (#[trigger] self@.pools[j]).name != name@,
            decreases self.pools.len() - k,
        {
            if same_text(self.pools[k].name.as_str(), name) {
                return Some(k);
            }
            k = k + 1;
        }
        None
    }
}

} // verus!
