//! Growing pools from a pool definition text.

use crate::definition::{definitions_of, parse_definitions, DefinitionView, PoolDefinition};
use crate::error::ResourcePoolError;
use crate::populate::{populate, populate_verdict, populated};
use crate::registry::pools_with;
use crate::seeds::{expand, seed_values};
use crate::store::{ResourcePool, Store, StoreView};
use vstd::prelude::*;
use vstd::string::StringSliceAdditionalSpecFns;

verus! {

/// The tables after `txn` has grown the pool of one definition, and what
/// is reported: the values that the definition stands for are put into
/// the pool, open to automatic assignment. A definition that stands for no
/// values is refused as invalid, and nothing changes then, nor where the
/// values cannot be put into the pool.
pub open spec fn grown_by(s: StoreView, d: DefinitionView, txn: u64) -> (
    StoreView,
    Result<(), ResourcePoolError>,
) {
    match seed_values(d.value_type, d.seed) {
        None => (s, Err(ResourcePoolError::InvalidValue)),
        Some(values) => match populate_verdict(s, d.name, d.value_type, values, txn) {
            Err(e) => (s, Err(e)),
            Ok(_) => (
                StoreView {
                    pools: pools_with(s, d.name, d.value_type, txn),
                    values: populated(s.values, d.name, values, true, txn),
                    next_txn: s.next_txn,
                },
                Ok(()),
            ),
        },
    }
}

/// The tables after `txn` has grown the pools of the definitions, one
/// after the other, and what is reported. The first definition that is
/// refused ends the growth: what the definitions before it have done
/// stays, in the transaction, and the ones behind it are not looked at.
pub open spec fn grown(s: StoreView, definitions: Seq<DefinitionView>, txn: u64) -> (
    StoreView,
    Result<(), ResourcePoolError>,
)
    decreases definitions.len(),
{
    if definitions.len() == 0 {
        (s, Ok(()))
    } else {
        let before = grown(s, definitions.drop_last(), txn);
        if before.1 is Err {
            before
        } else {
            grown_by(before.0, definitions.last(), txn)
        }
    }
}

/// Grows the pool of one definition, in the name of the transaction `txn`.
pub fn grow_pool(store: &mut Store, txn: u64, definition: &PoolDefinition) -> (r: Result<
    (),
    ResourcePoolError,
>)
    requires
        old(store)@.wf(),
    ensures
        final(store)@.wf(),
        (final(store)@, r) == grown_by(old(store)@, definition.deep_view(), txn),
{
    let values = match expand(definition.value_type, &definition.seed) {
        Some(values) => values,
        None => {
            return Err(ResourcePoolError::InvalidValue);
        },
    };
    let pool = ResourcePool::new(definition.name.clone(), definition.value_type);
    populate(&pool, store, txn, values, true)
}

/// Grows the pools that a pool definition text declares, section by
/// section, in the name of the transaction `txn`. A text that is not a
/// pool definition text is refused as invalid, and nothing changes then.
pub fn grow(store: &mut Store, txn: u64, text: &str) -> (r: Result<(), ResourcePoolError>)
    requires
        old(store)@.wf(),
    ensures
        final(store)@.wf(),
        match definitions_of(text.spec_bytes()) {
            Some(definitions) => (final(store)@, r) == grown(old(store)@, definitions, txn),
            None => r == Err::<(), ResourcePoolError>(ResourcePoolError::InvalidValue)
                && final(store)@ == old(store)@,
        },
{
    let definitions = match parse_definitions(text.as_bytes()) {
        Some(definitions) => definitions,
        None => {
            return Err(ResourcePoolError::InvalidValue);
        },
    };
    let ghost before = store@;
    let ghost dv = definitions.deep_view();
    let mut k: usize = 0;
    proof {
        assert(dv.take(0) =~= Seq::<DefinitionView>::empty());
    }
    while k < definitions.len()
        invariant
            k <= definitions.len(),
            dv == definitions.deep_view(),
            definitions_of(text.spec_bytes()) == Some(dv),
            before == old(store)@,
            store@.wf(),
            (store@, Ok::<(), ResourcePoolError>(())) == grown(before, dv.take(k as int), txn),
        decreases definitions.len() - k,
    {
        proof {
            assert(dv.take(k + 1).drop_last() =~= dv.take(k as int));
            assert(dv.take(k + 1).last() == dv[k as int]);
        }
        let ghost mid = store@;
        let grew = grow_pool(store, txn, &definitions[k]);
        proof {
            assert(grown(before, dv.take(k + 1), txn) == grown_by(mid, dv[k as int], txn));
        }
        match grew {
            Ok(_) => {},
            Err(e) => {
                proof {
                    lemma_grown_stops(before, dv, txn, k + 1);
                }
                return Err(e);
            },
        }
        k = k + 1;
    }
    proof {
        assert(dv.take(definitions.len() as int) =~= dv);
    }
    Ok(())
}

/// Where the growth of the first `k` definitions is refused, the growth of
/// all of them comes to the same.
pub proof fn lemma_grown_stops(s: StoreView, definitions: Seq<DefinitionView>, txn: u64, k: int)
    requires
        0 <= k <= definitions.len(),
        grown(s, definitions.take(k), txn).1 is Err,
    ensures
        grown(s, definitions, txn) == grown(s, definitions.take(k), txn),
    decreases definitions.len() - k,
{
    if k == definitions.len() {
        assert(definitions.take(k) =~= definitions);
    } else {
        assert(definitions.take(k + 1).drop_last() =~= definitions.take(k));
        lemma_grown_stops(s, definitions, txn, k + 1);
    }
}

} // verus!
