//! Pure helpers behind the registry writer.
//!
//! The writer orchestrates registry mutations over an external signing and
//! submission channel; the decisions it takes along the way — filtering a
//! registry by discriminator, resolving a fetched table against the
//! registry that should own it, and picking the unique not-yet-present
//! addresses to append — are plain functions over plain values and live
//! here.

use vstd::prelude::*;
use crate::addr::{vec_contains_addr, Address};
use crate::common::LookupRegistryError;
use crate::engine::{lemma_addr_contains, lemma_push_contains_all, lemma_push_no_dup};
use crate::reader::AddressLookupTableAccount;
use crate::state::{
    lemma_find_entry_properties, spec_discriminator, spec_find_entry, EntryModel, RegistryAccount,
    RegistryEntry,
};
use crate::table::{spec_decode_table, AddressLookupTable};

verus! {

/// The table addresses of the entries whose wire discriminator is `d`, in
/// stored order.
pub open spec fn spec_tables_with_discriminator(s: Seq<EntryModel>, d: u64) -> Seq<Seq<u8>>
    decreases s.len(),
{
    if s.len() == 0 {
        Seq::empty()
    } else {
        spec_tables_with_discriminator(s.drop_last(), d) + (if spec_discriminator(s.last().state)
            == d {
            seq![s.last().table]
        } else {
            Seq::empty()
        })
    }
}

/// The addresses of the registry's entries carrying wire discriminator
/// `discriminator`, in stored order.
pub fn find_lookup_table_addresses(registry: &RegistryAccount, discriminator: u64) -> (r: Vec<
    Address,
>)
    ensures
        r.deep_view() == spec_tables_with_discriminator(registry@.tables, discriminator),
{
    let mut r: Vec<Address> = Vec::new();
    proof {
        assert(registry@.tables.take(0) =~= Seq::<EntryModel>::empty());
        assert(r.deep_view() =~= spec_tables_with_discriminator(
            registry@.tables.take(0),
            discriminator,
        ));
    }
    let mut i: usize = 0;
    while i < registry.tables.len()
        invariant
            i <= registry.tables@.len(),
            registry@.tables.len() == registry.tables@.len(),
            r.deep_view() == spec_tables_with_discriminator(
                registry@.tables.take(i as int),
                discriminator,
            ),
        decreases registry.tables@.len() - i,
    {
        let ghost ts = registry@.tables;
        let ghost before = r.deep_view();
        proof {
            assert(ts.take(i as int + 1).drop_last() =~= ts.take(i as int));
            assert(ts.take(i as int + 1).last() == ts[i as int]);
        }
        let d = crate::state::discriminator_of(registry.tables[i].state);
        if d == discriminator {
            r.push(registry.tables[i].table.clone());
            proof {
                assert(r.deep_view() =~= before.push(ts[i as int].table));
                assert(before.push(ts[i as int].table) =~= before + seq![ts[i as int].table]);
            }
        }
        i += 1;
    }
    proof {
        assert(registry@.tables.take(registry@.tables.len() as int) =~= registry@.tables);
    }
    r
}

/// The candidates that are genuinely new: not already members of the
/// table, and listed once each, in first-occurrence order. Duplicates
/// across separate append calls are the caller's concern; within one call
/// this is the exact set forwarded to the external extend operation.
pub open spec fn spec_distinct_new(existing: Seq<Seq<u8>>, candidates: Seq<Seq<u8>>) -> Seq<
    Seq<u8>,
>
    decreases candidates.len(),
{
    if candidates.len() == 0 {
        Seq::empty()
    } else {
        let d = spec_distinct_new(existing, candidates.drop_last());
        if existing.contains(candidates.last()) || d.contains(candidates.last()) {
            d
        } else {
            d.push(candidates.last())
        }
    }
}

/// The distinct new addresses hold exactly the candidates that are not
/// already present, once each.
pub proof fn lemma_spec_distinct_new(existing: Seq<Seq<u8>>, candidates: Seq<Seq<u8>>)
    ensures
        spec_distinct_new(existing, candidates).no_duplicates(),
        forall|x: Seq<u8>| #[trigger] spec_distinct_new(existing, candidates).contains(x)
            <==> (candidates.contains(x) && !existing.contains(x)),
    decreases candidates.len(),
{
    if candidates.len() > 0 {
        lemma_spec_distinct_new(existing, candidates.drop_last());
        let d = spec_distinct_new(existing, candidates.drop_last());
        let last = candidates.last();
        lemma_push_contains_all(d, last);
        assert forall|x: Seq<u8>| candidates.contains(x) && !existing.contains(x) implies
            #[trigger] spec_distinct_new(existing, candidates).contains(x) by {
            let i = choose|i: int| 0 <= i < candidates.len() && (#[trigger] candidates[i]) == x;
            if i < candidates.len() - 1 {
                assert(candidates.drop_last()[i] == x);
                assert(candidates.drop_last().contains(x));
                assert(d.contains(x));
            } else {
                assert(x == last);
                if !existing.contains(last) && !d.contains(last) {
                    assert(d.push(last).contains(x));
                }
            }
        }
        assert forall|x: Seq<u8>| #[trigger] spec_distinct_new(existing, candidates).contains(x)
            implies candidates.contains(x) && !existing.contains(x) by {
            if d.contains(x) {
                assert(candidates.drop_last().contains(x));
                let j = choose|j: int|
                    0 <= j < candidates.drop_last().len() && (#[trigger] candidates.drop_last()[j])
                        == x;
                assert(candidates[j] == x);
                assert(candidates.contains(x));
            } else {
                assert(x == last);
                assert(candidates[candidates.len() - 1] == x);
                assert(candidates.contains(x));
            }
        }
        if !existing.contains(last) && !d.contains(last) {
            lemma_push_no_dup(d, last);
        }
    }
}

/// Filters `candidates` down to those not already in `existing`, dropping
/// duplicates, in first-occurrence order.
pub fn distinct_new_addresses(existing: &Vec<Address>, candidates: &Vec<Address>) -> (r: Vec<
    Address,
>)
    ensures
        r.deep_view() == spec_distinct_new(existing.deep_view(), candidates.deep_view()),
{
    let ghost edv = existing.deep_view();
    let ghost cdv = candidates.deep_view();
    let mut r: Vec<Address> = Vec::new();
    proof {
        assert(cdv.take(0) =~= Seq::<Seq<u8>>::empty());
        assert(r.deep_view() =~= spec_distinct_new(edv, cdv.take(0)));
    }
    let mut i: usize = 0;
    while i < candidates.len()
        invariant
            i <= candidates@.len(),
            edv == existing.deep_view(),
            cdv == candidates.deep_view(),
            cdv.len() == candidates@.len(),
            r.deep_view() == spec_distinct_new(edv, cdv.take(i as int)),
        decreases candidates@.len() - i,
    {
        let ghost before = r.deep_view();
        proof {
            assert(cdv.take(i as int + 1).drop_last() =~= cdv.take(i as int));
            assert(cdv.take(i as int + 1).last() == cdv[i as int]);
        }
        let present = vec_contains_addr(existing, &candidates[i]);
        proof {
            lemma_addr_contains(edv, cdv[i as int]);
        }
        let listed = vec_contains_addr(&r, &candidates[i]);
        proof {
            lemma_addr_contains(before, cdv[i as int]);
        }
        if !present && !listed {
            r.push(candidates[i].clone());
            proof {
                assert(r.deep_view() =~= before.push(cdv[i as int]));
            }
        }
        i += 1;
    }
    proof {
        assert(cdv.take(cdv.len() as int) =~= cdv);
    }
    r
}

/// Resolves a fetched table account against the registry that should own
/// it: the registry must hold an entry for `lookup_table`, and the
/// account's bytes must decode as a table.
pub fn resolve_lookup_table(
    registry: &RegistryAccount,
    lookup_table: &Address,
    table_data: &Vec<u8>,
) -> (r: Result<(RegistryEntry, AddressLookupTableAccount), LookupRegistryError>)
    requires
        registry.wf(),
    ensures
        match spec_find_entry(registry@.tables, lookup_table@) {
            None => r == Err::<(RegistryEntry, AddressLookupTableAccount), LookupRegistryError>(
                LookupRegistryError::InvalidArgument,
            ),
            Some(i) => match spec_decode_table(table_data@) {
                Ok(t) => match r {
                    Ok(pair) => pair.0@ == registry@.tables[i] && pair.1@.key == lookup_table@
                        && pair.1@.addresses == t.addresses,
                    Err(_) => false,
                },
                Err(_) => r == Err::<
                    (RegistryEntry, AddressLookupTableAccount),
                    LookupRegistryError,
                >(LookupRegistryError::GeneralError),
            },
        },
{
    let i = match registry.find_entry(lookup_table) {
        Ok(i) => i,
        Err(_) => {
            return Err(LookupRegistryError::InvalidArgument);
        },
    };
    proof {
        lemma_find_entry_properties(registry@.tables, lookup_table@);
    }
    let entry = registry.tables[i].clone();
    match AddressLookupTable::deserialize(table_data) {
        Ok(t) => Ok(
            (
                entry,
                AddressLookupTableAccount { key: lookup_table.clone(), addresses: t.addresses },
            ),
        ),
        Err(_) => Err(LookupRegistryError::GeneralError),
    }
}

} // verus!
