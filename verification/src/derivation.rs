//! Deterministic account address derivation.
//!
//! Registry and table addresses are derived from plain inputs under the
//! chain's program-derived-address rule, so they are reproducible locally.
//! The derivation itself (repeated hashing with a bump search) is performed
//! by the outside crate and named abstractly here.

use vstd::prelude::*;
use crate::addr::{Address, ADDRESS_LEN};
use crate::bytes::{u64_le_bytes, u64_to_le_vec};

verus! {

/// Bytes of the registry program's id.
pub open spec fn spec_registry_program_id() -> Seq<u8> {
    seq![
        4u8, 251u8, 231u8, 122u8, 214u8, 208u8, 86u8, 167u8, 241u8, 144u8, 30u8, 229u8, 32u8,
        103u8, 249u8, 30u8, 215u8, 150u8, 30u8, 255u8, 66u8, 26u8, 32u8, 174u8, 144u8, 223u8,
        228u8, 227u8, 92u8, 156u8, 243u8, 130u8,
    ]
}

/// Bytes of the address lookup table program's id.
pub open spec fn spec_lookup_table_program_id() -> Seq<u8> {
    seq![
        2u8, 119u8, 166u8, 175u8, 151u8, 51u8, 155u8, 122u8, 200u8, 141u8, 24u8, 146u8, 201u8,
        4u8, 70u8, 245u8, 0u8, 2u8, 48u8, 146u8, 102u8, 246u8, 46u8, 83u8, 193u8, 24u8, 36u8,
        73u8, 130u8, 0u8, 0u8, 0u8,
    ]
}

/// The registry program's id as an address.
pub fn lookup_table_registry_id() -> (r: Address)
    ensures
        r@ == spec_registry_program_id(),
        r.wf(),
{
    let bytes: Vec<u8> = vec![
        4u8, 251u8, 231u8, 122u8, 214u8, 208u8, 86u8, 167u8, 241u8, 144u8, 30u8, 229u8, 32u8,
        103u8, 249u8, 30u8, 215u8, 150u8, 30u8, 255u8, 66u8, 26u8, 32u8, 174u8, 144u8, 223u8,
        228u8, 227u8, 92u8, 156u8, 243u8, 130u8,
    ];
    proof {
        assert(bytes@ =~= spec_registry_program_id());
    }
    Address { bytes }
}

/// The address lookup table program's id as an address.
pub fn lookup_table_id() -> (r: Address)
    ensures
        r@ == spec_lookup_table_program_id(),
        r.wf(),
{
    let bytes: Vec<u8> = vec![
        2u8, 119u8, 166u8, 175u8, 151u8, 51u8, 155u8, 122u8, 200u8, 141u8, 24u8, 146u8, 201u8,
        4u8, 70u8, 245u8, 0u8, 2u8, 48u8, 146u8, 102u8, 246u8, 46u8, 83u8, 193u8, 24u8, 36u8,
        73u8, 130u8, 0u8, 0u8, 0u8,
    ];
    proof {
        assert(bytes@ =~= spec_lookup_table_program_id());
    }
    Address { bytes }
}

/// What the program-derived-address search returns for these seeds and this
/// program id: a derived address with its bump seed, or nothing in the
/// statistically improbable event that no bump yields a valid address.
pub uninterp spec fn derived_address(seeds: Seq<Seq<u8>>, program_id: Seq<u8>) -> Option<
    (Seq<u8>, u8),
>;

/// Relies on `solana_program::pubkey::Pubkey::try_find_program_address`: the
/// result is a function of the seeds and the program id alone, it never
/// panics, and a returned address is 32 bytes.
#[verifier::external_body]
fn try_find_program_address(seeds: &Vec<Vec<u8>>, program_id: &Vec<u8>) -> (r: Option<
    (Address, u8),
>)
    requires
        program_id@.len() == ADDRESS_LEN,
    ensures
        match r {
            Some((a, bump)) => derived_address(seeds.deep_view(), program_id@) == Some((a@, bump))
                && a.wf(),
            None => derived_address(seeds.deep_view(), program_id@) == None::<(Seq<u8>, u8)>,
        },
{
    let seed_slices: Vec<&[u8]> = seeds.iter().map(|s| s.as_slice()).collect();
    let program = solana_program::pubkey::Pubkey::try_from(program_id.as_slice()).unwrap();
    solana_program::pubkey::Pubkey::try_find_program_address(&seed_slices, &program).map(
        |(pk, bump)| (Address { bytes: pk.to_bytes().to_vec() }, bump),
    )
}

/// The registry account address derived from the authority alone.
pub open spec fn spec_registry_address(authority: Seq<u8>) -> Option<Seq<u8>> {
    match derived_address(seq![authority], spec_registry_program_id()) {
        Some((a, bump)) => Some(a),
        None => None,
    }
}

/// Derives the address of the registry account owned by `authority`.
pub fn registry_address(authority: &Address) -> (r: Option<Address>)
    requires
        authority.wf(),
    ensures
        match r {
            Some(a) => spec_registry_address(authority@) == Some(a@) && a.wf(),
            None => spec_registry_address(authority@) == None::<Seq<u8>>,
        },
{
    let mut seeds: Vec<Vec<u8>> = Vec::new();
    seeds.push(authority.bytes.clone());
    let program_id = lookup_table_registry_id();
    proof {
        assert(seeds.deep_view() =~~= seq![authority@]);
    }
    match try_find_program_address(&seeds, &program_id.bytes) {
        Some((a, _bump)) => Some(a),
        None => None,
    }
}

/// The table address derived from the authority and a reference slot.
pub open spec fn spec_derive_lookup_table_address(authority: Seq<u8>, recent_block_slot: u64)
    -> Option<Seq<u8>> {
    match derived_address(
        seq![authority, u64_le_bytes(recent_block_slot)],
        spec_lookup_table_program_id(),
    ) {
        Some((a, bump)) => Some(a),
        None => None,
    }
}

/// Derives the address of the table that `authority` creates with reference
/// slot `recent_block_slot`.
pub fn derive_lookup_table_address(authority: &Address, recent_block_slot: u64) -> (r: Option<
    Address,
>)
    requires
        authority.wf(),
    ensures
        match r {
            Some(a) => spec_derive_lookup_table_address(authority@, recent_block_slot) == Some(a@)
                && a.wf(),
            None => spec_derive_lookup_table_address(authority@, recent_block_slot) == None::<
                Seq<u8>,
            >,
        },
{
    let mut seeds: Vec<Vec<u8>> = Vec::new();
    seeds.push(authority.bytes.clone());
    seeds.push(u64_to_le_vec(recent_block_slot));
    let program_id = lookup_table_id();
    proof {
        assert(seeds.deep_view() =~~= seq![authority@, u64_le_bytes(recent_block_slot)]);
    }
    match try_find_program_address(&seeds, &program_id.bytes) {
        Some((a, _bump)) => Some(a),
        None => None,
    }
}

} // verus!
