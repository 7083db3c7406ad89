use lookup_table_registry::addr::Address;
use lookup_table_registry::common::{AccountReadError, AccountReader, Entry, Registry};
use lookup_table_registry::engine::Instruction;
use lookup_table_registry::reader::LookupRegistryReader;

fn addr(tag: u8) -> Address {
    let mut bytes = vec![0u8; 32];
    bytes[0] = tag;
    bytes[31] = 0xE7;
    Address { bytes }
}

/// A transport that holds nothing; the engine never fetches.
struct NullReader;

impl AccountReader for NullReader {
    fn get_account(&mut self, _address: &Address) -> Result<Vec<u8>, AccountReadError> {
        Err(AccountReadError::AccountNotFound)
    }

    fn get_multiple_accounts(
        &mut self,
        addresses: &Vec<Address>,
    ) -> Result<Vec<Option<Vec<u8>>>, AccountReadError> {
        Ok(addresses.iter().map(|_| None).collect())
    }
}

fn snapshot(authority: &Address, tables: Vec<(Address, Vec<Address>)>) -> Registry {
    Registry {
        authority: authority.clone(),
        version: 0,
        tables: tables
            .into_iter()
            .map(|(lookup_address, addresses)| Entry {
                discriminator: 2,
                lookup_address,
                addresses,
            })
            .collect(),
    }
}

fn instructions_with_ten_accounts() -> Vec<Instruction> {
    // 10 distinct accounts referenced in total: two targets and 8 others
    vec![
        Instruction {
            program_id: addr(100),
            accounts: vec![addr(1), addr(2), addr(3), addr(4)],
        },
        Instruction {
            program_id: addr(101),
            accounts: vec![addr(5), addr(6), addr(7), addr(8)],
        },
    ]
}

#[test]
fn test_scenario_six_of_ten_covered() {
    // One Active table overlaps 6 of the 10 referenced accounts and holds
    // 2 unrelated addresses: it is chosen, and 4 accounts stay unmatched.
    let authority = addr(50);
    let table_addr = addr(60);
    let table_members = vec![
        addr(1),
        addr(2),
        addr(3),
        addr(5),
        addr(6),
        addr(7),
        addr(200),
        addr(201),
    ];
    let mut reader = LookupRegistryReader::new(NullReader);
    reader
        .cache
        .insert(&authority, snapshot(&authority, vec![(table_addr.clone(), table_members)]), 0);

    let result = reader.find_addresses(&instructions_with_ten_accounts(), &vec![authority], 0);
    assert_eq!(result.matches, vec![table_addr]);
    assert_eq!(result.distinct, 10);
    assert_eq!(result.unmatched, 4);
}

#[test]
fn test_scenario_single_overlap_rejected() {
    // The same setup with an overlap of exactly one address: referencing
    // the table would not pay for itself, so nothing is chosen.
    let authority = addr(50);
    let table_addr = addr(60);
    let table_members = vec![addr(1), addr(200), addr(201)];
    let mut reader = LookupRegistryReader::new(NullReader);
    reader
        .cache
        .insert(&authority, snapshot(&authority, vec![(table_addr, table_members)]), 0);

    let result = reader.find_addresses(&instructions_with_ten_accounts(), &vec![authority], 0);
    assert_eq!(result.matches, Vec::<Address>::new());
    assert_eq!(result.distinct, 10);
    assert_eq!(result.unmatched, 10);
}

#[test]
fn test_disjoint_table_never_chosen() {
    let authority = addr(50);
    let table_addr = addr(60);
    let table_members = vec![addr(200), addr(201), addr(202)];
    let mut reader = LookupRegistryReader::new(NullReader);
    reader
        .cache
        .insert(&authority, snapshot(&authority, vec![(table_addr, table_members)]), 0);

    let result = reader.find_addresses(&instructions_with_ten_accounts(), &vec![authority], 0);
    assert_eq!(result.matches, Vec::<Address>::new());
    assert_eq!(result.unmatched, 10);
}

#[test]
fn test_exact_threshold_of_two_accepted() {
    let authority = addr(50);
    let table_addr = addr(60);
    let table_members = vec![addr(1), addr(2)];
    let mut reader = LookupRegistryReader::new(NullReader);
    reader
        .cache
        .insert(&authority, snapshot(&authority, vec![(table_addr.clone(), table_members)]), 0);

    let result = reader.find_addresses(&instructions_with_ten_accounts(), &vec![authority], 0);
    assert_eq!(result.matches, vec![table_addr]);
    assert_eq!(result.unmatched, 8);
}

#[test]
fn test_accepted_table_claims_addresses() {
    // Once the first table claims its covered accounts, a second table
    // overlapping only those cannot claim them again.
    let authority = addr(50);
    let first = addr(60);
    let second = addr(61);
    let mut reader = LookupRegistryReader::new(NullReader);
    reader.cache.insert(
        &authority,
        snapshot(
            &authority,
            vec![
                (first.clone(), vec![addr(1), addr(2), addr(3)]),
                (second, vec![addr(2), addr(3)]),
            ],
        ),
        0,
    );

    let result = reader.find_addresses(&instructions_with_ten_accounts(), &vec![authority], 0);
    assert_eq!(result.matches, vec![first]);
    assert_eq!(result.unmatched, 7);
}

#[test]
fn test_duplicate_members_count_once() {
    // A table listing the same covered account many times still only
    // covers one distinct account, so it is rejected at the threshold.
    let authority = addr(50);
    let table_addr = addr(60);
    let table_members = vec![addr(1), addr(1), addr(1)];
    let mut reader = LookupRegistryReader::new(NullReader);
    reader
        .cache
        .insert(&authority, snapshot(&authority, vec![(table_addr, table_members)]), 0);

    let result = reader.find_addresses(&instructions_with_ten_accounts(), &vec![authority], 0);
    assert_eq!(result.matches, Vec::<Address>::new());
    assert_eq!(result.unmatched, 10);
}

#[test]
fn test_program_id_counts_as_account() {
    let authority = addr(50);
    let table_addr = addr(60);
    // covers one target id and one plain account
    let table_members = vec![addr(100), addr(1)];
    let mut reader = LookupRegistryReader::new(NullReader);
    reader
        .cache
        .insert(&authority, snapshot(&authority, vec![(table_addr.clone(), table_members)]), 0);

    let result = reader.find_addresses(&instructions_with_ten_accounts(), &vec![authority], 0);
    assert_eq!(result.matches, vec![table_addr]);
    assert_eq!(result.unmatched, 8);
}

#[test]
fn test_authorities_consulted_in_order() {
    // Two authorities own overlapping tables; the first one consulted
    // claims the shared accounts.
    let auth_a = addr(50);
    let auth_b = addr(51);
    let table_a = addr(60);
    let table_b = addr(61);
    let mut reader = LookupRegistryReader::new(NullReader);
    reader.cache.insert(
        &auth_a,
        snapshot(&auth_a, vec![(table_a.clone(), vec![addr(1), addr(2)])]),
        0,
    );
    reader.cache.insert(
        &auth_b,
        snapshot(&auth_b, vec![(table_b.clone(), vec![addr(1), addr(2), addr(3)])]),
        0,
    );

    let ixs = instructions_with_ten_accounts();
    let result = reader.find_addresses(&ixs, &vec![auth_a.clone(), auth_b.clone()], 0);
    assert_eq!(result.matches, vec![table_a]);

    let result_rev = reader.find_addresses(&ixs, &vec![auth_b, auth_a], 0);
    assert_eq!(result_rev.matches, vec![table_b]);
}

#[test]
fn test_unknown_authority_skipped_silently() {
    let reader = LookupRegistryReader::new(NullReader);
    let result = reader.find_addresses(&instructions_with_ten_accounts(), &vec![addr(50)], 0);
    assert_eq!(result.matches, Vec::<Address>::new());
    assert_eq!(result.distinct, 10);
    assert_eq!(result.unmatched, 10);
}

#[test]
fn test_determinism_on_identical_inputs() {
    let authority = addr(50);
    let table_addr = addr(60);
    let table_members = vec![addr(1), addr(2), addr(3), addr(200)];
    let mut reader = LookupRegistryReader::new(NullReader);
    reader
        .cache
        .insert(&authority, snapshot(&authority, vec![(table_addr, table_members)]), 0);

    let ixs = instructions_with_ten_accounts();
    let auths = vec![authority];
    let first = reader.find_addresses(&ixs, &auths, 0);
    let second = reader.find_addresses(&ixs, &auths, 0);
    assert_eq!(first, second);
}

#[test]
fn test_empty_batch() {
    let reader = LookupRegistryReader::new(NullReader);
    let result = reader.find_addresses(&Vec::new(), &Vec::new(), 0);
    assert_eq!(result.matches, Vec::<Address>::new());
    assert_eq!(result.distinct, 0);
    assert_eq!(result.unmatched, 0);
}
