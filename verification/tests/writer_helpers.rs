use lookup_table_registry::addr::Address;
use lookup_table_registry::common::LookupRegistryError;
use lookup_table_registry::state::{EntryState, RegistryAccount, RegistryEntry};
use lookup_table_registry::table::{AddressLookupTable, LookupTableMeta};
use lookup_table_registry::writer::{
    distinct_new_addresses, find_lookup_table_addresses, resolve_lookup_table,
};

fn addr(tag: u8) -> Address {
    let mut bytes = vec![0u8; 32];
    bytes[0] = tag;
    bytes[31] = 0x3C;
    Address { bytes }
}

fn sample_registry() -> RegistryAccount {
    RegistryAccount {
        authority: addr(1),
        version: 0,
        seed: 0,
        len: 3,
        capacity: 4,
        last_created_slot: 0,
        tables: vec![
            RegistryEntry { state: EntryState::Active(2), table: addr(10) },
            RegistryEntry { state: EntryState::Deactivated, table: addr(11) },
            RegistryEntry { state: EntryState::Active(2), table: addr(12) },
            RegistryEntry { state: EntryState::Empty, table: Address { bytes: vec![0u8; 32] } },
        ],
    }
}

#[test]
fn test_find_lookup_table_addresses_by_discriminator() {
    let reg = sample_registry();
    assert_eq!(find_lookup_table_addresses(&reg, 2), vec![addr(10), addr(12)]);
    assert_eq!(find_lookup_table_addresses(&reg, 1), vec![addr(11)]);
    assert_eq!(find_lookup_table_addresses(&reg, 7), Vec::<Address>::new());
}

#[test]
fn test_distinct_new_addresses() {
    let existing = vec![addr(1), addr(2)];
    let candidates = vec![addr(2), addr(3), addr(4), addr(3), addr(1), addr(5)];
    // already-present members and duplicates drop; first occurrences stay in order
    assert_eq!(
        distinct_new_addresses(&existing, &candidates),
        vec![addr(3), addr(4), addr(5)]
    );
    assert_eq!(
        distinct_new_addresses(&Vec::new(), &Vec::new()),
        Vec::<Address>::new()
    );
}

fn table_bytes(members: &[Address]) -> Vec<u8> {
    AddressLookupTable {
        meta: LookupTableMeta {
            deactivation_slot: u64::MAX,
            last_extended_slot: 0,
            last_extended_slot_start_index: 0,
            authority: Some(addr(1)),
            padding: 0,
        },
        addresses: members.to_vec(),
    }
    .serialize()
}

#[test]
fn test_resolve_lookup_table() {
    let reg = sample_registry();
    let data = table_bytes(&[addr(20), addr(21)]);

    let (entry, account) = resolve_lookup_table(&reg, &addr(10), &data).unwrap();
    assert_eq!(entry.state, EntryState::Active(2));
    assert_eq!(entry.table, addr(10));
    assert_eq!(account.key, addr(10));
    assert_eq!(account.addresses, vec![addr(20), addr(21)]);

    // a table the registry does not own
    assert_eq!(
        resolve_lookup_table(&reg, &addr(99), &data),
        Err(LookupRegistryError::InvalidArgument)
    );

    // owned, but the account's bytes do not decode
    assert_eq!(
        resolve_lookup_table(&reg, &addr(10), &vec![1, 2, 3]),
        Err(LookupRegistryError::GeneralError)
    );
}
