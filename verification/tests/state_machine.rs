use lookup_table_registry::addr::Address;
use lookup_table_registry::state::{
    append_to_lookup_table, apply_create_lookup_table, init_registry_account,
    remove_lookup_table, EntryState, ErrorCode, RegistryAccount, RegistryEntry, RemoveAction,
    MAX_REGISTRY_ENTRIES,
};

fn addr(tag: u8) -> Address {
    let mut bytes = vec![0u8; 32];
    bytes[0] = tag;
    bytes[31] = 0xA5;
    Address { bytes }
}

fn registry_with(authority: &Address, entries: Vec<RegistryEntry>) -> RegistryAccount {
    let len = entries
        .iter()
        .filter(|e| !matches!(e.state, EntryState::Empty))
        .count() as u8;
    let capacity = entries.len() as u8;
    RegistryAccount {
        authority: authority.clone(),
        version: 0,
        seed: 0,
        len,
        capacity,
        last_created_slot: 0,
        tables: entries,
    }
}

#[test]
fn test_init_registry_account() {
    let authority = addr(1);
    let reg = init_registry_account(None, &authority, 7, 99).unwrap();
    assert_eq!(reg.authority, authority);
    assert_eq!(reg.version, 0);
    assert_eq!(reg.seed, 7);
    assert_eq!(reg.len, 0);
    assert_eq!(reg.capacity, 0);
    assert_eq!(reg.last_created_slot, 99);
    assert_eq!(reg.tables.len(), 0);

    let again = init_registry_account(Some(&reg), &authority, 7, 100);
    assert_eq!(again.unwrap_err(), ErrorCode::AlreadyExists);
}

#[test]
fn test_create_reuses_empty_slot() {
    let authority = addr(1);
    let reg = registry_with(
        &authority,
        vec![
            RegistryEntry { state: EntryState::Active(2), table: addr(10) },
            RegistryEntry { state: EntryState::Empty, table: Address { bytes: vec![0u8; 32] } },
        ],
    );
    assert_eq!(reg.len, 1);
    assert_eq!(reg.capacity, 2);

    let reg2 = apply_create_lookup_table(&reg, 55, &addr(11)).unwrap();
    // an Empty slot existed: len grows, capacity does not
    assert_eq!(reg2.len, 2);
    assert_eq!(reg2.capacity, 2);
    assert_eq!(reg2.last_created_slot, 55);
    assert_eq!(reg2.tables[1].state, EntryState::Active(2));
    assert_eq!(reg2.tables[1].table, addr(11));
    // the occupied slot is untouched
    assert_eq!(reg2.tables[0].table, addr(10));
}

#[test]
fn test_create_grows_when_full() {
    let authority = addr(1);
    let reg = registry_with(
        &authority,
        vec![RegistryEntry { state: EntryState::Active(2), table: addr(10) }],
    );
    let reg2 = apply_create_lookup_table(&reg, 56, &addr(12)).unwrap();
    // no Empty slot: both len and capacity grow by one
    assert_eq!(reg2.len, 2);
    assert_eq!(reg2.capacity, 2);
    assert_eq!(reg2.tables.len(), 2);
    assert_eq!(reg2.tables[1].state, EntryState::Active(2));
    assert_eq!(reg2.tables[1].table, addr(12));
}

#[test]
fn test_create_capacity_exceeded() {
    let authority = addr(1);
    let mut entries = Vec::new();
    for i in 0..MAX_REGISTRY_ENTRIES {
        let mut bytes = vec![0u8; 32];
        bytes[0] = (i % 256) as u8;
        bytes[1] = (i / 256) as u8;
        bytes[2] = 1;
        entries.push(RegistryEntry { state: EntryState::Active(2), table: Address { bytes } });
    }
    let reg = registry_with(&authority, entries);
    assert_eq!(reg.len as usize, 254);
    let err = apply_create_lookup_table(&reg, 57, &addr(13)).unwrap_err();
    assert_eq!(err, ErrorCode::TooManyEntries);
}

#[test]
fn test_append_requires_active_entry() {
    let authority = addr(1);
    let reg = registry_with(
        &authority,
        vec![
            RegistryEntry { state: EntryState::Active(2), table: addr(10) },
            RegistryEntry { state: EntryState::Deactivated, table: addr(11) },
        ],
    );
    assert_eq!(append_to_lookup_table(&reg, &addr(10)), Ok(()));
    assert_eq!(
        append_to_lookup_table(&reg, &addr(11)),
        Err(ErrorCode::InvalidDiscriminator)
    );
    assert_eq!(
        append_to_lookup_table(&reg, &addr(12)),
        Err(ErrorCode::InvalidLookupTable)
    );
}

#[test]
fn test_remove_two_phase() {
    // Scenario: removing an Active table deactivates it without changing
    // len; an immediate second remove empties the slot and decrements len;
    // a third remove on the now-absent entry fails.
    let authority = addr(1);
    let table = addr(10);
    let reg = registry_with(
        &authority,
        vec![RegistryEntry { state: EntryState::Active(2), table: table.clone() }],
    );
    assert_eq!(reg.len, 1);

    let (reg2, action) = remove_lookup_table(&reg, &table).unwrap();
    assert_eq!(action, RemoveAction::Deactivate);
    assert_eq!(reg2.len, 1);
    assert_eq!(reg2.tables[0].state, EntryState::Deactivated);
    assert_eq!(reg2.tables[0].table, table);

    let (reg3, action) = remove_lookup_table(&reg2, &table).unwrap();
    assert_eq!(action, RemoveAction::Close);
    assert_eq!(reg3.len, 0);
    assert_eq!(reg3.capacity, 1);
    assert_eq!(reg3.tables[0].state, EntryState::Empty);
    assert_eq!(reg3.tables[0].table.bytes, vec![0u8; 32]);

    let err = remove_lookup_table(&reg3, &table).unwrap_err();
    assert_eq!(err, ErrorCode::InvalidLookupTable);
}

#[test]
fn test_remove_empty_slot_is_invalid_state() {
    // Searching for the all-zero address finds the vacated slot itself,
    // which removal treats as an unreachable state.
    let authority = addr(1);
    let zero = Address { bytes: vec![0u8; 32] };
    let reg = registry_with(
        &authority,
        vec![RegistryEntry { state: EntryState::Empty, table: zero.clone() }],
    );
    let err = remove_lookup_table(&reg, &zero).unwrap_err();
    assert_eq!(err, ErrorCode::InvalidState);
}

#[test]
fn test_remove_absent_table() {
    let authority = addr(1);
    let reg = registry_with(
        &authority,
        vec![RegistryEntry { state: EntryState::Active(2), table: addr(10) }],
    );
    let err = remove_lookup_table(&reg, &addr(99)).unwrap_err();
    assert_eq!(err, ErrorCode::InvalidLookupTable);
}

#[test]
fn test_remove_first_matching_entry() {
    // find_entry takes the first slot holding the address.
    let authority = addr(1);
    let table = addr(10);
    let reg = registry_with(
        &authority,
        vec![
            RegistryEntry { state: EntryState::Deactivated, table: table.clone() },
            RegistryEntry { state: EntryState::Active(2), table: table.clone() },
        ],
    );
    let (reg2, action) = remove_lookup_table(&reg, &table).unwrap();
    assert_eq!(action, RemoveAction::Close);
    assert_eq!(reg2.tables[0].state, EntryState::Empty);
    assert_eq!(reg2.tables[1].state, EntryState::Active(2));
    assert_eq!(reg2.len, 1);
}
