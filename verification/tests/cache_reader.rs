use lookup_table_registry::addr::Address;
use lookup_table_registry::cache::RegistryCache;
use lookup_table_registry::codec::encode_registry;
use lookup_table_registry::common::{AccountReadError, AccountReader, Entry, Registry};
use lookup_table_registry::derivation::registry_address;
use lookup_table_registry::reader::LookupRegistryReader;
use lookup_table_registry::state::{EntryState, RegistryAccount, RegistryEntry};
use lookup_table_registry::table::{AddressLookupTable, LookupTableMeta};

fn addr(tag: u8) -> Address {
    let mut bytes = vec![0u8; 32];
    bytes[0] = tag;
    bytes[31] = 0xC3;
    Address { bytes }
}

/// An in-memory transport with call counters.
struct MockReader {
    accounts: Vec<(Vec<u8>, Vec<u8>)>,
    get_account_calls: usize,
    get_multiple_calls: usize,
}

impl MockReader {
    fn new() -> Self {
        MockReader { accounts: Vec::new(), get_account_calls: 0, get_multiple_calls: 0 }
    }

    fn put(&mut self, address: &Address, data: Vec<u8>) {
        self.accounts.push((address.bytes.clone(), data));
    }

    fn lookup(&self, address: &Address) -> Option<Vec<u8>> {
        self.accounts
            .iter()
            .find(|(key, _)| *key == address.bytes)
            .map(|(_, data)| data.clone())
    }
}

impl AccountReader for MockReader {
    fn get_account(&mut self, address: &Address) -> Result<Vec<u8>, AccountReadError> {
        self.get_account_calls += 1;
        self.lookup(address).ok_or(AccountReadError::AccountNotFound)
    }

    fn get_multiple_accounts(
        &mut self,
        addresses: &Vec<Address>,
    ) -> Result<Vec<Option<Vec<u8>>>, AccountReadError> {
        self.get_multiple_calls += 1;
        Ok(addresses.iter().map(|a| self.lookup(a)).collect())
    }
}

fn table_bytes(authority: &Address, members: &[Address]) -> Vec<u8> {
    let table = AddressLookupTable {
        meta: LookupTableMeta {
            deactivation_slot: u64::MAX,
            last_extended_slot: 0,
            last_extended_slot_start_index: 0,
            authority: Some(authority.clone()),
            padding: 0,
        },
        addresses: members.to_vec(),
    };
    table.serialize()
}

/// Installs a registry with one Active table for `authority` in the mock.
fn install_registry(mock: &mut MockReader, authority: &Address, table: &Address, members: &[Address]) {
    let registry = RegistryAccount {
        authority: authority.clone(),
        version: 0,
        seed: 0,
        len: 1,
        capacity: 1,
        last_created_slot: 0,
        tables: vec![RegistryEntry { state: EntryState::Active(2), table: table.clone() }],
    };
    let registry_addr = registry_address(authority).unwrap();
    mock.put(&registry_addr, encode_registry(&registry));
    mock.put(table, table_bytes(authority, members));
}

#[test]
fn test_cache_insert_get_and_expiry() {
    let authority = addr(1);
    let snapshot = Registry { authority: authority.clone(), version: 0, tables: Vec::new() };
    let mut cache = RegistryCache::new(1000);
    assert!(cache.get(&authority, 0).is_none());
    cache.insert(&authority, snapshot.clone(), 5000);
    // fresh strictly before the expiry instant
    assert_eq!(cache.get(&authority, 5000), Some(&snapshot));
    assert_eq!(cache.get(&authority, 5999), Some(&snapshot));
    // expired exactly at and after the expiry instant
    assert!(cache.get(&authority, 6000).is_none());
    assert!(cache.get(&authority, 7000).is_none());
    // an unknown authority stays absent
    assert!(cache.get(&addr(2), 5000).is_none());
}

#[test]
fn test_cache_replace_keeps_other_entries() {
    let a = addr(1);
    let b = addr(2);
    let snap_a = Registry { authority: a.clone(), version: 0, tables: Vec::new() };
    let snap_b = Registry { authority: b.clone(), version: 0, tables: Vec::new() };
    let snap_a2 = Registry { authority: a.clone(), version: 1, tables: Vec::new() };
    let mut cache = RegistryCache::new(1000);
    cache.insert(&a, snap_a, 0);
    cache.insert(&b, snap_b.clone(), 0);
    cache.insert(&a, snap_a2.clone(), 100);
    assert_eq!(cache.get(&a, 500), Some(&snap_a2));
    assert_eq!(cache.get(&b, 500), Some(&snap_b));
}

#[test]
fn test_get_registry_fetches_and_caches() {
    let authority = addr(1);
    let table = addr(10);
    let members = [addr(20), addr(21)];
    let mut mock = MockReader::new();
    install_registry(&mut mock, &authority, &table, &members);

    let mut reader = LookupRegistryReader::with_ttl(mock, 1000);
    let snapshot = reader.get_registry(&authority, 0).unwrap();
    assert_eq!(snapshot.authority, authority);
    assert_eq!(snapshot.tables.len(), 1);
    assert_eq!(snapshot.tables[0].discriminator, 2);
    assert_eq!(snapshot.tables[0].lookup_address, table);
    assert_eq!(snapshot.tables[0].addresses, members.to_vec());
    assert_eq!(reader.rpc.get_account_calls, 1);

    // a fresh hit does not refetch
    let again = reader.get_registry(&authority, 500).unwrap();
    assert_eq!(again, snapshot);
    assert_eq!(reader.rpc.get_account_calls, 1);
}

#[test]
fn test_expired_entry_triggers_exactly_one_refetch() {
    // Scenario: an entry inserted with a 1-second lifetime is expired
    // 1.5 seconds later, so one read-through triggers exactly one refetch.
    let authority = addr(1);
    let table = addr(10);
    let members = [addr(20)];
    let mut mock = MockReader::new();
    install_registry(&mut mock, &authority, &table, &members);

    let mut reader = LookupRegistryReader::with_ttl(mock, 1000);
    reader.get_registry(&authority, 0).unwrap();
    assert_eq!(reader.rpc.get_account_calls, 1);

    reader.get_registry(&authority, 1500).unwrap();
    assert_eq!(reader.rpc.get_account_calls, 2);
}

#[test]
fn test_get_registry_missing_returns_none() {
    let mut reader = LookupRegistryReader::with_ttl(MockReader::new(), 1000);
    assert!(reader.get_registry(&addr(1), 0).is_none());
    assert_eq!(reader.rpc.get_account_calls, 1);
}

#[test]
fn test_fetch_errors() {
    let authority = addr(1);
    // absent registry account
    let mut mock = MockReader::new();
    let err = Registry::fetch(&mut mock, &authority).unwrap_err();
    let expected_addr = registry_address(&authority).unwrap();
    assert_eq!(
        err,
        lookup_table_registry::common::LookupRegistryError::RegistryNotFound(expected_addr)
    );

    // undecodable registry account
    let mut mock = MockReader::new();
    let registry_addr = registry_address(&authority).unwrap();
    mock.put(&registry_addr, vec![1, 2, 3]);
    let err = Registry::fetch(&mut mock, &authority).unwrap_err();
    assert_eq!(
        err,
        lookup_table_registry::common::LookupRegistryError::DecodeError(
            lookup_table_registry::codec::DecodeError::InvalidAccountData
        )
    );
}

#[test]
fn test_fetch_drops_unresolvable_tables_silently() {
    // One table account is missing and another undecodable: both entries
    // are dropped from the snapshot without an error.
    let authority = addr(1);
    let good = addr(10);
    let missing = addr(11);
    let garbled = addr(12);
    let registry = RegistryAccount {
        authority: authority.clone(),
        version: 0,
        seed: 0,
        len: 3,
        capacity: 3,
        last_created_slot: 0,
        tables: vec![
            RegistryEntry { state: EntryState::Active(2), table: good.clone() },
            RegistryEntry { state: EntryState::Active(2), table: missing },
            RegistryEntry { state: EntryState::Active(2), table: garbled.clone() },
        ],
    };
    let mut mock = MockReader::new();
    mock.put(&registry_address(&authority).unwrap(), encode_registry(&registry));
    mock.put(&good, table_bytes(&authority, &[addr(20)]));
    mock.put(&garbled, vec![9, 9, 9]);

    let snapshot = Registry::fetch(&mut mock, &authority).unwrap();
    assert_eq!(snapshot.tables.len(), 1);
    assert_eq!(snapshot.tables[0].lookup_address, good);
    assert_eq!(mock.get_multiple_calls, 1);
}

#[test]
fn test_fetch_skips_inactive_entries() {
    let authority = addr(1);
    let active = addr(10);
    let dead = addr(11);
    let registry = RegistryAccount {
        authority: authority.clone(),
        version: 0,
        seed: 0,
        len: 2,
        capacity: 3,
        last_created_slot: 0,
        tables: vec![
            RegistryEntry { state: EntryState::Deactivated, table: dead.clone() },
            RegistryEntry { state: EntryState::Active(2), table: active.clone() },
            RegistryEntry { state: EntryState::Empty, table: Address { bytes: vec![0u8; 32] } },
        ],
    };
    let mut mock = MockReader::new();
    mock.put(&registry_address(&authority).unwrap(), encode_registry(&registry));
    mock.put(&active, table_bytes(&authority, &[addr(20)]));
    mock.put(&dead, table_bytes(&authority, &[addr(21)]));

    let snapshot = Registry::fetch(&mut mock, &authority).unwrap();
    assert_eq!(snapshot.tables.len(), 1);
    assert_eq!(snapshot.tables[0].lookup_address, active);
}

#[test]
fn test_update_registries_partial_failure() {
    let present = addr(1);
    let absent = addr(2);
    let table = addr(10);
    let mut mock = MockReader::new();
    install_registry(&mut mock, &present, &table, &[addr(20)]);

    let mut reader = LookupRegistryReader::with_ttl(mock, 1000);
    let errors = reader.update_registries(&vec![present.clone(), absent.clone()], 0);
    assert_eq!(errors, vec![absent]);
    assert!(reader.get_registry(&present, 500).is_some());
    // the successful authority was cached by the bulk refresh itself
    assert_eq!(reader.rpc.get_account_calls, 2);
}

#[test]
fn test_update_registries_failures_in_input_order() {
    let absent_a = addr(1);
    let present = addr(2);
    let absent_b = addr(3);
    let table = addr(10);
    let mut mock = MockReader::new();
    install_registry(&mut mock, &present, &table, &[addr(20)]);

    let mut reader = LookupRegistryReader::with_ttl(mock, 1000);
    let errors = reader.update_registries(
        &vec![absent_a.clone(), present.clone(), absent_b.clone()],
        0,
    );
    // the failed authorities come back as an in-order selection of the input
    assert_eq!(errors, vec![absent_a, absent_b]);
}

#[test]
fn test_update_registries_failure_keeps_prior_entry() {
    let authority = addr(1);
    let table = addr(10);
    let mut mock = MockReader::new();
    install_registry(&mut mock, &authority, &table, &[addr(20)]);

    let mut reader = LookupRegistryReader::with_ttl(mock, 10000);
    assert!(reader.update_registries(&vec![authority.clone()], 0).is_empty());
    let cached = reader.get_registry(&authority, 100).unwrap();

    // the account disappears from the transport; the refresh now fails but
    // must leave the prior snapshot in place
    reader.rpc.accounts.clear();
    let errors = reader.update_registries(&vec![authority.clone()], 200);
    assert_eq!(errors, vec![authority.clone()]);
    let still_cached = reader.get_registry(&authority, 300).unwrap();
    assert_eq!(still_cached, cached);
    assert_eq!(reader.rpc.get_account_calls, 2);
}

#[test]
fn test_update_registries_refetches_unconditionally() {
    let authority = addr(1);
    let table = addr(10);
    let mut mock = MockReader::new();
    install_registry(&mut mock, &authority, &table, &[addr(20)]);

    let mut reader = LookupRegistryReader::with_ttl(mock, 1000);
    reader.get_registry(&authority, 0).unwrap();
    assert_eq!(reader.rpc.get_account_calls, 1);
    // still fresh, yet the bulk refresh fetches again
    let errors = reader.update_registries(&vec![authority.clone()], 100);
    assert!(errors.is_empty());
    assert_eq!(reader.rpc.get_account_calls, 2);
}

#[test]
fn test_get_tables_is_cache_only() {
    let authority = addr(1);
    let table = addr(10);
    let members = [addr(20), addr(21)];
    let mut mock = MockReader::new();
    install_registry(&mut mock, &authority, &table, &members);

    let mut reader = LookupRegistryReader::with_ttl(mock, 1000);
    // nothing cached: nothing returned, nothing fetched
    let tables = reader.get_tables(&vec![authority.clone()], 0);
    assert!(tables.is_empty());
    assert_eq!(reader.rpc.get_account_calls, 0);

    reader.update_registries(&vec![authority.clone()], 0);
    let tables = reader.get_tables(&vec![authority.clone()], 500);
    assert_eq!(tables.len(), 1);
    assert_eq!(tables[0].key, table);
    assert_eq!(tables[0].addresses, members.to_vec());

    // expired snapshots behave as absent
    let tables = reader.get_tables(&vec![authority], 2000);
    assert!(tables.is_empty());
}
