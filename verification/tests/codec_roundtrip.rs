use std::str::FromStr;

use lookup_table_registry::addr::Address;
use lookup_table_registry::codec::{decode_registry, encode_registry, DecodeError};
use lookup_table_registry::state::{EntryState, RegistryAccount, RegistryEntry};
use lookup_table_registry::table::{AddressLookupTable, LookupTableMeta};

use solana_address_lookup_table_interface::state as real_state;
use solana_program::pubkey::Pubkey;

fn addr(tag: u8) -> Address {
    let mut bytes = vec![0u8; 32];
    bytes[0] = tag;
    bytes[31] = 0x5A;
    Address { bytes }
}

fn sample_registry() -> RegistryAccount {
    RegistryAccount {
        authority: addr(1),
        version: 0,
        seed: 254,
        len: 2,
        capacity: 3,
        last_created_slot: 0x0102030405060708,
        tables: vec![
            RegistryEntry { state: EntryState::Active(2), table: addr(10) },
            RegistryEntry { state: EntryState::Empty, table: Address { bytes: vec![0u8; 32] } },
            RegistryEntry { state: EntryState::Deactivated, table: addr(11) },
        ],
    }
}

#[test]
fn test_registry_roundtrip() {
    let reg = sample_registry();
    let bytes = encode_registry(&reg);
    assert_eq!(bytes.len(), 48 + 3 * 40);
    let back = decode_registry(&bytes).unwrap();
    assert_eq!(back, reg);
}

#[test]
fn test_registry_encoding_layout() {
    let reg = sample_registry();
    let bytes = encode_registry(&reg);
    // header: authority ∥ version ∥ seed ∥ len ∥ capacity ∥ reserved ∥ slot
    assert_eq!(&bytes[0..32], &reg.authority.bytes[..]);
    assert_eq!(bytes[32], 0);
    assert_eq!(bytes[33], 254);
    assert_eq!(bytes[34], 2);
    assert_eq!(bytes[35], 3);
    assert_eq!(&bytes[36..40], &[0, 0, 0, 0]);
    // the reference slot is little-endian
    assert_eq!(&bytes[40..48], &[8, 7, 6, 5, 4, 3, 2, 1]);
    // first entry record: discriminator 2 little-endian, then the address
    assert_eq!(&bytes[48..56], &[2, 0, 0, 0, 0, 0, 0, 0]);
    assert_eq!(&bytes[56..88], &reg.tables[0].table.bytes[..]);
}

#[test]
fn test_registry_decode_rejects_bad_layout() {
    let reg = sample_registry();
    let good = encode_registry(&reg);

    // too short for the header
    assert_eq!(
        decode_registry(&good[..40].to_vec()),
        Err(DecodeError::InvalidAccountData)
    );
    // a torn trailing record
    assert_eq!(
        decode_registry(&good[..good.len() - 7].to_vec()),
        Err(DecodeError::InvalidAccountData)
    );
    // capacity field disagreeing with the stored records
    let mut bad_capacity = good.clone();
    bad_capacity[35] = 2;
    assert_eq!(
        decode_registry(&bad_capacity),
        Err(DecodeError::InvalidAccountData)
    );
    // len field not counting the non-empty records
    let mut bad_len = good.clone();
    bad_len[34] = 3;
    assert_eq!(decode_registry(&bad_len), Err(DecodeError::InvalidAccountData));
}

fn sample_table(with_authority: bool) -> AddressLookupTable {
    AddressLookupTable {
        meta: LookupTableMeta {
            deactivation_slot: u64::MAX,
            last_extended_slot: 123456,
            last_extended_slot_start_index: 4,
            authority: if with_authority { Some(addr(1)) } else { None },
            padding: 513,
        },
        addresses: vec![addr(20), addr(21), addr(20)],
    }
}

#[test]
fn test_table_roundtrip_with_authority() {
    let table = sample_table(true);
    let bytes = table.serialize();
    assert_eq!(bytes.len(), 56 + 3 * 32);
    let back = AddressLookupTable::deserialize(&bytes).unwrap();
    assert_eq!(back, table);
}

#[test]
fn test_table_roundtrip_without_authority() {
    let table = sample_table(false);
    let bytes = table.serialize();
    assert_eq!(bytes.len(), 56 + 3 * 32);
    let back = AddressLookupTable::deserialize(&bytes).unwrap();
    assert_eq!(back, table);
}

#[test]
fn test_table_uninitialized_rejected() {
    let bytes = vec![0u8; 56];
    assert_eq!(
        AddressLookupTable::deserialize(&bytes),
        Err(DecodeError::UninitializedAccount)
    );
}

#[test]
fn test_table_misaligned_addresses_rejected() {
    let table = sample_table(true);
    let mut bytes = table.serialize();
    bytes.push(0);
    assert_eq!(
        AddressLookupTable::deserialize(&bytes),
        Err(DecodeError::InvalidAccountData)
    );
}

const SLOTS: [u64; 12] = [
    0,
    1203,
    5984359,
    4923824084,
    92398304917,
    842139847,
    487239487,
    823479832,
    283497234,
    188227418,
    908423209,
    940385092,
];

fn real_addresses() -> [Pubkey; 12] {
    [
        Pubkey::from_str("5bmWuR1dgP4avtGYMNKLuxumZTVKGgoN2BCMXWDNL9nY").unwrap(),
        Pubkey::from_str("4YfiMm6wp4M6rpyuCkF74aQmNrL2GtF72he2fCiS4Lo2").unwrap(),
        Pubkey::from_str("7qbRF6YsyGuLUVs6Y1q64bdVrfe4ZcUUz1JRdoVNUJnm").unwrap(),
        Pubkey::from_str("ACSZsvP1iCKWQVXoUMenHWpAfD3KgubLoMz8GtKP1NWQ").unwrap(),
        Pubkey::from_str("FbMCQ2PTDmvnMSsXKov91qEZzUMbfP7vnV6CcQf2ebr1").unwrap(),
        Pubkey::from_str("FS3VUPpibuMkTEdGx17JxTNHj8YZ2PxmchFvPWHVjLS9").unwrap(),
        Pubkey::from_str("Dcd63bUGN8pycgDCEU5nBB3j6vohPXmxFNufvZG8sU36").unwrap(),
        Pubkey::from_str("7XLWyPdHWK8Fs6s1yzWnheFS61e2C6CUP7oTYH5VW34n").unwrap(),
        Pubkey::from_str("HZfG2mtxiuL3dQeHw6VqRFHWR33nzHhJ5seWVabRfC6J").unwrap(),
        Pubkey::from_str("323MrRVVZgH877H7FiEcRFMqpZR7Uzzc6x6c4R2uE9B8").unwrap(),
        Pubkey::from_str("9RfZwn2Prux6QesG1Noo4HzMEBv3rPndJ2bN2Wwd6a7p").unwrap(),
        Pubkey::from_str("BVNo8ftg2LkkssnWT4ZWdtoFaevnfD6ExYeramwM27pe").unwrap(),
    ]
}

fn own_address(pk: &Pubkey) -> Address {
    Address { bytes: pk.to_bytes().to_vec() }
}

#[test]
fn real_serialized_table_deserializes_as_expected() {
    let addr = real_addresses();
    for i in 0..6 {
        let n = i * 2;
        let real_table = real_state::AddressLookupTable {
            meta: real_state::LookupTableMeta {
                deactivation_slot: SLOTS[0 + n],
                last_extended_slot: SLOTS[1 + n],
                last_extended_slot_start_index: 123,
                authority: if i % 2 == 0 { None } else { Some(addr[i]) },
                _padding: 12345,
            },
            addresses: std::borrow::Cow::from(&addr[..]),
        };
        let expected = AddressLookupTable {
            meta: LookupTableMeta {
                deactivation_slot: SLOTS[0 + n],
                last_extended_slot: SLOTS[1 + n],
                last_extended_slot_start_index: 123,
                authority: if i % 2 == 0 { None } else { Some(own_address(&addr[i])) },
                padding: 12345,
            },
            addresses: addr.iter().map(own_address).collect(),
        };
        let serialized = real_table.serialize_for_tests().unwrap();
        let deserialized = AddressLookupTable::deserialize(&serialized).unwrap();
        assert_eq!(deserialized, expected);
    }
}
