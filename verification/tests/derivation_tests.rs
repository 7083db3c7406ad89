use std::str::FromStr;

use lookup_table_registry::addr::Address;
use lookup_table_registry::derivation::{
    lookup_table_id, lookup_table_registry_id, registry_address,
};

use solana_address_lookup_table_interface::instruction as real_instruction;
use solana_program::pubkey::Pubkey;

const SLOTS: [u64; 12] = [
    0,
    1203,
    5984359,
    4923824084,
    92398304917,
    842139847,
    487239487,
    823479832,
    283497234,
    188227418,
    908423209,
    940385092,
];

fn addresses() -> [Pubkey; 12] {
    [
        Pubkey::from_str("5bmWuR1dgP4avtGYMNKLuxumZTVKGgoN2BCMXWDNL9nY").unwrap(),
        Pubkey::from_str("4YfiMm6wp4M6rpyuCkF74aQmNrL2GtF72he2fCiS4Lo2").unwrap(),
        Pubkey::from_str("7qbRF6YsyGuLUVs6Y1q64bdVrfe4ZcUUz1JRdoVNUJnm").unwrap(),
        Pubkey::from_str("ACSZsvP1iCKWQVXoUMenHWpAfD3KgubLoMz8GtKP1NWQ").unwrap(),
        Pubkey::from_str("FbMCQ2PTDmvnMSsXKov91qEZzUMbfP7vnV6CcQf2ebr1").unwrap(),
        Pubkey::from_str("FS3VUPpibuMkTEdGx17JxTNHj8YZ2PxmchFvPWHVjLS9").unwrap(),
        Pubkey::from_str("Dcd63bUGN8pycgDCEU5nBB3j6vohPXmxFNufvZG8sU36").unwrap(),
        Pubkey::from_str("7XLWyPdHWK8Fs6s1yzWnheFS61e2C6CUP7oTYH5VW34n").unwrap(),
        Pubkey::from_str("HZfG2mtxiuL3dQeHw6VqRFHWR33nzHhJ5seWVabRfC6J").unwrap(),
        Pubkey::from_str("323MrRVVZgH877H7FiEcRFMqpZR7Uzzc6x6c4R2uE9B8").unwrap(),
        Pubkey::from_str("9RfZwn2Prux6QesG1Noo4HzMEBv3rPndJ2bN2Wwd6a7p").unwrap(),
        Pubkey::from_str("BVNo8ftg2LkkssnWT4ZWdtoFaevnfD6ExYeramwM27pe").unwrap(),
    ]
}

fn own_address(pk: &Pubkey) -> Address {
    Address { bytes: pk.to_bytes().to_vec() }
}

#[test]
fn stub_id_is_correct() {
    assert_eq!(
        lookup_table_id().bytes,
        solana_address_lookup_table_interface::program::ID.to_bytes().to_vec()
    );
    assert_eq!(
        lookup_table_registry_id().bytes,
        Pubkey::from_str("LTR8xXcSrEDsCbTWPY4JmJREFdMz4uYh65uajkVjzru")
            .unwrap()
            .to_bytes()
            .to_vec()
    );
}

#[test]
fn derive_lookup_table_address() {
    let addr = addresses();
    for i in 0..12 {
        let (real, _bump) = real_instruction::derive_lookup_table_address(&addr[i], SLOTS[i]);
        let ours = lookup_table_registry::derivation::derive_lookup_table_address(
            &own_address(&addr[i]),
            SLOTS[i],
        )
        .unwrap();
        assert_eq!(ours.bytes, real.to_bytes().to_vec());
    }
}

#[test]
fn test_registry_address_matches_derivation() {
    let addr = addresses();
    for i in 0..4 {
        let registry_id =
            Pubkey::from_str("LTR8xXcSrEDsCbTWPY4JmJREFdMz4uYh65uajkVjzru").unwrap();
        let expected =
            Pubkey::find_program_address(&[addr[i].as_ref()], &registry_id).0;
        let ours = registry_address(&own_address(&addr[i])).unwrap();
        assert_eq!(ours.bytes, expected.to_bytes().to_vec());
    }
}

#[test]
fn test_create_lookup_table_checks_derivation() {
    // creating with the correctly derived table address succeeds; any
    // other address is rejected as an invalid lookup table.
    let addr = addresses();
    let authority = own_address(&addr[0]);
    let reg =
        lookup_table_registry::state::init_registry_account(None, &authority, 0, 0).unwrap();
    let derived = lookup_table_registry::derivation::derive_lookup_table_address(
        &authority,
        SLOTS[1],
    )
    .unwrap();
    let created = lookup_table_registry::state::create_lookup_table(&reg, SLOTS[1], &derived)
        .unwrap();
    assert_eq!(created.len, 1);
    assert_eq!(created.capacity, 1);
    assert_eq!(created.last_created_slot, SLOTS[1]);
    assert_eq!(created.tables[0].table, derived);

    let wrong = own_address(&addr[5]);
    let err = lookup_table_registry::state::create_lookup_table(&reg, SLOTS[1], &wrong)
        .unwrap_err();
    assert_eq!(err, lookup_table_registry::state::ErrorCode::InvalidLookupTable);
}
