//! Bit-exact codec for the registry account layout.
//!
//! A registry account is a 48-byte header — authority (32) ∥ version (1) ∥
//! seed (1) ∥ len (1) ∥ capacity (1) ∥ reserved padding (4) ∥ last-created
//! reference slot (8, little-endian) — followed by `capacity` fixed-size
//! entry records of 40 bytes each: discriminator (8, little-endian) ∥ table
//! address (32).

use vstd::prelude::*;
use vstd::arithmetic::div_mod::{
    lemma_div_multiples_vanish, lemma_fundamental_div_mod, lemma_mod_multiples_basic,
};
use crate::addr::Address;
use crate::bytes::{copy_range, push_bytes, read_u64_le, u64_from_le, u64_le_bytes, u64_to_le_vec};
use crate::state::{
    count_nonempty, discriminator_of, entries_view, spec_discriminator, spec_state_of,
    state_of_discriminator, EntryModel, RegistryAccount, RegistryEntry, RegistryModel,
    MAX_REGISTRY_ENTRIES,
};

verus! {

/// Bytes of the fixed registry header.
pub const REGISTRY_HEADER_SIZE: usize = 48;

/// Bytes of one fixed-size entry record.
pub const REGISTRY_ENTRY_SIZE: usize = 40;

/// Why a byte blob was rejected by a codec.
#[derive(Clone, Copy, Debug, PartialEq, Eq, Structural)]
pub enum DecodeError {
    /// The data is missing, misaligned, mis-sized, or otherwise malformed.
    InvalidAccountData,
    /// The account carries the uninitialized marker.
    UninitializedAccount,
}

/// Encoding of one entry record.
pub open spec fn spec_encode_entry(e: EntryModel) -> Seq<u8> {
    u64_le_bytes(spec_discriminator(e.state)) + e.table
}

/// Encoding of a sequence of entry records, in order.
pub open spec fn spec_encode_entries(s: Seq<EntryModel>) -> Seq<u8>
    decreases s.len(),
{
    if s.len() == 0 {
        Seq::empty()
    } else {
        spec_encode_entries(s.drop_last()) + spec_encode_entry(s.last())
    }
}

/// Encoding of the fixed header.
pub open spec fn spec_registry_header(r: RegistryModel) -> Seq<u8> {
    r.authority + seq![r.version, r.seed, r.len, r.capacity] + seq![0u8, 0u8, 0u8, 0u8]
        + u64_le_bytes(r.last_created_slot)
}

/// Encoding of a whole registry account.
pub open spec fn spec_encode_registry(r: RegistryModel) -> Seq<u8> {
    spec_registry_header(r) + spec_encode_entries(r.tables)
}

/// The entry record stored in a 40-byte slice.
pub open spec fn spec_parse_entry(b: Seq<u8>) -> EntryModel
    recommends
        b.len() == REGISTRY_ENTRY_SIZE,
{
    EntryModel {
        state: spec_state_of(u64_from_le(b.subrange(0, 8))),
        table: b.subrange(8, 40),
    }
}

/// The registry stored in a byte blob, or why it is rejected: the trailing
/// records must be whole, their number must equal the stored capacity (at
/// most 254), and the stored len must count the non-empty records.
pub open spec fn spec_decode_registry(b: Seq<u8>) -> Result<RegistryModel, DecodeError> {
    if b.len() < REGISTRY_HEADER_SIZE {
        Err(DecodeError::InvalidAccountData)
    } else if (b.len() - REGISTRY_HEADER_SIZE) % (REGISTRY_ENTRY_SIZE as int) != 0 {
        Err(DecodeError::InvalidAccountData)
    } else {
        let n = (b.len() - REGISTRY_HEADER_SIZE) / (REGISTRY_ENTRY_SIZE as int);
        let entries = Seq::new(
            n as nat,
            |i: int| spec_parse_entry(b.subrange(48 + 40 * i, 48 + 40 * i + 40)),
        );
        if n != b[35] as int {
            Err(DecodeError::InvalidAccountData)
        } else if (b[35] as nat) > (MAX_REGISTRY_ENTRIES as nat) {
            Err(DecodeError::InvalidAccountData)
        } else if b[34] as nat != count_nonempty(entries) {
            Err(DecodeError::InvalidAccountData)
        } else {
            Ok(
                RegistryModel {
                    authority: b.subrange(0, 32),
                    version: b[32],
                    seed: b[33],
                    len: b[34],
                    capacity: b[35],
                    last_created_slot: u64_from_le(b.subrange(40, 48)),
                    tables: entries,
                },
            )
        }
    }
}

/// A well-formed entry encodes to exactly one 40-byte record.
pub proof fn lemma_encode_entry_len(e: EntryModel)
    requires
        e.wf(),
    ensures
        spec_encode_entry(e).len() == REGISTRY_ENTRY_SIZE,
{
}

/// Well-formed entries encode to 40 bytes each.
pub proof fn lemma_encode_entries_len(s: Seq<EntryModel>)
    requires
        forall|i: int| 0 <= i < s.len() ==> (#[trigger] s[i]).wf(),
    ensures
        spec_encode_entries(s).len() == REGISTRY_ENTRY_SIZE * s.len(),
    decreases s.len(),
{
    if s.len() > 0 {
        assert(forall|i: int| 0 <= i < s.drop_last().len() ==> s.drop_last()[i] == s[i]);
        lemma_encode_entries_len(s.drop_last());
        lemma_encode_entry_len(s.last());
    }
}

/// Record `i` of an entry-sequence encoding is the encoding of entry `i`.
pub proof fn lemma_encode_entries_index(s: Seq<EntryModel>, i: int)
    requires
        forall|k: int| 0 <= k < s.len() ==> (#[trigger] s[k]).wf(),
        0 <= i < s.len(),
    ensures
        spec_encode_entries(s).subrange(40 * i, 40 * i + 40) == spec_encode_entry(s[i]),
    decreases s.len(),
{
    assert(forall|k: int| 0 <= k < s.drop_last().len() ==> s.drop_last()[k] == s[k]);
    lemma_encode_entries_len(s.drop_last());
    lemma_encode_entry_len(s.last());
    if i == s.len() - 1 {
        assert(spec_encode_entries(s).subrange(40 * i, 40 * i + 40) =~= spec_encode_entry(s[i]));
    } else {
        lemma_encode_entries_index(s.drop_last(), i);
        assert(spec_encode_entries(s).subrange(40 * i, 40 * i + 40) =~= spec_encode_entries(
            s.drop_last(),
        ).subrange(40 * i, 40 * i + 40));
    }
}

/// Parsing an encoded entry record recovers the entry.
pub proof fn lemma_parse_entry_roundtrip(e: EntryModel)
    requires
        e.wf(),
    ensures
        spec_parse_entry(spec_encode_entry(e)) == e,
{
    let b = spec_encode_entry(e);
    assert(b.subrange(0, 8) =~= u64_le_bytes(spec_discriminator(e.state)));
    assert(b.subrange(8, 40) =~= e.table);
    crate::bytes::lemma_u64_le_roundtrip(spec_discriminator(e.state));
}

/// Decoding the encoding of any well-formed registry recovers it bit-exactly.
pub proof fn lemma_registry_codec_roundtrip(r: RegistryModel)
    requires
        r.wf(),
    ensures
        spec_decode_registry(spec_encode_registry(r)) == Ok::<RegistryModel, DecodeError>(r),
{
    let b = spec_encode_registry(r);
    let n = r.tables.len() as int;
    lemma_encode_entries_len(r.tables);
    assert(b.len() == 48 + 40 * n);
    lemma_mod_multiples_basic(n, 40);
    lemma_div_multiples_vanish(n, 40);
    assert((b.len() - 48) % 40 == 0);
    assert((b.len() - 48) / 40 == n);
    assert(b.subrange(0, 32) =~= r.authority);
    assert(b[32] == r.version && b[33] == r.seed && b[34] == r.len && b[35] == r.capacity);
    assert(b.subrange(40, 48) =~= u64_le_bytes(r.last_created_slot));
    crate::bytes::lemma_u64_le_roundtrip(r.last_created_slot);
    let entries = Seq::new(
        n as nat,
        |i: int| spec_parse_entry(b.subrange(48 + 40 * i, 48 + 40 * i + 40)),
    );
    assert forall|i: int| 0 <= i < n implies entries[i] == r.tables[i] by {
        lemma_encode_entries_index(r.tables, i);
        assert(b.subrange(48 + 40 * i, 48 + 40 * i + 40) =~= spec_encode_entries(
            r.tables,
        ).subrange(40 * i, 40 * i + 40));
        lemma_parse_entry_roundtrip(r.tables[i]);
    }
    assert(entries =~= r.tables);
    match spec_decode_registry(b) {
        Ok(m) => {
            assert(m == r);
        },
        Err(_) => {
            assert(false);
        },
    }
}

/// Encodes a registry account into its byte layout.
pub fn encode_registry(registry: &RegistryAccount) -> (r: Vec<u8>)
    requires
        registry.wf(),
    ensures
        r@ == spec_encode_registry(registry@),
{
    let mut out: Vec<u8> = Vec::new();
    push_bytes(&mut out, &registry.authority.bytes);
    out.push(registry.version);
    out.push(registry.seed);
    out.push(registry.len);
    out.push(registry.capacity);
    out.push(0u8);
    out.push(0u8);
    out.push(0u8);
    out.push(0u8);
    let slot_bytes = u64_to_le_vec(registry.last_created_slot);
    push_bytes(&mut out, &slot_bytes);
    proof {
        assert(out@ =~= spec_registry_header(registry@));
        assert(registry@.tables.take(0) =~= Seq::<EntryModel>::empty());
        assert(out@ =~= spec_registry_header(registry@) + spec_encode_entries(
            registry@.tables.take(0),
        ));
    }
    let mut i: usize = 0;
    while i < registry.tables.len()
        invariant
            i <= registry.tables@.len(),
            registry@.tables.len() == registry.tables@.len(),
            out@ == spec_registry_header(registry@) + spec_encode_entries(
                registry@.tables.take(i as int),
            ),
        decreases registry.tables@.len() - i,
    {
        let disc = discriminator_of(registry.tables[i].state);
        let disc_bytes = u64_to_le_vec(disc);
        push_bytes(&mut out, &disc_bytes);
        push_bytes(&mut out, &registry.tables[i].table.bytes);
        proof {
            let ts = registry@.tables;
            assert(ts.take(i as int + 1).drop_last() =~= ts.take(i as int));
            assert(ts.take(i as int + 1).last() == ts[i as int]);
            assert(out@ =~= spec_registry_header(registry@) + spec_encode_entries(
                ts.take(i as int + 1),
            ));
        }
        i += 1;
    }
    proof {
        assert(registry@.tables.take(registry@.tables.len() as int) =~= registry@.tables);
    }
    out
}

/// Decodes a registry account from its byte layout.
pub fn decode_registry(b: &Vec<u8>) -> (r: Result<RegistryAccount, DecodeError>)
    ensures
        match r {
            Ok(reg) => spec_decode_registry(b@) == Ok::<RegistryModel, DecodeError>(reg@)
                && reg@.wf(),
            Err(e) => spec_decode_registry(b@) == Err::<RegistryModel, DecodeError>(e),
        },
{
    let blen = b.len();
    if blen < REGISTRY_HEADER_SIZE {
        return Err(DecodeError::InvalidAccountData);
    }
    if (blen - REGISTRY_HEADER_SIZE) % REGISTRY_ENTRY_SIZE != 0 {
        return Err(DecodeError::InvalidAccountData);
    }
    let n = (blen - REGISTRY_HEADER_SIZE) / REGISTRY_ENTRY_SIZE;
    proof {
        lemma_fundamental_div_mod((blen - REGISTRY_HEADER_SIZE) as int, REGISTRY_ENTRY_SIZE as int);
        assert(blen == 48 + 40 * n);
    }
    let capacity = b[35];
    if n != capacity as usize {
        return Err(DecodeError::InvalidAccountData);
    }
    if capacity as usize > MAX_REGISTRY_ENTRIES {
        return Err(DecodeError::InvalidAccountData);
    }
    let len_field = b[34];
    let ghost spec_entries = Seq::new(
        n as nat,
        |i: int| spec_parse_entry(b@.subrange(48 + 40 * i, 48 + 40 * i + 40)),
    );
    let mut tables: Vec<RegistryEntry> = Vec::new();
    let mut i: usize = 0;
    while i < n
        invariant
            i <= n,
            blen == b@.len(),
            blen == 48 + 40 * n,
            tables@.len() == i,
            spec_entries == Seq::new(
                n as nat,
                |k: int| spec_parse_entry(b@.subrange(48 + 40 * k, 48 + 40 * k + 40)),
            ),
            forall|j: int| 0 <= j < i ==> (#[trigger] tables@[j])@ == spec_entries[j],
            forall|j: int| 0 <= j < i ==> (#[trigger] tables@[j])@.wf(),
        decreases n - i,
    {
        let off = REGISTRY_HEADER_SIZE + REGISTRY_ENTRY_SIZE * i;
        let disc = read_u64_le(b, off);
        let table_bytes = copy_range(b, off + 8, off + 40);
        let state = state_of_discriminator(disc);
        let entry = RegistryEntry { state, table: Address { bytes: table_bytes } };
        proof {
            let sub = b@.subrange(off as int, off as int + 40);
            assert(sub.subrange(0, 8) =~= b@.subrange(off as int, off as int + 8));
            assert(sub.subrange(8, 40) =~= b@.subrange(off as int + 8, off as int + 40));
            assert(entry@ == spec_parse_entry(sub));
            assert(spec_entries[i as int] == spec_parse_entry(sub));
        }
        tables.push(entry);
        i += 1;
    }
    let mut cnt: usize = 0;
    let mut k: usize = 0;
    while k < tables.len()
        invariant
            k <= tables@.len(),
            tables@.len() == n,
            n <= MAX_REGISTRY_ENTRIES,
            cnt <= k,
            forall|j: int| 0 <= j < n ==> (#[trigger] tables@[j])@ == spec_entries[j],
            forall|j: int| 0 <= j < n ==> (#[trigger] tables@[j])@.wf(),
            cnt as nat == count_nonempty(entries_view(tables@).take(k as int)),
        decreases tables@.len() - k,
    {
        let vacant = match tables[k].state {
            crate::state::EntryState::Empty => true,
            _ => false,
        };
        proof {
            let ev = entries_view(tables@);
            assert(ev.take(k as int + 1).drop_last() =~= ev.take(k as int));
            assert(ev.take(k as int + 1).last() == ev[k as int]);
        }
        if !vacant {
            cnt = cnt + 1;
        }
        k += 1;
    }
    proof {
        assert(entries_view(tables@).take(tables@.len() as int) =~= entries_view(tables@));
        assert(entries_view(tables@) =~= spec_entries);
    }
    if len_field as usize != cnt {
        return Err(DecodeError::InvalidAccountData);
    }
    let authority = Address { bytes: copy_range(b, 0, 32) };
    let version = b[32];
    let seed = b[33];
    let last_created_slot = read_u64_le(b, 40);
    let reg = RegistryAccount {
        authority,
        version,
        seed,
        len: len_field,
        capacity,
        last_created_slot,
        tables,
    };
    proof {
        match spec_decode_registry(b@) {
            Ok(m) => {
                assert(reg@.tables == spec_entries);
                assert(m == reg@);
            },
            Err(_) => {
                assert(false);
            },
        }
    }
    Ok(reg)
}

} // verus!
