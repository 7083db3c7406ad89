//! Bit-exact codec for the external table account layout.
//!
//! A table account is a 56-byte metadata header — a 4-byte little-endian
//! state tag (0 marks an uninitialized account), deactivation slot (8),
//! last-extended slot (8), last-extended start index (1), an optional
//! authority (1-byte tag, then 32 bytes when present), a 2-byte padding
//! word, and zero fill up to 56 — followed by a packed array of 32-byte
//! addresses. Mis-sized trailing data is rejected.

use vstd::prelude::*;
use vstd::arithmetic::div_mod::{
    lemma_div_multiples_vanish, lemma_fundamental_div_mod, lemma_mod_multiples_basic,
};
use crate::addr::{zero_address, Address, ADDRESS_LEN};
use crate::bytes::{
    copy_range, push_bytes, read_u16_le, read_u32_le, read_u64_le, u16_from_le, u16_le_bytes,
    u32_from_le, u32_le_bytes, u64_from_le, u64_le_bytes, u64_to_le_vec,
};
use crate::codec::DecodeError;

verus! {

/// Bytes of the fixed table metadata header.
pub const LOOKUP_TABLE_META_SIZE: usize = 56;

/// Mathematical model of the table metadata.
pub struct MetaModel {
    pub deactivation_slot: u64,
    pub last_extended_slot: u64,
    pub last_extended_slot_start_index: u8,
    pub authority: Option<Seq<u8>>,
    pub padding: u16,
}

impl MetaModel {
    pub open spec fn wf(self) -> bool {
        match self.authority {
            Some(a) => a.len() == ADDRESS_LEN,
            None => true,
        }
    }
}

/// Mathematical model of a decoded table account.
pub struct TableModel {
    pub meta: MetaModel,
    pub addresses: Seq<Seq<u8>>,
}

impl TableModel {
    pub open spec fn wf(self) -> bool {
        &&& self.meta.wf()
        &&& forall|i: int| 0 <= i < self.addresses.len() ==> (#[trigger] self.addresses[i]).len()
            == ADDRESS_LEN
    }
}

/// Metadata of a lookup table account.
#[derive(Debug, PartialEq, Eq)]
pub struct LookupTableMeta {
    /// Slot at which the table was deactivated, or the far-future sentinel.
    pub deactivation_slot: u64,
    /// Slot of the last extension.
    pub last_extended_slot: u64,
    /// Index where the last extension started.
    pub last_extended_slot_start_index: u8,
    /// Authority allowed to modify the table, if any.
    pub authority: Option<Address>,
    /// Reserved padding word, kept bit-exactly.
    pub padding: u16,
}

impl View for LookupTableMeta {
    type V = MetaModel;

    open spec fn view(&self) -> MetaModel {
        MetaModel {
            deactivation_slot: self.deactivation_slot,
            last_extended_slot: self.last_extended_slot,
            last_extended_slot_start_index: self.last_extended_slot_start_index,
            authority: match self.authority {
                Some(a) => Some(a@),
                None => None,
            },
            padding: self.padding,
        }
    }
}

impl Clone for LookupTableMeta {
    fn clone(&self) -> (r: Self)
        ensures
            r@ == self@,
    {
        LookupTableMeta {
            deactivation_slot: self.deactivation_slot,
            last_extended_slot: self.last_extended_slot,
            last_extended_slot_start_index: self.last_extended_slot_start_index,
            authority: match &self.authority {
                Some(a) => Some(a.clone()),
                None => None,
            },
            padding: self.padding,
        }
    }
}

/// A decoded table account: its metadata and its member addresses, in
/// stored order and with duplicates kept.
#[derive(Debug, PartialEq, Eq)]
pub struct AddressLookupTable {
    pub meta: LookupTableMeta,
    pub addresses: Vec<Address>,
}

impl View for AddressLookupTable {
    type V = TableModel;

    open spec fn view(&self) -> TableModel {
        TableModel { meta: self.meta@, addresses: self.addresses.deep_view() }
    }
}

/// Encoding of the 56-byte metadata header of an initialized table.
pub open spec fn spec_encode_meta(m: MetaModel) -> Seq<u8> {
    u32_le_bytes(1) + u64_le_bytes(m.deactivation_slot) + u64_le_bytes(m.last_extended_slot)
        + seq![m.last_extended_slot_start_index] + match m.authority {
        Some(a) => seq![1u8] + a + u16_le_bytes(m.padding),
        None => seq![0u8] + u16_le_bytes(m.padding) + zero_address(),
    }
}

/// Encoding of the packed address array.
pub open spec fn spec_encode_addresses(s: Seq<Seq<u8>>) -> Seq<u8>
    decreases s.len(),
{
    if s.len() == 0 {
        Seq::empty()
    } else {
        spec_encode_addresses(s.drop_last()) + s.last()
    }
}

/// Encoding of a whole table account.
pub open spec fn spec_encode_table(t: TableModel) -> Seq<u8> {
    spec_encode_meta(t.meta) + spec_encode_addresses(t.addresses)
}

/// The table stored in a byte blob, or why it is rejected.
pub open spec fn spec_decode_table(b: Seq<u8>) -> Result<TableModel, DecodeError> {
    if b.len() < 4 {
        Err(DecodeError::InvalidAccountData)
    } else {
        let tag = u32_from_le(b.subrange(0, 4));
        if tag == 0 {
            Err(DecodeError::UninitializedAccount)
        } else if tag != 1 {
            Err(DecodeError::InvalidAccountData)
        } else if b.len() < 24 {
            Err(DecodeError::InvalidAccountData)
        } else if b[21] != 0 && b[21] != 1 {
            Err(DecodeError::InvalidAccountData)
        } else if b.len() < LOOKUP_TABLE_META_SIZE {
            Err(DecodeError::InvalidAccountData)
        } else if (b.len() - LOOKUP_TABLE_META_SIZE) % (ADDRESS_LEN as int) != 0 {
            Err(DecodeError::InvalidAccountData)
        } else {
            let k = (b.len() - LOOKUP_TABLE_META_SIZE) / (ADDRESS_LEN as int);
            Ok(
                TableModel {
                    meta: MetaModel {
                        deactivation_slot: u64_from_le(b.subrange(4, 12)),
                        last_extended_slot: u64_from_le(b.subrange(12, 20)),
                        last_extended_slot_start_index: b[20],
                        authority: if b[21] == 1 {
                            Some(b.subrange(22, 54))
                        } else {
                            None
                        },
                        padding: if b[21] == 1 {
                            u16_from_le(b.subrange(54, 56))
                        } else {
                            u16_from_le(b.subrange(22, 24))
                        },
                    },
                    addresses: Seq::new(
                        k as nat,
                        |i: int| b.subrange(56 + 32 * i, 56 + 32 * i + 32),
                    ),
                },
            )
        }
    }
}

/// A well-formed metadata header encodes to exactly 56 bytes.
pub proof fn lemma_encode_meta_len(m: MetaModel)
    requires
        m.wf(),
    ensures
        spec_encode_meta(m).len() == LOOKUP_TABLE_META_SIZE,
{
}

/// Well-formed addresses encode to 32 bytes each.
pub proof fn lemma_encode_addresses_len(s: Seq<Seq<u8>>)
    requires
        forall|i: int| 0 <= i < s.len() ==> (#[trigger] s[i]).len() == ADDRESS_LEN,
    ensures
        spec_encode_addresses(s).len() == ADDRESS_LEN * s.len(),
    decreases s.len(),
{
    if s.len() > 0 {
        assert(forall|i: int| 0 <= i < s.drop_last().len() ==> s.drop_last()[i] == s[i]);
        lemma_encode_addresses_len(s.drop_last());
    }
}

/// Record `i` of an address-array encoding is address `i`.
pub proof fn lemma_encode_addresses_index(s: Seq<Seq<u8>>, i: int)
    requires
        forall|k: int| 0 <= k < s.len() ==> (#[trigger] s[k]).len() == ADDRESS_LEN,
        0 <= i < s.len(),
    ensures
        spec_encode_addresses(s).subrange(32 * i, 32 * i + 32) == s[i],
    decreases s.len(),
{
    assert(forall|k: int| 0 <= k < s.drop_last().len() ==> s.drop_last()[k] == s[k]);
    lemma_encode_addresses_len(s.drop_last());
    if i == s.len() - 1 {
        assert(spec_encode_addresses(s).subrange(32 * i, 32 * i + 32) =~= s[i]);
    } else {
        lemma_encode_addresses_index(s.drop_last(), i);
        assert(spec_encode_addresses(s).subrange(32 * i, 32 * i + 32) =~= spec_encode_addresses(
            s.drop_last(),
        ).subrange(32 * i, 32 * i + 32));
    }
}

/// Decoding the encoding of any well-formed table recovers it bit-exactly.
pub proof fn lemma_table_codec_roundtrip(t: TableModel)
    requires
        t.wf(),
    ensures
        spec_decode_table(spec_encode_table(t)) == Ok::<TableModel, DecodeError>(t),
{
    let b = spec_encode_table(t);
    let k = t.addresses.len() as int;
    lemma_encode_meta_len(t.meta);
    lemma_encode_addresses_len(t.addresses);
    assert(b.len() == 56 + 32 * k);
    lemma_mod_multiples_basic(k, 32);
    lemma_div_multiples_vanish(k, 32);
    assert((b.len() - 56) % 32 == 0);
    assert((b.len() - 56) / 32 == k);
    assert(b.subrange(0, 4) =~= u32_le_bytes(1));
    crate::bytes::lemma_u32_le_roundtrip(1);
    assert(b.subrange(4, 12) =~= u64_le_bytes(t.meta.deactivation_slot));
    assert(b.subrange(12, 20) =~= u64_le_bytes(t.meta.last_extended_slot));
    crate::bytes::lemma_u64_le_roundtrip(t.meta.deactivation_slot);
    crate::bytes::lemma_u64_le_roundtrip(t.meta.last_extended_slot);
    assert(b[20] == t.meta.last_extended_slot_start_index);
    match t.meta.authority {
        Some(a) => {
            assert(b[21] == 1u8);
            assert(b.subrange(22, 54) =~= a);
            assert(b.subrange(54, 56) =~= u16_le_bytes(t.meta.padding));
            crate::bytes::lemma_u16_le_roundtrip(t.meta.padding);
        },
        None => {
            assert(b[21] == 0u8);
            assert(b.subrange(22, 24) =~= u16_le_bytes(t.meta.padding));
            crate::bytes::lemma_u16_le_roundtrip(t.meta.padding);
        },
    }
    let addresses = Seq::new(k as nat, |i: int| b.subrange(56 + 32 * i, 56 + 32 * i + 32));
    assert forall|i: int| 0 <= i < k implies addresses[i] == t.addresses[i] by {
        lemma_encode_addresses_index(t.addresses, i);
        assert(b.subrange(56 + 32 * i, 56 + 32 * i + 32) =~= spec_encode_addresses(
            t.addresses,
        ).subrange(32 * i, 32 * i + 32));
    }
    assert(addresses =~= t.addresses);
    match spec_decode_table(b) {
        Ok(m) => {
            assert(m.addresses =~= t.addresses);
            assert(m.meta == t.meta);
            assert(m == t);
        },
        Err(_) => {
            assert(false);
        },
    }
}

impl AddressLookupTable {
    pub open spec fn wf(&self) -> bool {
        self@.wf()
    }

    /// Decodes a table account from its byte layout. An uninitialized
    /// marker is rejected as `UninitializedAccount`; misaligned or
    /// mis-sized trailing data as `InvalidAccountData`.
    pub fn deserialize(data: &Vec<u8>) -> (r: Result<AddressLookupTable, DecodeError>)
        ensures
            match r {
                Ok(t) => spec_decode_table(data@) == Ok::<TableModel, DecodeError>(t@) && t@.wf(),
                Err(e) => spec_decode_table(data@) == Err::<TableModel, DecodeError>(e),
            },
    {
        let dlen = data.len();
        if dlen < 4 {
            return Err(DecodeError::InvalidAccountData);
        }
        let tag = read_u32_le(data, 0);
        if tag == 0 {
            return Err(DecodeError::UninitializedAccount);
        }
        if tag != 1 {
            return Err(DecodeError::InvalidAccountData);
        }
        if dlen < 24 {
            return Err(DecodeError::InvalidAccountData);
        }
        let auth_tag = data[21];
        if auth_tag != 0 && auth_tag != 1 {
            return Err(DecodeError::InvalidAccountData);
        }
        if dlen < LOOKUP_TABLE_META_SIZE {
            return Err(DecodeError::InvalidAccountData);
        }
        if (dlen - LOOKUP_TABLE_META_SIZE) % ADDRESS_LEN != 0 {
            return Err(DecodeError::InvalidAccountData);
        }
        let k = (dlen - LOOKUP_TABLE_META_SIZE) / ADDRESS_LEN;
        proof {
            lemma_fundamental_div_mod(
                (dlen - LOOKUP_TABLE_META_SIZE) as int,
                ADDRESS_LEN as int,
            );
            assert(dlen == 56 + 32 * k);
        }
        let deactivation_slot = read_u64_le(data, 4);
        let last_extended_slot = read_u64_le(data, 12);
        let last_extended_slot_start_index = data[20];
        let authority: Option<Address> = if auth_tag == 1 {
            Some(Address { bytes: copy_range(data, 22, 54) })
        } else {
            None
        };
        let padding = if auth_tag == 1 {
            read_u16_le(data, 54)
        } else {
            read_u16_le(data, 22)
        };
        let ghost spec_addrs = Seq::new(
            k as nat,
            |i: int| data@.subrange(56 + 32 * i, 56 + 32 * i + 32),
        );
        let mut addresses: Vec<Address> = Vec::new();
        let mut i: usize = 0;
        while i < k
            invariant
                i <= k,
                dlen == data@.len(),
                dlen == 56 + 32 * k,
                addresses@.len() == i,
                spec_addrs == Seq::new(
                    k as nat,
                    |j: int| data@.subrange(56 + 32 * j, 56 + 32 * j + 32),
                ),
                forall|j: int| 0 <= j < i ==> (#[trigger] addresses@[j])@ == spec_addrs[j],
            decreases k - i,
        {
            let off = LOOKUP_TABLE_META_SIZE + ADDRESS_LEN * i;
            let a = Address { bytes: copy_range(data, off, off + 32) };
            addresses.push(a);
            i += 1;
        }
        let table = AddressLookupTable {
            meta: LookupTableMeta {
                deactivation_slot,
                last_extended_slot,
                last_extended_slot_start_index,
                authority,
                padding,
            },
            addresses,
        };
        proof {
            match spec_decode_table(data@) {
                Ok(m) => {
                    assert(table@.addresses =~= spec_addrs);
                    assert(m.addresses =~= spec_addrs);
                    assert(m.meta == table@.meta);
                    assert(m == table@);
                },
                Err(_) => {
                    assert(false);
                },
            }
        }
        Ok(table)
    }

    /// Encodes this table into its byte layout.
    pub fn serialize(&self) -> (r: Vec<u8>)
        requires
            self.wf(),
        ensures
            r@ == spec_encode_table(self@),
    {
        let mut out: Vec<u8> = Vec::new();
        out.push(1u8);
        out.push(0u8);
        out.push(0u8);
        out.push(0u8);
        let deact = u64_to_le_vec(self.meta.deactivation_slot);
        push_bytes(&mut out, &deact);
        let last = u64_to_le_vec(self.meta.last_extended_slot);
        push_bytes(&mut out, &last);
        out.push(self.meta.last_extended_slot_start_index);
        match &self.meta.authority {
            Some(a) => {
                out.push(1u8);
                push_bytes(&mut out, &a.bytes);
                proof {
                    crate::bytes::lemma_u16_bytes_fit(self.meta.padding);
                }
                out.push((self.meta.padding & 0xff) as u8);
                out.push(((self.meta.padding >> 8) & 0xff) as u8);
            },
            None => {
                out.push(0u8);
                proof {
                    crate::bytes::lemma_u16_bytes_fit(self.meta.padding);
                }
                out.push((self.meta.padding & 0xff) as u8);
                out.push(((self.meta.padding >> 8) & 0xff) as u8);
                let zeros = Address::zeroed();
                push_bytes(&mut out, &zeros.bytes);
            },
        }
        proof {
            assert((1u32 & 0xff) as u8 == 1u8 && ((1u32 >> 8) & 0xff) as u8 == 0u8 && ((1u32
                >> 16) & 0xff) as u8 == 0u8 && ((1u32 >> 24) & 0xff) as u8 == 0u8)
                by (bit_vector);
            assert(u32_le_bytes(1) =~= seq![1u8, 0u8, 0u8, 0u8]);
            assert(out@ =~= spec_encode_meta(self@.meta));
            assert(self@.addresses.take(0) =~= Seq::<Seq<u8>>::empty());
            assert(out@ =~= spec_encode_meta(self@.meta) + spec_encode_addresses(
                self@.addresses.take(0),
            ));
        }
        let mut i: usize = 0;
        while i < self.addresses.len()
            invariant
                i <= self.addresses@.len(),
                self@.addresses.len() == self.addresses@.len(),
                self@.addresses == self.addresses.deep_view(),
                out@ == spec_encode_meta(self@.meta) + spec_encode_addresses(
                    self@.addresses.take(i as int),
                ),
            decreases self.addresses@.len() - i,
        {
            push_bytes(&mut out, &self.addresses[i].bytes);
            proof {
                let ts = self@.addresses;
                assert(ts.take(i as int + 1).drop_last() =~= ts.take(i as int));
                assert(ts.take(i as int + 1).last() == ts[i as int]);
                assert(out@ =~= spec_encode_meta(self@.meta) + spec_encode_addresses(
                    ts.take(i as int + 1),
                ));
            }
            i += 1;
        }
        proof {
            assert(self@.addresses.take(self@.addresses.len() as int) =~= self@.addresses);
        }
        out
    }
}

} // verus!
