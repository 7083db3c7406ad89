//! Client-side registry snapshots and the account transport they are read
//! through.
//!
//! A snapshot is the immutable, resolved value of one authority's registry:
//! its `Active` entries together with their full member-address lists. It is
//! built from raw account bytes supplied by an [`AccountReader`], which an
//! outside transport implements; nothing is assumed about what that
//! transport returns.

use vstd::prelude::*;
use crate::addr::{clone_addresses, Address, ADDRESS_LEN};
use crate::codec::{decode_registry, DecodeError};
use crate::derivation::{registry_address, spec_registry_address};
use crate::state::{
    discriminator_of, entries_view, spec_discriminator, EntryModel, RegistryAccount,
};
use crate::table::{spec_decode_table, AddressLookupTable, TableModel};

verus! {

/// Model of one resolved table in a snapshot.
pub struct TableSnapshotModel {
    pub discriminator: u64,
    pub lookup_address: Seq<u8>,
    pub addresses: Seq<Seq<u8>>,
}

impl TableSnapshotModel {
    pub open spec fn wf(self) -> bool {
        &&& self.discriminator >= 2
        &&& self.lookup_address.len() == ADDRESS_LEN
        &&& forall|i: int| 0 <= i < self.addresses.len() ==> (#[trigger] self.addresses[i]).len()
            == ADDRESS_LEN
    }
}

/// Model of a registry snapshot.
pub struct RegistrySnapshotModel {
    pub authority: Seq<u8>,
    pub version: u8,
    pub tables: Seq<TableSnapshotModel>,
}

impl RegistrySnapshotModel {
    pub open spec fn wf(self) -> bool {
        &&& self.authority.len() == ADDRESS_LEN
        &&& forall|i: int| 0 <= i < self.tables.len() ==> (#[trigger] self.tables[i]).wf()
    }
}

/// One resolved `Active` table: its registry discriminator, its address,
/// and its full member-address list. Duplicate members are kept: hiding
/// them would misrepresent how full the table is.
#[derive(Debug, PartialEq, Eq)]
pub struct Entry {
    pub discriminator: u64,
    pub lookup_address: Address,
    pub addresses: Vec<Address>,
}

impl View for Entry {
    type V = TableSnapshotModel;

    open spec fn view(&self) -> TableSnapshotModel {
        TableSnapshotModel {
            discriminator: self.discriminator,
            lookup_address: self.lookup_address@,
            addresses: self.addresses.deep_view(),
        }
    }
}

impl Clone for Entry {
    fn clone(&self) -> (r: Self)
        ensures
            r@ == self@,
    {
        Entry {
            discriminator: self.discriminator,
            lookup_address: self.lookup_address.clone(),
            addresses: clone_addresses(&self.addresses),
        }
    }
}

/// The view of a sequence of resolved tables.
pub open spec fn tables_view(s: Seq<Entry>) -> Seq<TableSnapshotModel> {
    Seq::new(s.len(), |i: int| s[i]@)
}

/// A snapshot of one authority's registry: its resolved `Active` tables.
#[derive(Debug, PartialEq, Eq)]
pub struct Registry {
    pub authority: Address,
    pub version: u8,
    pub tables: Vec<Entry>,
}

impl View for Registry {
    type V = RegistrySnapshotModel;

    open spec fn view(&self) -> RegistrySnapshotModel {
        RegistrySnapshotModel {
            authority: self.authority@,
            version: self.version,
            tables: tables_view(self.tables@),
        }
    }
}

impl Clone for Registry {
    fn clone(&self) -> (r: Self)
        ensures
            r@ == self@,
    {
        let mut tables: Vec<Entry> = Vec::new();
        let mut i: usize = 0;
        while i < self.tables.len()
            invariant
                i <= self.tables@.len(),
                tables@.len() == i,
                forall|j: int| 0 <= j < i ==> (#[trigger] tables@[j])@ == self.tables@[j]@,
            decreases self.tables@.len() - i,
        {
            tables.push(self.tables[i].clone());
            i += 1;
        }
        proof {
            assert(tables_view(tables@) =~= tables_view(self.tables@));
        }
        Registry { authority: self.authority.clone(), version: self.version, tables }
    }
}

/// Why a transport failed to read an account.
#[derive(Debug, PartialEq, Eq)]
pub enum AccountReadError {
    /// The account does not exist.
    AccountNotFound,
    /// Any other transport failure, described in words.
    Custom(String),
}

/// Client-level errors.
#[derive(Debug, PartialEq, Eq)]
pub enum LookupRegistryError {
    /// No registry account exists at the derived address.
    RegistryNotFound(Address),
    /// The caller's input does not refer to anything this registry owns.
    InvalidArgument,
    /// The transport failed to read an account.
    AccountReadError(String),
    /// An account's bytes do not hold what its layout requires.
    DecodeError(DecodeError),
    /// Any other failure.
    GeneralError,
}

/// The abstract account transport: fetches raw account bytes by address,
/// singly or batched. Supplied by the surrounding application; nothing is
/// assumed about what it returns.
pub trait AccountReader {
    /// The raw bytes of the account at `address`, if it exists.
    fn get_account(&mut self, address: &Address) -> (r: Result<Vec<u8>, AccountReadError>);

    /// The raw bytes of each listed account, with `None` for a missing one.
    fn get_multiple_accounts(&mut self, addresses: &Vec<Address>) -> (r: Result<
        Vec<Option<Vec<u8>>>,
        AccountReadError,
    >);
}

/// The `Active` entries of `s`, in stored order.
pub open spec fn spec_active(s: Seq<EntryModel>) -> Seq<EntryModel>
    decreases s.len(),
{
    if s.len() == 0 {
        Seq::empty()
    } else if s.last().state.is_active() {
        spec_active(s.drop_last()).push(s.last())
    } else {
        spec_active(s.drop_last())
    }
}

/// Every entry selected by `spec_active` is a well-formed `Active` entry
/// when the source entries are well-formed.
pub proof fn lemma_spec_active_wf(s: Seq<EntryModel>)
    requires
        forall|i: int| 0 <= i < s.len() ==> (#[trigger] s[i]).wf(),
    ensures
        forall|i: int|
            0 <= i < spec_active(s).len() ==> (#[trigger] spec_active(s)[i]).wf() && spec_active(
                s,
            )[i].state.is_active(),
    decreases s.len(),
{
    if s.len() > 0 {
        assert(forall|i: int| 0 <= i < s.drop_last().len() ==> s.drop_last()[i] == s[i]);
        lemma_spec_active_wf(s.drop_last());
    }
}

/// The addresses of a sequence of entries, in order.
pub open spec fn addresses_of(s: Seq<EntryModel>) -> Seq<Seq<u8>> {
    Seq::new(s.len(), |i: int| s[i].table)
}

/// The `Active` entries of the registry, in stored order.
pub fn active_entries(registry: &RegistryAccount) -> (r: Vec<crate::state::RegistryEntry>)
    ensures
        entries_view(r@) == spec_active(registry@.tables),
{
    let mut act: Vec<crate::state::RegistryEntry> = Vec::new();
    let mut i: usize = 0;
    proof {
        assert(registry@.tables.take(0) =~= Seq::<EntryModel>::empty());
        assert(entries_view(act@) =~= spec_active(registry@.tables.take(0)));
    }
    while i < registry.tables.len()
        invariant
            i <= registry.tables@.len(),
            registry@.tables.len() == registry.tables@.len(),
            entries_view(act@) == spec_active(registry@.tables.take(i as int)),
        decreases registry.tables@.len() - i,
    {
        let ghost ts = registry@.tables;
        proof {
            assert(ts.take(i as int + 1).drop_last() =~= ts.take(i as int));
            assert(ts.take(i as int + 1).last() == ts[i as int]);
        }
        let active = match registry.tables[i].state {
            crate::state::EntryState::Active(_) => true,
            _ => false,
        };
        if active {
            let ghost before = entries_view(act@);
            act.push(registry.tables[i].clone());
            proof {
                assert(entries_view(act@) =~= before.push(ts[i as int]));
            }
        }
        i += 1;
    }
    proof {
        assert(registry@.tables.take(registry@.tables.len() as int) =~= registry@.tables);
    }
    act
}

/// The table addresses of the registry's `Active` entries, in stored order.
pub fn active_table_addresses(registry: &RegistryAccount) -> (r: Vec<Address>)
    ensures
        r.deep_view() == addresses_of(spec_active(registry@.tables)),
{
    let act = active_entries(registry);
    let mut r: Vec<Address> = Vec::new();
    let mut i: usize = 0;
    while i < act.len()
        invariant
            i <= act@.len(),
            r@.len() == i,
            entries_view(act@) == spec_active(registry@.tables),
            forall|j: int| 0 <= j < i ==> (#[trigger] r@[j])@ == entries_view(act@)[j].table,
        decreases act@.len() - i,
    {
        r.push(act[i].table.clone());
        i += 1;
    }
    proof {
        assert(r.deep_view() =~= addresses_of(spec_active(registry@.tables)));
    }
    r
}

/// The tables resolved from the `Active` entries and the fetched account
/// bytes, pairing entry `i` with blob `i` over the first `k` pairs; a
/// missing or undecodable blob contributes nothing.
pub open spec fn spec_resolve_tables(
    act: Seq<EntryModel>,
    accs: Seq<Option<Seq<u8>>>,
    k: int,
) -> Seq<TableSnapshotModel>
    decreases k,
{
    if k <= 0 {
        Seq::empty()
    } else {
        let prefix = spec_resolve_tables(act, accs, k - 1);
        match accs[k - 1] {
            Some(bytes) => match spec_decode_table(bytes) {
                Ok(t) => prefix.push(
                    TableSnapshotModel {
                        discriminator: spec_discriminator(act[k - 1].state),
                        lookup_address: act[k - 1].table,
                        addresses: t.addresses,
                    },
                ),
                Err(_) => prefix,
            },
            None => prefix,
        }
    }
}

/// The snapshot resolved for `authority` from a decoded registry and the
/// fetched table account bytes.
pub open spec fn spec_resolve(
    authority: Seq<u8>,
    version: u8,
    act: Seq<EntryModel>,
    accs: Seq<Option<Seq<u8>>>,
) -> RegistrySnapshotModel {
    let k = if act.len() <= accs.len() {
        act.len() as int
    } else {
        accs.len() as int
    };
    RegistrySnapshotModel { authority, version, tables: spec_resolve_tables(act, accs, k) }
}

/// Builds the snapshot for `authority` from the decoded registry and the
/// fetched table account bytes. Entries whose table account is missing or
/// fails to parse are dropped silently; this partial degradation is the
/// documented behavior, not an error.
pub fn resolve_snapshot(
    registry: &RegistryAccount,
    accounts: &Vec<Option<Vec<u8>>>,
    authority: &Address,
) -> (r: Registry)
    requires
        registry.wf(),
        authority.wf(),
    ensures
        r@ == spec_resolve(
            authority@,
            registry@.version,
            spec_active(registry@.tables),
            accounts.deep_view(),
        ),
        r@.wf(),
{
    let act = active_entries(registry);
    proof {
        lemma_spec_active_wf(registry@.tables);
    }
    let n = if act.len() <= accounts.len() {
        act.len()
    } else {
        accounts.len()
    };
    let mut tables: Vec<Entry> = Vec::new();
    let mut i: usize = 0;
    while i < n
        invariant
            i <= n,
            n == (if act@.len() <= accounts@.len() {
                act@.len() as int
            } else {
                accounts@.len() as int
            }),
            entries_view(act@) == spec_active(registry@.tables),
            registry@.wf(),
            tables_view(tables@) == spec_resolve_tables(
                entries_view(act@),
                accounts.deep_view(),
                i as int,
            ),
            forall|j: int| 0 <= j < tables@.len() ==> (#[trigger] tables@[j])@.wf(),
        decreases n - i,
    {
        proof {
            lemma_spec_active_wf(registry@.tables);
        }
        match &accounts[i] {
            Some(bytes) => {
                proof {
                    assert(accounts.deep_view()[i as int] == Some(bytes.deep_view()));
                    assert(bytes.deep_view() =~= bytes@);
                }
                match AddressLookupTable::deserialize(bytes) {
                    Ok(t) => {
                        let ghost before = tables_view(tables@);
                        let entry = Entry {
                            discriminator: discriminator_of(act[i].state),
                            lookup_address: act[i].table.clone(),
                            addresses: t.addresses,
                        };
                        tables.push(entry);
                        proof {
                            assert(tables_view(tables@) =~= before.push(entry@));
                        }
                    },
                    Err(_) => {
                    },
                }
            },
            None => {
                proof {
                    assert(accounts.deep_view()[i as int] == None::<Seq<u8>>);
                }
            },
        }
        i += 1;
    }
    let r = Registry { authority: authority.clone(), version: registry.version, tables };
    proof {
        assert(r@ == spec_resolve(
            authority@,
            registry@.version,
            spec_active(registry@.tables),
            accounts.deep_view(),
        ));
    }
    r
}

impl Registry {
    /// Fetches and resolves the snapshot of `authority`'s registry through
    /// `rpc`: reads the registry account at its derived address, decodes
    /// it, batch-fetches the `Active` entries' table accounts in one call,
    /// and resolves them. A missing registry account is
    /// `RegistryNotFound`, carrying the derived registry address; a failed
    /// derivation is the generic failure before anything is fetched; other
    /// transport and decode failures propagate.
    pub fn fetch<R: AccountReader>(rpc: &mut R, authority: &Address) -> (r: Result<
        Registry,
        LookupRegistryError,
    >)
        requires
            authority.wf(),
        ensures
            match r {
                Ok(reg) => reg@.wf() && reg@.authority == authority@,
                Err(e) => match e {
                    LookupRegistryError::RegistryNotFound(a) => spec_registry_address(authority@)
                        == Some(a@),
                    _ => true,
                },
            },
            spec_registry_address(authority@) == None::<Seq<u8>> ==> r == Err::<
                Registry,
                LookupRegistryError,
            >(LookupRegistryError::GeneralError),
    {
        let reg_addr = match registry_address(authority) {
            Some(a) => a,
            None => {
                return Err(LookupRegistryError::GeneralError);
            },
        };
        let data = match rpc.get_account(&reg_addr) {
            Ok(d) => d,
            Err(AccountReadError::AccountNotFound) => {
                return Err(LookupRegistryError::RegistryNotFound(reg_addr));
            },
            Err(AccountReadError::Custom(msg)) => {
                return Err(LookupRegistryError::AccountReadError(msg));
            },
        };
        let registry = match decode_registry(&data) {
            Ok(x) => x,
            Err(e) => {
                return Err(LookupRegistryError::DecodeError(e));
            },
        };
        let table_addresses = active_table_addresses(&registry);
        let accounts = match rpc.get_multiple_accounts(&table_addresses) {
            Ok(a) => a,
            Err(AccountReadError::AccountNotFound) => {
                return Err(LookupRegistryError::GeneralError);
            },
            Err(AccountReadError::Custom(msg)) => {
                return Err(LookupRegistryError::AccountReadError(msg));
            },
        };
        Ok(resolve_snapshot(&registry, &accounts, authority))
    }
}

} // verus!
