//! The registry state machine: one authority's directory of lookup tables.
//!
//! A registry holds a growable sequence of slots. Each slot is `Empty`,
//! `Deactivated`, or `Active(category)`; `len` counts the non-`Empty` slots
//! and `capacity` the allocated slots. All mutations are expressed as pure
//! transitions from one registry value to the next, so they can be checked
//! independently of the environment that applies them.

use vstd::prelude::*;
use crate::addr::{zero_address, Address, ADDRESS_LEN};
use crate::derivation::{derive_lookup_table_address, spec_derive_lookup_table_address};

verus! {

/// Wire discriminator of a vacant slot.
pub const EMPTY_DISCRIMINATOR: u64 = 0;

/// Wire discriminator of a deactivated table awaiting closure.
pub const DEACTIVATED_DISCRIMINATOR: u64 = 1;

/// Largest number of entries a registry account may hold: a fixed total
/// account budget of 10240 bytes over fixed-size 40-byte entry records.
pub const MAX_REGISTRY_ENTRIES: usize = 254;

/// Lifecycle state of one registry slot. On the wire, `Empty` is
/// discriminator 0, `Deactivated` is 1, and `Active(c)` is its category
/// `c >= 2`.
#[derive(Clone, Copy, Debug, PartialEq, Eq, Structural)]
pub enum EntryState {
    Empty,
    Deactivated,
    Active(u64),
}

impl EntryState {
    /// Active categories never reuse the two reserved wire discriminators.
    pub open spec fn wf(self) -> bool {
        match self {
            EntryState::Active(c) => c >= 2,
            _ => true,
        }
    }

    pub open spec fn is_empty_slot(self) -> bool {
        self == EntryState::Empty
    }

    pub open spec fn is_active(self) -> bool {
        match self {
            EntryState::Active(_) => true,
            _ => false,
        }
    }
}

/// The wire discriminator that encodes `s`.
pub open spec fn spec_discriminator(s: EntryState) -> u64 {
    match s {
        EntryState::Empty => EMPTY_DISCRIMINATOR,
        EntryState::Deactivated => DEACTIVATED_DISCRIMINATOR,
        EntryState::Active(c) => c,
    }
}

/// The state encoded by wire discriminator `d`.
pub open spec fn spec_state_of(d: u64) -> EntryState {
    if d == EMPTY_DISCRIMINATOR {
        EntryState::Empty
    } else if d == DEACTIVATED_DISCRIMINATOR {
        EntryState::Deactivated
    } else {
        EntryState::Active(d)
    }
}

/// Decoding any wire discriminator yields a well-formed state, and decoding
/// the encoding of a well-formed state recovers it.
pub proof fn lemma_state_wire_roundtrip(s: EntryState, d: u64)
    ensures
        spec_state_of(d).wf(),
        s.wf() ==> spec_state_of(spec_discriminator(s)) == s,
{
}

/// The wire discriminator of `s`.
pub fn discriminator_of(s: EntryState) -> (r: u64)
    ensures
        r == spec_discriminator(s),
{
    match s {
        EntryState::Empty => EMPTY_DISCRIMINATOR,
        EntryState::Deactivated => DEACTIVATED_DISCRIMINATOR,
        EntryState::Active(c) => c,
    }
}

/// The state encoded by wire discriminator `d`.
pub fn state_of_discriminator(d: u64) -> (r: EntryState)
    ensures
        r == spec_state_of(d),
        r.wf(),
{
    if d == EMPTY_DISCRIMINATOR {
        EntryState::Empty
    } else if d == DEACTIVATED_DISCRIMINATOR {
        EntryState::Deactivated
    } else {
        EntryState::Active(d)
    }
}

/// Mathematical model of one registry slot.
pub struct EntryModel {
    pub state: EntryState,
    pub table: Seq<u8>,
}

impl EntryModel {
    pub open spec fn wf(self) -> bool {
        self.state.wf() && self.table.len() == ADDRESS_LEN
    }
}

/// One slot of the registry: a lifecycle state and the table it points at.
#[derive(Debug, PartialEq, Eq)]
pub struct RegistryEntry {
    pub state: EntryState,
    pub table: Address,
}

impl View for RegistryEntry {
    type V = EntryModel;

    open spec fn view(&self) -> EntryModel {
        EntryModel { state: self.state, table: self.table@ }
    }
}

impl Clone for RegistryEntry {
    fn clone(&self) -> (r: Self)
        ensures
            r@ == self@,
    {
        RegistryEntry { state: self.state, table: self.table.clone() }
    }
}

/// The model view of a sequence of slots.
pub open spec fn entries_view(s: Seq<RegistryEntry>) -> Seq<EntryModel> {
    Seq::new(s.len(), |i: int| s[i]@)
}

/// Mathematical model of a registry account.
pub struct RegistryModel {
    pub authority: Seq<u8>,
    pub version: u8,
    pub seed: u8,
    pub len: u8,
    pub capacity: u8,
    pub last_created_slot: u64,
    pub tables: Seq<EntryModel>,
}

/// How many slots of `s` are not `Empty`.
pub open spec fn count_nonempty(s: Seq<EntryModel>) -> nat
    decreases s.len(),
{
    if s.len() == 0 {
        0
    } else {
        count_nonempty(s.drop_last()) + entry_contrib(s.last())
    }
}

/// What one slot contributes to `len`: 1 unless it is `Empty`.
pub open spec fn entry_contrib(e: EntryModel) -> nat {
    if e.state.is_empty_slot() {
        0nat
    } else {
        1nat
    }
}

impl RegistryModel {
    /// Structural invariant: `capacity` counts the allocated slots, `len` the
    /// non-`Empty` ones, at most 254 slots exist, and every slot is
    /// well-formed.
    pub open spec fn wf(self) -> bool {
        &&& self.authority.len() == ADDRESS_LEN
        &&& self.tables.len() == self.capacity as nat
        &&& self.capacity as nat <= MAX_REGISTRY_ENTRIES as nat
        &&& self.len as nat == count_nonempty(self.tables)
        &&& forall|i: int| 0 <= i < self.tables.len() ==> (#[trigger] self.tables[i]).wf()
    }
}

/// A registry account: the authoritative directory one authority owns.
#[derive(Debug, PartialEq, Eq)]
pub struct RegistryAccount {
    pub authority: Address,
    pub version: u8,
    pub seed: u8,
    pub len: u8,
    pub capacity: u8,
    pub last_created_slot: u64,
    pub tables: Vec<RegistryEntry>,
}

impl View for RegistryAccount {
    type V = RegistryModel;

    open spec fn view(&self) -> RegistryModel {
        RegistryModel {
            authority: self.authority@,
            version: self.version,
            seed: self.seed,
            len: self.len,
            capacity: self.capacity,
            last_created_slot: self.last_created_slot,
            tables: entries_view(self.tables@),
        }
    }
}

impl Clone for RegistryAccount {
    fn clone(&self) -> (r: Self)
        ensures
            r@ == self@,
    {
        let mut tables: Vec<RegistryEntry> = Vec::new();
        let mut i: usize = 0;
        while i < self.tables.len()
            invariant
                i <= self.tables@.len(),
                tables@.len() == i,
                forall|j: int| 0 <= j < i ==> (#[trigger] tables@[j])@ == self.tables@[j]@,
            decreases self.tables@.len() - i,
        {
            tables.push(self.tables[i].clone());
            i += 1;
        }
        proof {
            assert(entries_view(tables@) =~= entries_view(self.tables@));
        }
        RegistryAccount {
            authority: self.authority.clone(),
            version: self.version,
            seed: self.seed,
            len: self.len,
            capacity: self.capacity,
            last_created_slot: self.last_created_slot,
            tables,
        }
    }
}

/// Counting non-`Empty` slots never exceeds the slot count.
pub proof fn lemma_count_nonempty_le_len(s: Seq<EntryModel>)
    ensures
        count_nonempty(s) <= s.len(),
    decreases s.len(),
{
    if s.len() > 0 {
        lemma_count_nonempty_le_len(s.drop_last());
    }
}

/// Appending a slot adds its contribution to the count.
pub proof fn lemma_count_nonempty_push(s: Seq<EntryModel>, e: EntryModel)
    ensures
        count_nonempty(s.push(e)) == count_nonempty(s) + entry_contrib(e),
{
    assert(s.push(e).drop_last() =~= s);
}

/// Replacing slot `i` adjusts the count by the contribution difference.
pub proof fn lemma_count_nonempty_update(s: Seq<EntryModel>, i: int, e: EntryModel)
    requires
        0 <= i < s.len(),
    ensures
        count_nonempty(s.update(i, e)) + entry_contrib(s[i]) == count_nonempty(s) + entry_contrib(
            e,
        ),
    decreases s.len(),
{
    let t = s.update(i, e);
    if i == s.len() - 1 {
        assert(t.drop_last() =~= s.drop_last());
        assert(t.last() == e);
    } else {
        assert(t.drop_last() =~= s.drop_last().update(i, e));
        assert(t.last() == s.last());
        lemma_count_nonempty_update(s.drop_last(), i, e);
    }
}

/// A non-`Empty` slot forces the count to be positive.
pub proof fn lemma_count_nonempty_at_least_one(s: Seq<EntryModel>, i: int)
    requires
        0 <= i < s.len(),
        !s[i].state.is_empty_slot(),
    ensures
        count_nonempty(s) >= 1,
    decreases s.len(),
{
    if i < s.len() - 1 {
        assert(s.drop_last()[i] == s[i]);
        lemma_count_nonempty_at_least_one(s.drop_last(), i);
    }
}

/// When no slot is `Empty`, the count equals the slot count.
pub proof fn lemma_count_nonempty_full(s: Seq<EntryModel>)
    requires
        forall|i: int| 0 <= i < s.len() ==> !(#[trigger] s[i]).state.is_empty_slot(),
    ensures
        count_nonempty(s) == s.len(),
    decreases s.len(),
{
    if s.len() > 0 {
        assert(forall|i: int|
            0 <= i < s.drop_last().len() ==> (#[trigger] s.drop_last()[i]) == s[i]);
        lemma_count_nonempty_full(s.drop_last());
    }
}

/// Index of the first slot that points at `addr`, if any.
pub open spec fn spec_find_entry(s: Seq<EntryModel>, addr: Seq<u8>) -> Option<int>
    decreases s.len(),
{
    if s.len() == 0 {
        None
    } else if s[0].table == addr {
        Some(0)
    } else {
        match spec_find_entry(s.drop_first(), addr) {
            Some(i) => Some(i + 1),
            None => None,
        }
    }
}

/// Index of the first `Empty` slot, if any.
pub open spec fn spec_find_empty(s: Seq<EntryModel>) -> Option<int>
    decreases s.len(),
{
    if s.len() == 0 {
        None
    } else if s[0].state.is_empty_slot() {
        Some(0)
    } else {
        match spec_find_empty(s.drop_first()) {
            Some(i) => Some(i + 1),
            None => None,
        }
    }
}

/// What `spec_find_entry` finds is the first matching slot.
pub proof fn lemma_find_entry_properties(s: Seq<EntryModel>, addr: Seq<u8>)
    ensures
        match spec_find_entry(s, addr) {
            Some(i) => 0 <= i < s.len() && s[i].table == addr && forall|j: int|
                0 <= j < i ==> (#[trigger] s[j]).table != addr,
            None => forall|j: int| 0 <= j < s.len() ==> (#[trigger] s[j]).table != addr,
        },
    decreases s.len(),
{
    if s.len() > 0 && s[0].table != addr {
        lemma_find_entry_properties(s.drop_first(), addr);
        match spec_find_entry(s.drop_first(), addr) {
            Some(i) => {
                assert forall|j: int| 0 <= j < i + 1 implies (#[trigger] s[j]).table != addr by {
                    if j > 0 {
                        assert(s.drop_first()[j - 1] == s[j]);
                    }
                }
            },
            None => {
                assert forall|j: int| 0 <= j < s.len() implies (#[trigger] s[j]).table != addr by {
                    if j > 0 {
                        assert(s.drop_first()[j - 1] == s[j]);
                    }
                }
            },
        }
    }
}

/// The first matching index determines `spec_find_entry`.
pub proof fn lemma_find_entry_exact(s: Seq<EntryModel>, addr: Seq<u8>, i: int)
    requires
        0 <= i < s.len(),
        s[i].table == addr,
        forall|j: int| 0 <= j < i ==> (#[trigger] s[j]).table != addr,
    ensures
        spec_find_entry(s, addr) == Some(i),
    decreases s.len(),
{
    if i > 0 {
        assert(s.drop_first()[i - 1] == s[i]);
        assert forall|j: int| 0 <= j < i - 1 implies (#[trigger] s.drop_first()[j]).table != addr
            by {
            assert(s.drop_first()[j] == s[j + 1]);
        }
        lemma_find_entry_exact(s.drop_first(), addr, i - 1);
    }
}

/// What `spec_find_empty` finds is the first `Empty` slot.
pub proof fn lemma_find_empty_properties(s: Seq<EntryModel>)
    ensures
        match spec_find_empty(s) {
            Some(i) => 0 <= i < s.len() && s[i].state.is_empty_slot() && forall|j: int|
                0 <= j < i ==> !(#[trigger] s[j]).state.is_empty_slot(),
            None => forall|j: int| 0 <= j < s.len() ==> !(#[trigger] s[j]).state.is_empty_slot(),
        },
    decreases s.len(),
{
    if s.len() > 0 && !s[0].state.is_empty_slot() {
        lemma_find_empty_properties(s.drop_first());
        match spec_find_empty(s.drop_first()) {
            Some(i) => {
                assert forall|j: int| 0 <= j < i + 1 implies !(#[trigger] s[j]).state.is_empty_slot()
                    by {
                    if j > 0 {
                        assert(s.drop_first()[j - 1] == s[j]);
                    }
                }
            },
            None => {
                assert forall|j: int| 0 <= j < s.len() implies !(#[trigger] s[j]).state.is_empty_slot()
                    by {
                    if j > 0 {
                        assert(s.drop_first()[j - 1] == s[j]);
                    }
                }
            },
        }
    }
}

/// The first `Empty` index determines `spec_find_empty`.
pub proof fn lemma_find_empty_exact(s: Seq<EntryModel>, i: int)
    requires
        0 <= i < s.len(),
        s[i].state.is_empty_slot(),
        forall|j: int| 0 <= j < i ==> !(#[trigger] s[j]).state.is_empty_slot(),
    ensures
        spec_find_empty(s) == Some(i),
    decreases s.len(),
{
    if i > 0 {
        assert(s.drop_first()[i - 1] == s[i]);
        assert forall|j: int| 0 <= j < i - 1 implies !(#[trigger] s.drop_first()[j]).state.is_empty_slot()
            by {
            assert(s.drop_first()[j] == s[j + 1]);
        }
        lemma_find_empty_exact(s.drop_first(), i - 1);
    }
}

/// Errors the registry state machine can raise.
#[derive(Clone, Copy, Debug, PartialEq, Eq, Structural)]
pub enum ErrorCode {
    /// A discriminator used is invalid.
    InvalidDiscriminator,
    /// The slot provided cannot be earlier than the last slot used.
    InvalidSlot,
    /// The lookup table provided is not (or cannot be) part of the registry.
    InvalidLookupTable,
    /// The registry already holds the largest number of entries it can.
    TooManyEntries,
    /// The registry is in a state the operation does not allow.
    InvalidState,
    /// A registry already exists for this authority.
    AlreadyExists,
}

/// External effect the caller must carry out after a removal step.
#[derive(Clone, Copy, Debug, PartialEq, Eq, Structural)]
pub enum RemoveAction {
    /// Deactivate the table on chain; the slot is now `Deactivated`.
    Deactivate,
    /// Close the table account on chain; the slot is now `Empty`.
    Close,
}

/// The fresh registry created for `authority`.
pub open spec fn spec_init_registry(authority: Seq<u8>, seed: u8, current_slot: u64)
    -> RegistryModel {
    RegistryModel {
        authority,
        version: 0,
        seed,
        len: 0,
        capacity: 0,
        last_created_slot: current_slot,
        tables: Seq::empty(),
    }
}

/// The slot written for a newly created table: the constant "next" category,
/// one past the reserved `Deactivated` discriminator.
pub open spec fn new_active_entry(table: Seq<u8>) -> EntryModel {
    EntryModel { state: EntryState::Active((DEACTIVATED_DISCRIMINATOR + 1) as u64), table }
}

/// Transition for creating a table: reuse the first `Empty` slot if one
/// exists (capacity unchanged), otherwise grow by exactly one slot.
pub open spec fn spec_apply_create(r: RegistryModel, recent_slot: u64, table: Seq<u8>) -> Result<
    RegistryModel,
    ErrorCode,
> {
    if r.len as nat >= MAX_REGISTRY_ENTRIES as nat {
        Err(ErrorCode::TooManyEntries)
    } else {
        match spec_find_empty(r.tables) {
            Some(i) => Ok(
                RegistryModel {
                    authority: r.authority,
                    version: r.version,
                    seed: r.seed,
                    len: (r.len + 1) as u8,
                    capacity: r.capacity,
                    last_created_slot: recent_slot,
                    tables: r.tables.update(i, new_active_entry(table)),
                },
            ),
            None => Ok(
                RegistryModel {
                    authority: r.authority,
                    version: r.version,
                    seed: r.seed,
                    len: (r.len + 1) as u8,
                    capacity: (r.capacity + 1) as u8,
                    last_created_slot: recent_slot,
                    tables: r.tables.push(new_active_entry(table)),
                },
            ),
        }
    }
}

/// Transition for validating an append: the target entry must exist and be
/// `Active`. The registry itself is unchanged by an append.
pub open spec fn spec_append(r: RegistryModel, addr: Seq<u8>) -> Result<(), ErrorCode> {
    match spec_find_entry(r.tables, addr) {
        None => Err(ErrorCode::InvalidLookupTable),
        Some(i) => if r.tables[i].state.is_active() {
            Ok(())
        } else {
            Err(ErrorCode::InvalidDiscriminator)
        },
    }
}

/// Transition for the two-phase removal: an `Active` entry becomes
/// `Deactivated` (`len` unchanged), a `Deactivated` entry becomes `Empty`
/// with its address reset (`len` decremented). A slot should never be found
/// `Empty` through its address.
pub open spec fn spec_remove(r: RegistryModel, addr: Seq<u8>) -> Result<
    (RegistryModel, RemoveAction),
    ErrorCode,
> {
    match spec_find_entry(r.tables, addr) {
        None => Err(ErrorCode::InvalidLookupTable),
        Some(i) => match r.tables[i].state {
            EntryState::Empty => Err(ErrorCode::InvalidState),
            EntryState::Deactivated => Ok(
                (
                    RegistryModel {
                        authority: r.authority,
                        version: r.version,
                        seed: r.seed,
                        len: (r.len - 1) as u8,
                        capacity: r.capacity,
                        last_created_slot: r.last_created_slot,
                        tables: r.tables.update(
                            i,
                            EntryModel { state: EntryState::Empty, table: zero_address() },
                        ),
                    },
                    RemoveAction::Close,
                ),
            ),
            EntryState::Active(_) => Ok(
                (
                    RegistryModel {
                        authority: r.authority,
                        version: r.version,
                        seed: r.seed,
                        len: r.len,
                        capacity: r.capacity,
                        last_created_slot: r.last_created_slot,
                        tables: r.tables.update(
                            i,
                            EntryModel { state: EntryState::Deactivated, table: r.tables[i].table },
                        ),
                    },
                    RemoveAction::Deactivate,
                ),
            ),
        },
    }
}

impl RegistryAccount {
    pub open spec fn wf(&self) -> bool {
        self@.wf()
    }

    /// First entry pointing at `address`, as a slot index.
    pub fn find_entry(&self, address: &Address) -> (r: Result<usize, ErrorCode>)
        ensures
            match r {
                Ok(i) => spec_find_entry(self@.tables, address@) == Some(i as int),
                Err(e) => e == ErrorCode::InvalidLookupTable && spec_find_entry(
                    self@.tables,
                    address@,
                ) == None::<int>,
            },
    {
        let mut i: usize = 0;
        while i < self.tables.len()
            invariant
                i <= self.tables@.len(),
                forall|j: int| 0 <= j < i ==> (#[trigger] self@.tables[j]).table != address@,
            decreases self.tables@.len() - i,
        {
            if self.tables[i].table.eq_addr(address) {
                proof {
                    assert(self@.tables[i as int].table == address@);
                    lemma_find_entry_exact(self@.tables, address@, i as int);
                }
                return Ok(i);
            }
            proof {
                assert(self@.tables[i as int].table != address@);
            }
            i += 1;
        }
        proof {
            lemma_find_entry_properties(self@.tables, address@);
        }
        Err(ErrorCode::InvalidLookupTable)
    }

    /// First `Empty` slot, as a slot index.
    pub fn find_empty_entry(&self) -> (r: Result<usize, ErrorCode>)
        ensures
            match r {
                Ok(i) => spec_find_empty(self@.tables) == Some(i as int),
                Err(e) => e == ErrorCode::InvalidLookupTable && spec_find_empty(self@.tables)
                    == None::<int>,
            },
    {
        let mut i: usize = 0;
        while i < self.tables.len()
            invariant
                i <= self.tables@.len(),
                forall|j: int| 0 <= j < i ==> !(#[trigger] self@.tables[j]).state.is_empty_slot(),
            decreases self.tables@.len() - i,
        {
            let vacant = match self.tables[i].state {
                EntryState::Empty => true,
                _ => false,
            };
            if vacant {
                proof {
                    assert(self@.tables[i as int].state.is_empty_slot());
                    lemma_find_empty_exact(self@.tables, i as int);
                }
                return Ok(i);
            }
            proof {
                assert(!self@.tables[i as int].state.is_empty_slot());
            }
            i += 1;
        }
        proof {
            lemma_find_empty_properties(self@.tables);
        }
        Err(ErrorCode::InvalidLookupTable)
    }
}

/// Creates the registry for `authority`; fails if one already exists.
pub fn init_registry_account(
    existing: Option<&RegistryAccount>,
    authority: &Address,
    seed: u8,
    current_slot: u64,
) -> (r: Result<RegistryAccount, ErrorCode>)
    requires
        authority.wf(),
    ensures
        match r {
            Ok(reg) => (existing matches None) && reg@ == spec_init_registry(
                authority@,
                seed,
                current_slot,
            ) && reg@.wf(),
            Err(e) => e == ErrorCode::AlreadyExists && (existing matches Some(_)),
        },
{
    match existing {
        Some(_) => Err(ErrorCode::AlreadyExists),
        None => {
            let reg = RegistryAccount {
                authority: authority.clone(),
                version: 0,
                seed,
                len: 0,
                capacity: 0,
                last_created_slot: current_slot,
                tables: Vec::new(),
            };
            proof {
                assert(entries_view(reg.tables@) =~= Seq::<EntryModel>::empty());
                assert(reg@ == spec_init_registry(authority@, seed, current_slot));
            }
            Ok(reg)
        },
    }
}

/// Applies the slot assignment for a newly created table (the purely local
/// part of table creation, once the created table's address is known).
pub fn apply_create_lookup_table(registry: &RegistryAccount, recent_slot: u64, table: &Address)
    -> (r: Result<RegistryAccount, ErrorCode>)
    requires
        registry.wf(),
        table.wf(),
    ensures
        match r {
            Ok(reg) => spec_apply_create(registry@, recent_slot, table@) == Ok::<
                RegistryModel,
                ErrorCode,
            >(reg@) && reg@.wf(),
            Err(e) => spec_apply_create(registry@, recent_slot, table@) == Err::<
                RegistryModel,
                ErrorCode,
            >(e),
        },
{
    if registry.len as usize >= MAX_REGISTRY_ENTRIES {
        return Err(ErrorCode::TooManyEntries);
    }
    let discriminator = DEACTIVATED_DISCRIMINATOR + 1;
    if discriminator <= DEACTIVATED_DISCRIMINATOR {
        return Err(ErrorCode::InvalidDiscriminator);
    }
    let mut reg = registry.clone();
    reg.last_created_slot = recent_slot;
    let entry = RegistryEntry {
        state: EntryState::Active(discriminator),
        table: table.clone(),
    };
    proof {
        assert(entry@ == new_active_entry(table@));
    }
    match registry.find_empty_entry() {
        Ok(i) => {
            proof {
                lemma_find_empty_properties(registry@.tables);
                lemma_count_nonempty_update(registry@.tables, i as int, entry@);
            }
            reg.tables.set(i, entry);
            reg.len = reg.len + 1;
            proof {
                assert(entries_view(reg.tables@) =~= registry@.tables.update(i as int, entry@));
                assert(reg@.wf()) by {
                    assert(forall|k: int|
                        0 <= k < reg@.tables.len() ==> (#[trigger] reg@.tables[k]).wf());
                };
            }
            Ok(reg)
        },
        Err(_) => {
            proof {
                lemma_find_empty_properties(registry@.tables);
                lemma_count_nonempty_full(registry@.tables);
                lemma_count_nonempty_push(registry@.tables, entry@);
            }
            reg.tables.push(entry);
            reg.len = reg.len + 1;
            reg.capacity = reg.capacity + 1;
            proof {
                assert(entries_view(reg.tables@) =~= registry@.tables.push(
                    new_active_entry(table@),
                ));
                assert(reg@.wf()) by {
                    assert(forall|k: int|
                        0 <= k < reg@.tables.len() ==> (#[trigger] reg@.tables[k]).wf());
                };
            }
            Ok(reg)
        },
    }
}

/// Creates a table in the registry: the created table's address must match
/// the deterministic derivation from the authority and the reference slot,
/// then an `Active` slot is assigned as in `spec_apply_create`.
pub fn create_lookup_table(registry: &RegistryAccount, recent_slot: u64, table: &Address) -> (r:
    Result<RegistryAccount, ErrorCode>)
    requires
        registry.wf(),
        table.wf(),
    ensures
        ({
            let derived = spec_derive_lookup_table_address(registry@.authority, recent_slot);
            if registry@.len as nat >= MAX_REGISTRY_ENTRIES as nat {
                r == Err::<RegistryAccount, ErrorCode>(ErrorCode::TooManyEntries)
            } else if derived != Some(table@) {
                r == Err::<RegistryAccount, ErrorCode>(ErrorCode::InvalidLookupTable)
            } else {
                match r {
                    Ok(reg) => spec_apply_create(registry@, recent_slot, table@) == Ok::<
                        RegistryModel,
                        ErrorCode,
                    >(reg@) && reg@.wf(),
                    Err(_) => false,
                }
            }
        }),
{
    if registry.len as usize >= MAX_REGISTRY_ENTRIES {
        return Err(ErrorCode::TooManyEntries);
    }
    let derived = derive_lookup_table_address(&registry.authority, recent_slot);
    match derived {
        Some(expected) => {
            if !expected.eq_addr(table) {
                return Err(ErrorCode::InvalidLookupTable);
            }
            apply_create_lookup_table(registry, recent_slot, table)
        },
        None => Err(ErrorCode::InvalidLookupTable),
    }
}

/// Validates an append: the entry must exist and be `Active`. The unique new
/// addresses themselves are forwarded to the external table, so the registry
/// itself does not change.
pub fn append_to_lookup_table(registry: &RegistryAccount, table: &Address) -> (r: Result<
    (),
    ErrorCode,
>)
    requires
        registry.wf(),
    ensures
        r == spec_append(registry@, table@),
{
    let i = match registry.find_entry(table) {
        Ok(i) => i,
        Err(e) => {
            return Err(e);
        },
    };
    proof {
        lemma_find_entry_properties(registry@.tables, table@);
    }
    let active = match registry.tables[i].state {
        EntryState::Active(_) => true,
        _ => false,
    };
    if active {
        Ok(())
    } else {
        Err(ErrorCode::InvalidDiscriminator)
    }
}

/// One step of the two-phase removal, returning the new registry and the
/// external action to perform.
pub fn remove_lookup_table(registry: &RegistryAccount, table: &Address) -> (r: Result<
    (RegistryAccount, RemoveAction),
    ErrorCode,
>)
    requires
        registry.wf(),
    ensures
        match r {
            Ok((reg, action)) => spec_remove(registry@, table@) == Ok::<
                (RegistryModel, RemoveAction),
                ErrorCode,
            >((reg@, action)) && reg@.wf(),
            Err(e) => spec_remove(registry@, table@) == Err::<
                (RegistryModel, RemoveAction),
                ErrorCode,
            >(e),
        },
{
    let i = match registry.find_entry(table) {
        Ok(i) => i,
        Err(e) => {
            return Err(e);
        },
    };
    proof {
        lemma_find_entry_properties(registry@.tables, table@);
    }
    let mut reg = registry.clone();
    match registry.tables[i].state {
        EntryState::Empty => Err(ErrorCode::InvalidState),
        EntryState::Deactivated => {
            let entry = RegistryEntry { state: EntryState::Empty, table: Address::zeroed() };
            proof {
                lemma_count_nonempty_at_least_one(registry@.tables, i as int);
                lemma_count_nonempty_update(registry@.tables, i as int, entry@);
            }
            reg.tables.set(i, entry);
            reg.len = reg.len - 1;
            proof {
                assert(entries_view(reg.tables@) =~= registry@.tables.update(
                    i as int,
                    EntryModel { state: EntryState::Empty, table: zero_address() },
                ));
                assert(reg@.wf()) by {
                    assert(forall|k: int|
                        0 <= k < reg@.tables.len() ==> (#[trigger] reg@.tables[k]).wf());
                };
            }
            Ok((reg, RemoveAction::Close))
        },
        EntryState::Active(_) => {
            let entry = RegistryEntry {
                state: EntryState::Deactivated,
                table: registry.tables[i].table.clone(),
            };
            proof {
                lemma_count_nonempty_update(registry@.tables, i as int, entry@);
            }
            reg.tables.set(i, entry);
            proof {
                assert(entries_view(reg.tables@) =~= registry@.tables.update(
                    i as int,
                    EntryModel {
                        state: EntryState::Deactivated,
                        table: registry@.tables[i as int].table,
                    },
                ));
                assert(reg@.wf()) by {
                    assert(forall|k: int|
                        0 <= k < reg@.tables.len() ==> (#[trigger] reg@.tables[k]).wf());
                };
            }
            Ok((reg, RemoveAction::Deactivate))
        },
    }
}

/// For every well-formed registry, `0 <= len <= capacity <= 254`.
pub proof fn lemma_registry_bounds(r: RegistryModel)
    requires
        r.wf(),
    ensures
        r.len as nat <= r.capacity as nat,
        r.capacity as nat <= 254,
{
    lemma_count_nonempty_le_len(r.tables);
}

/// Creating a table while an `Empty` slot exists leaves `capacity` unchanged
/// and increments `len` by one; creating with no `Empty` slot increments
/// both by one.
pub proof fn lemma_create_updates_len_and_capacity(
    r: RegistryModel,
    recent_slot: u64,
    table: Seq<u8>,
)
    requires
        r.wf(),
        (r.len as nat) < (MAX_REGISTRY_ENTRIES as nat),
    ensures
        match spec_apply_create(r, recent_slot, table) {
            Ok(r2) => r2.len as nat == r.len as nat + 1 && ((spec_find_empty(r.tables) matches Some(
                _,
            )) ==> r2.capacity == r.capacity) && ((spec_find_empty(r.tables) matches None)
                ==> r2.capacity as nat == r.capacity as nat + 1),
            Err(_) => false,
        },
{
    match spec_find_empty(r.tables) {
        Some(_) => {
        },
        None => {
            lemma_find_empty_properties(r.tables);
            lemma_count_nonempty_full(r.tables);
        },
    }
}

/// Removing an `Active` entry never changes `len`; removing a `Deactivated`
/// entry always decrements `len` by one and resets the slot's state and
/// address to their defaults.
pub proof fn lemma_remove_len(r: RegistryModel, addr: Seq<u8>)
    requires
        r.wf(),
    ensures
        match spec_remove(r, addr) {
            Ok((r2, action)) => match spec_find_entry(r.tables, addr) {
                Some(i) => (action == RemoveAction::Deactivate ==> r2.len == r.len && r2.tables[i]
                    .state == EntryState::Deactivated) && (action == RemoveAction::Close
                    ==> r2.len as nat + 1 == r.len as nat && r2.tables[i].state
                    == EntryState::Empty && r2.tables[i].table == zero_address()),
                None => false,
            },
            Err(_) => true,
        },
{
    lemma_find_entry_properties(r.tables, addr);
    match spec_find_entry(r.tables, addr) {
        Some(i) => {
            match r.tables[i].state {
                EntryState::Deactivated => {
                    lemma_count_nonempty_at_least_one(r.tables, i);
                },
                _ => {
                },
            }
        },
        None => {
        },
    }
}

} // verus!
