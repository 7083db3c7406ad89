//! A client for querying lookup table registries.
//!
//! The reader combines an account transport, the TTL cache, and the
//! compression engine. `get_registry` reads through the cache (fetching on
//! a miss), `update_registries` refetches unconditionally, and
//! `get_tables` / `find_addresses` consult only what is currently cached
//! and fresh — they never fetch.

use vstd::prelude::*;
use crate::addr::{clone_addresses, Address};
use crate::cache::{RegistryCache, DEFAULT_TTL_MS};
use crate::common::{AccountReader, Registry, RegistrySnapshotModel, TableSnapshotModel};
use crate::engine::{
    all_accounts, collect_accounts, consulted_tables, dedup_addresses, fresh_at,
    intersect_addresses, lemma_occ_push, lemma_occ_zero, lemma_run_tables_concat,
    lemma_spec_dedup, lemma_take_succ_contains_all, occ, remove_covered, run_tables, spec_dedup,
    spec_find_addresses, step_table, table_intersection, EngineState, FindAddressesResult,
    Instruction,
};

verus! {

/// Model of one table handed out by `get_tables`.
pub struct TableAccountModel {
    pub key: Seq<u8>,
    pub addresses: Seq<Seq<u8>>,
}

/// A table in the shape transactions consume: its address and members.
#[derive(Debug, PartialEq, Eq)]
pub struct AddressLookupTableAccount {
    pub key: Address,
    pub addresses: Vec<Address>,
}

impl View for AddressLookupTableAccount {
    type V = TableAccountModel;

    open spec fn view(&self) -> TableAccountModel {
        TableAccountModel { key: self.key@, addresses: self.addresses.deep_view() }
    }
}

impl DeepView for AddressLookupTableAccount {
    type V = TableAccountModel;

    open spec fn deep_view(&self) -> TableAccountModel {
        self@
    }
}

/// The account shapes of a sequence of resolved tables.
pub open spec fn table_accounts_of(ts: Seq<TableSnapshotModel>) -> Seq<TableAccountModel> {
    Seq::new(ts.len(), |i: int| TableAccountModel { key: ts[i].lookup_address, addresses: ts[i].addresses })
}

/// The tables of every fresh cached snapshot among `auths`, in authority
/// order then stored order.
pub open spec fn spec_get_tables(
    auths: Seq<Seq<u8>>,
    cmap: Map<Seq<u8>, (RegistrySnapshotModel, u64)>,
    now: u64,
) -> Seq<TableAccountModel> {
    table_accounts_of(consulted_tables(auths, cmap, now))
}

/// Whether `sub` occurs within `s` in order: an order-preserving
/// selection of `s`'s elements. Matching greedily from the end decides
/// this exactly.
pub open spec fn subsequence_of(sub: Seq<Seq<u8>>, s: Seq<Seq<u8>>) -> bool
    decreases s.len(),
{
    if sub.len() == 0 {
        true
    } else if s.len() == 0 {
        false
    } else if sub.last() == s.last() {
        subsequence_of(sub.drop_last(), s.drop_last())
    } else {
        subsequence_of(sub, s.drop_last())
    }
}

/// Dropping the last chosen element keeps a subsequence a subsequence.
pub proof fn lemma_subsequence_drop_last(sub: Seq<Seq<u8>>, s: Seq<Seq<u8>>)
    requires
        sub.len() > 0,
        subsequence_of(sub, s),
    ensures
        subsequence_of(sub.drop_last(), s),
    decreases s.len(),
{
    let sub2 = sub.drop_last();
    if sub.last() == s.last() {
        if sub2.len() == 0 {
        } else if sub2.last() == s.last() {
            lemma_subsequence_drop_last(sub2, s.drop_last());
        } else {
        }
    } else {
        lemma_subsequence_drop_last(sub, s.drop_last());
        if sub2.len() == 0 {
        } else if sub2.last() == s.last() {
            lemma_subsequence_drop_last(sub2, s.drop_last());
        } else {
        }
    }
}

/// A subsequence of `s` is a subsequence of `s` with one more element.
pub proof fn lemma_subsequence_extend(sub: Seq<Seq<u8>>, s: Seq<Seq<u8>>, e: Seq<u8>)
    requires
        subsequence_of(sub, s),
    ensures
        subsequence_of(sub, s.push(e)),
{
    assert(s.push(e).drop_last() =~= s);
    assert(s.push(e).last() == e);
    if sub.len() > 0 && sub.last() == e {
        lemma_subsequence_drop_last(sub, s);
    }
}

/// Choosing the newly appended element extends a subsequence.
pub proof fn lemma_subsequence_push_both(sub: Seq<Seq<u8>>, s: Seq<Seq<u8>>, e: Seq<u8>)
    requires
        subsequence_of(sub, s),
    ensures
        subsequence_of(sub.push(e), s.push(e)),
{
    assert(sub.push(e).drop_last() =~= sub);
    assert(s.push(e).drop_last() =~= s);
}

/// Outside the processed authorities, `m` agrees with `m0`: untouched
/// keys keep their presence and their value.
pub open spec fn cache_untouched_outside(
    processed: Seq<Seq<u8>>,
    m0: Map<Seq<u8>, (RegistrySnapshotModel, u64)>,
    m: Map<Seq<u8>, (RegistrySnapshotModel, u64)>,
) -> bool {
    forall|k: Seq<u8>|
        #![trigger m.contains_key(k)]
        #![trigger m[k]]
        !processed.contains(k) ==> ((m.contains_key(k) <==> m0.contains_key(k)) && (
        m0.contains_key(k) ==> m[k] == m0[k]))
}

/// An authority processed exactly once whose fetch failed keeps its prior
/// cache entry: for such keys `m` agrees with `m0`.
pub open spec fn cache_unchanged_for_failed(
    processed: Seq<Seq<u8>>,
    errs: Seq<Seq<u8>>,
    m0: Map<Seq<u8>, (RegistrySnapshotModel, u64)>,
    m: Map<Seq<u8>, (RegistrySnapshotModel, u64)>,
) -> bool {
    forall|k: Seq<u8>|
        #![trigger errs.contains(k)]
        (occ(processed, k) == 1 && errs.contains(k)) ==> ((m.contains_key(k)
            <==> m0.contains_key(k)) && (m0.contains_key(k) ==> m[k] == m0[k]))
}

/// Processing one more authority never enlarges the untouched region.
pub proof fn lemma_cache_untouched_grow(
    processed: Seq<Seq<u8>>,
    m0: Map<Seq<u8>, (RegistrySnapshotModel, u64)>,
    m: Map<Seq<u8>, (RegistrySnapshotModel, u64)>,
    key: Seq<u8>,
)
    requires
        cache_untouched_outside(processed, m0, m),
    ensures
        cache_untouched_outside(processed.push(key), m0, m),
{
    crate::engine::lemma_push_contains_all(processed, key);
    assert forall|k: Seq<u8>| !processed.push(key).contains(k) implies ((m.contains_key(k)
        <==> m0.contains_key(k)) && (m0.contains_key(k) ==> m[k] == m0[k])) by {
        assert(!processed.contains(k));
        assert(m.contains_key(k) <==> m0.contains_key(k));
        if m0.contains_key(k) {
            assert(m[k] == m0[k]);
        }
    }
}

/// Inserting the newly processed authority's snapshot leaves every other
/// untouched key agreeing with `m0`.
pub proof fn lemma_cache_untouched_after_insert(
    processed: Seq<Seq<u8>>,
    m0: Map<Seq<u8>, (RegistrySnapshotModel, u64)>,
    m: Map<Seq<u8>, (RegistrySnapshotModel, u64)>,
    key: Seq<u8>,
    v: (RegistrySnapshotModel, u64),
)
    requires
        cache_untouched_outside(processed, m0, m),
    ensures
        cache_untouched_outside(processed.push(key), m0, m.insert(key, v)),
{
    crate::engine::lemma_push_contains_all(processed, key);
    assert forall|k: Seq<u8>| !processed.push(key).contains(k) implies ((m.insert(
        key,
        v,
    ).contains_key(k) <==> m0.contains_key(k)) && (m0.contains_key(k) ==> m.insert(key, v)[k]
        == m0[k])) by {
        assert(processed.push(key).contains(key));
        assert(k != key);
        assert(!processed.contains(k));
        assert(m.contains_key(k) <==> m0.contains_key(k));
        if m0.contains_key(k) {
            assert(m[k] == m0[k]);
        }
    }
}

/// A successful fetch for an authority already listed as failed means it
/// was listed more than once, so the failed-keep clause is unaffected by
/// the insert.
pub proof fn lemma_cache_unchanged_failed_after_insert(
    processed: Seq<Seq<u8>>,
    errs: Seq<Seq<u8>>,
    m0: Map<Seq<u8>, (RegistrySnapshotModel, u64)>,
    m: Map<Seq<u8>, (RegistrySnapshotModel, u64)>,
    key: Seq<u8>,
    v: (RegistrySnapshotModel, u64),
)
    requires
        cache_unchanged_for_failed(processed, errs, m0, m),
        forall|j: int| 0 <= j < errs.len() ==> processed.contains(#[trigger] errs[j]),
    ensures
        cache_unchanged_for_failed(processed.push(key), errs, m0, m.insert(key, v)),
{
    assert forall|k: Seq<u8>| (occ(processed.push(key), k) == 1 && errs.contains(k)) implies ((
    m.insert(key, v).contains_key(k) <==> m0.contains_key(k)) && (m0.contains_key(k) ==> m.insert(
        key,
        v,
    )[k] == m0[k])) by {
        lemma_occ_push(processed, key, k);
        lemma_occ_zero(processed, k);
        if k == key {
            let j = choose|j: int| 0 <= j < errs.len() && (#[trigger] errs[j]) == k;
            assert(processed.contains(errs[j]));
            assert(occ(processed, k) >= 1);
            assert(false);
        } else {
            assert(occ(processed, k) == 1);
            assert(m.contains_key(k) <==> m0.contains_key(k));
            if m0.contains_key(k) {
                assert(m[k] == m0[k]);
            }
        }
    }
}

/// A failed fetch touches nothing: the authority joins the failed list,
/// and — processed once — its entry still agrees with `m0`, because it was
/// untouched up to now.
pub proof fn lemma_cache_unchanged_failed_after_error(
    processed: Seq<Seq<u8>>,
    errs: Seq<Seq<u8>>,
    m0: Map<Seq<u8>, (RegistrySnapshotModel, u64)>,
    m: Map<Seq<u8>, (RegistrySnapshotModel, u64)>,
    key: Seq<u8>,
)
    requires
        cache_unchanged_for_failed(processed, errs, m0, m),
        cache_untouched_outside(processed, m0, m),
    ensures
        cache_unchanged_for_failed(processed.push(key), errs.push(key), m0, m),
{
    crate::engine::lemma_push_contains_all(errs, key);
    assert forall|k: Seq<u8>|
        #![trigger errs.push(key).contains(k)]
        (occ(processed.push(key), k) == 1 && errs.push(key).contains(k)) implies ((m.contains_key(
            k,
        ) <==> m0.contains_key(k)) && (m0.contains_key(k) ==> m[k] == m0[k])) by {
        lemma_occ_push(processed, key, k);
        lemma_occ_zero(processed, k);
        if k == key {
            assert(occ(processed, k) == 0);
            assert(!processed.contains(k));
            assert(m.contains_key(k) <==> m0.contains_key(k));
            if m0.contains_key(k) {
                assert(m[k] == m0[k]);
            }
        } else {
            assert(errs.contains(k));
            assert(occ(processed, k) == 1);
            assert(m.contains_key(k) <==> m0.contains_key(k));
            if m0.contains_key(k) {
                assert(m[k] == m0[k]);
            }
        }
    }
}

/// A client for querying the registries of a set of authorities.
#[derive(Debug)]
pub struct LookupRegistryReader<A> {
    pub rpc: A,
    pub cache: RegistryCache,
}

impl<A> LookupRegistryReader<A> {
    /// A reader whose cached snapshots stay fresh for the default hour.
    pub fn new(rpc: A) -> (r: Self)
        ensures
            r.cache@ == Map::<Seq<u8>, (RegistrySnapshotModel, u64)>::empty(),
            r.cache.wf(),
            r.cache.ttl_ms == DEFAULT_TTL_MS,
    {
        LookupRegistryReader { rpc, cache: RegistryCache::new(DEFAULT_TTL_MS) }
    }

    /// A reader with an explicit snapshot lifetime in milliseconds.
    pub fn with_ttl(rpc: A, ttl_ms: u64) -> (r: Self)
        ensures
            r.cache@ == Map::<Seq<u8>, (RegistrySnapshotModel, u64)>::empty(),
            r.cache.wf(),
            r.cache.ttl_ms == ttl_ms,
    {
        LookupRegistryReader { rpc, cache: RegistryCache::new(ttl_ms) }
    }
}

impl<A: AccountReader> LookupRegistryReader<A> {
    /// Fetches the latest registry snapshot for each listed authority,
    /// replacing its cache entry on success, and returns the authorities
    /// whose fetch failed, in input order (an order-preserving selection
    /// of the input list). A failure leaves that authority's prior cache
    /// value, if any, untouched — stated for an authority listed once,
    /// since a duplicated authority may still be replaced by its other,
    /// successful fetch — and never aborts the rest of the batch.
    pub fn update_registries(&mut self, authorities: &Vec<Address>, now: u64) -> (errors: Vec<
        Address,
    >)
        requires
            old(self).cache.wf(),
            forall|i: int| 0 <= i < authorities@.len() ==> (#[trigger] authorities@[i]).wf(),
        ensures
            final(self).cache.wf(),
            final(self).cache.ttl_ms == old(self).cache.ttl_ms,
            forall|j: int|
                0 <= j < errors.deep_view().len() ==> authorities.deep_view().contains(
                    #[trigger] errors.deep_view()[j],
                ),
            forall|j: int|
                0 <= j < authorities.deep_view().len() ==> (errors.deep_view().contains(
                    #[trigger] authorities.deep_view()[j],
                ) || (final(self).cache@.contains_key(authorities.deep_view()[j]) && final(self).cache@[authorities.deep_view()[j]].1 == RegistryCache::spec_expiry(
                    now,
                    old(self).cache.ttl_ms,
                ) && final(self).cache@[authorities.deep_view()[j]].0.wf())),
            forall|k: Seq<u8>|
                (!authorities.deep_view().contains(k) && old(self).cache@.contains_key(k)) ==> (
                #[trigger] final(self).cache@[k]) == old(self).cache@[k] && final(self).cache@.contains_key(k),
            forall|k: Seq<u8>|
                (!authorities.deep_view().contains(k) && !old(self).cache@.contains_key(k))
                    ==> !(#[trigger] final(self).cache@.contains_key(k)),
            subsequence_of(errors.deep_view(), authorities.deep_view()),
            forall|k: Seq<u8>|
                (occ(authorities.deep_view(), k) == 1 && #[trigger] errors.deep_view().contains(
                    k,
                )) ==> ((final(self).cache@.contains_key(k) <==> old(self).cache@.contains_key(k))
                    && (old(self).cache@.contains_key(k) ==> final(self).cache@[k] == old(
                    self,
                ).cache@[k])),
    {
        let ghost adv = authorities.deep_view();
        let ghost cache0 = old(self).cache@;
        let mut errors: Vec<Address> = Vec::new();
        let mut i: usize = 0;
        proof {
            assert(adv.take(0) =~= Seq::<Seq<u8>>::empty());
        }
        while i < authorities.len()
            invariant
                i <= authorities@.len(),
                adv == authorities.deep_view(),
                adv.len() == authorities@.len(),
                cache0 == old(self).cache@,
                forall|j: int| 0 <= j < authorities@.len() ==> (#[trigger] authorities@[j]).wf(),
                self.cache.wf(),
                self.cache.ttl_ms == old(self).cache.ttl_ms,
                forall|j: int|
                    0 <= j < errors.deep_view().len() ==> adv.take(i as int).contains(
                        #[trigger] errors.deep_view()[j],
                    ),
                forall|j: int|
                    0 <= j < i ==> (errors.deep_view().contains(#[trigger] adv[j]) || (
                    self.cache@.contains_key(adv[j]) && self.cache@[adv[j]].1
                        == RegistryCache::spec_expiry(now, old(self).cache.ttl_ms)
                        && self.cache@[adv[j]].0.wf())),
                cache_untouched_outside(adv.take(i as int), cache0, self.cache@),
                subsequence_of(errors.deep_view(), adv.take(i as int)),
                cache_unchanged_for_failed(
                    adv.take(i as int),
                    errors.deep_view(),
                    cache0,
                    self.cache@,
                ),
            decreases authorities@.len() - i,
        {
            let ghost errors_before = errors.deep_view();
            let ghost cache_before = self.cache@;
            proof {
                lemma_take_succ_contains_all(adv, i as int);
                assert(adv.take(i as int + 1) =~= adv.take(i as int).push(adv[i as int]));
                assert(authorities@[i as int]@ == adv[i as int]);
            }
            match Registry::fetch(&mut self.rpc, &authorities[i]) {
                Ok(reg) => {
                    let ghost regv = reg@;
                    self.cache.insert(&authorities[i], reg, now);
                    proof {
                        let expiry = RegistryCache::spec_expiry(now, old(self).cache.ttl_ms);
                        assert(self.cache@ == cache_before.insert(adv[i as int], (regv, expiry)));
                        lemma_subsequence_extend(errors_before, adv.take(i as int), adv[i as int]);
                        lemma_cache_untouched_after_insert(
                            adv.take(i as int),
                            cache0,
                            cache_before,
                            adv[i as int],
                            (regv, expiry),
                        );
                        lemma_cache_unchanged_failed_after_insert(
                            adv.take(i as int),
                            errors_before,
                            cache0,
                            cache_before,
                            adv[i as int],
                            (regv, expiry),
                        );
                        assert(cache_untouched_outside(
                            adv.take(i as int + 1),
                            cache0,
                            self.cache@,
                        ));
                        assert(cache_unchanged_for_failed(
                            adv.take(i as int + 1),
                            errors.deep_view(),
                            cache0,
                            self.cache@,
                        ));
                        assert(subsequence_of(errors.deep_view(), adv.take(i as int + 1)));
                    }
                },
                Err(_) => {
                    errors.push(authorities[i].clone());
                    proof {
                        assert(errors.deep_view() =~= errors_before.push(adv[i as int]));
                        crate::engine::lemma_push_contains_all(errors_before, adv[i as int]);
                        lemma_subsequence_push_both(
                            errors_before,
                            adv.take(i as int),
                            adv[i as int],
                        );
                        lemma_cache_untouched_grow(
                            adv.take(i as int),
                            cache0,
                            cache_before,
                            adv[i as int],
                        );
                        lemma_cache_unchanged_failed_after_error(
                            adv.take(i as int),
                            errors_before,
                            cache0,
                            cache_before,
                            adv[i as int],
                        );
                        assert(cache_untouched_outside(
                            adv.take(i as int + 1),
                            cache0,
                            self.cache@,
                        ));
                        assert(cache_unchanged_for_failed(
                            adv.take(i as int + 1),
                            errors.deep_view(),
                            cache0,
                            self.cache@,
                        ));
                        assert(subsequence_of(errors.deep_view(), adv.take(i as int + 1)));
                    }
                },
            }
            i += 1;
        }
        proof {
            assert(adv.take(adv.len() as int) =~= adv);
            assert(cache_untouched_outside(adv, cache0, self.cache@));
            assert(cache_unchanged_for_failed(adv, errors.deep_view(), cache0, self.cache@));
            assert(subsequence_of(errors.deep_view(), adv));
            assert forall|k: Seq<u8>|
                (!adv.contains(k) && cache0.contains_key(k)) implies ((#[trigger] self.cache@[k])
                == cache0[k] && self.cache@.contains_key(k)) by {
                assert(self.cache@.contains_key(k) <==> cache0.contains_key(k));
            }
            assert forall|k: Seq<u8>|
                (!adv.contains(k) && !cache0.contains_key(k)) implies !(
            #[trigger] self.cache@.contains_key(k)) by {
            }
            assert forall|k: Seq<u8>|
                (occ(adv, k) == 1 && #[trigger] errors.deep_view().contains(k)) implies ((
            self.cache@.contains_key(k) <==> cache0.contains_key(k)) && (cache0.contains_key(k)
                ==> self.cache@[k] == cache0[k])) by {
            }
        }
        errors
    }

    /// All the tables in the currently cached, non-expired registries of
    /// the listed authorities. Never fetches.
    pub fn get_tables(&self, authorities: &Vec<Address>, now: u64) -> (r: Vec<
        AddressLookupTableAccount,
    >)
        requires
            self.cache.wf(),
        ensures
            r.deep_view() == spec_get_tables(authorities.deep_view(), self.cache@, now),
    {
        let ghost adv = authorities.deep_view();
        let ghost cmap = self.cache@;
        let mut r: Vec<AddressLookupTableAccount> = Vec::new();
        proof {
            assert(adv.take(0) =~= Seq::<Seq<u8>>::empty());
            assert(r.deep_view() =~= table_accounts_of(consulted_tables(adv.take(0), cmap, now)));
        }
        let mut i: usize = 0;
        while i < authorities.len()
            invariant
                i <= authorities@.len(),
                adv == authorities.deep_view(),
                adv.len() == authorities@.len(),
                cmap == self.cache@,
                self.cache.wf(),
                r.deep_view() == table_accounts_of(consulted_tables(adv.take(i as int), cmap, now)),
            decreases authorities@.len() - i,
        {
            proof {
                assert(adv.take(i as int + 1).drop_last() =~= adv.take(i as int));
                assert(adv.take(i as int + 1).last() == adv[i as int]);
            }
            match self.cache.get(&authorities[i], now) {
                Some(reg) => {
                    proof {
                        assert(fresh_at(cmap, adv[i as int], now));
                        assert(reg@ == cmap[adv[i as int]].0);
                    }
                    let ghost ts = cmap[adv[i as int]].0.tables;
                    let ghost base = r.deep_view();
                    let mut t: usize = 0;
                    while t < reg.tables.len()
                        invariant
                            t <= reg.tables@.len(),
                            ts == reg@.tables,
                            ts.len() == reg.tables@.len(),
                            base == r.deep_view().take(base.len() as int),
                            r.deep_view().len() == base.len() + t,
                            r.deep_view() == base + table_accounts_of(ts.take(t as int)),
                        decreases reg.tables@.len() - t,
                    {
                        let ghost before = r.deep_view();
                        let entry = &reg.tables[t];
                        r.push(
                            AddressLookupTableAccount {
                                key: entry.lookup_address.clone(),
                                addresses: clone_addresses(&entry.addresses),
                            },
                        );
                        proof {
                            assert(entry@ == ts[t as int]);
                            assert(r.deep_view() =~= before + table_accounts_of(
                                ts.take(t as int + 1),
                            ).subrange(t as int, t as int + 1));
                            assert(r.deep_view() =~= base + table_accounts_of(
                                ts.take(t as int + 1),
                            ));
                            assert(base =~= r.deep_view().take(base.len() as int));
                        }
                        t += 1;
                    }
                    proof {
                        assert(ts.take(ts.len() as int) =~= ts);
                        assert(consulted_tables(adv.take(i as int + 1), cmap, now)
                            =~= consulted_tables(adv.take(i as int), cmap, now) + ts);
                        assert(r.deep_view() =~= table_accounts_of(
                            consulted_tables(adv.take(i as int + 1), cmap, now),
                        ));
                    }
                },
                None => {
                    proof {
                        assert(!fresh_at(cmap, adv[i as int], now));
                        assert(consulted_tables(adv.take(i as int + 1), cmap, now)
                            =~= consulted_tables(adv.take(i as int), cmap, now));
                    }
                },
            }
            i += 1;
        }
        proof {
            assert(adv.take(adv.len() as int) =~= adv);
        }
        r
    }

    /// Greedily chooses cached tables so that as many referenced accounts
    /// as possible are served through table references. Consults only the
    /// currently cached, non-expired snapshots; never fetches; always
    /// returns well-defined counts.
    pub fn find_addresses(
        &self,
        instructions: &Vec<Instruction>,
        authorities: &Vec<Address>,
        now: u64,
    ) -> (r: FindAddressesResult)
        requires
            self.cache.wf(),
        ensures
            ({
                let sp = spec_find_addresses(
                    instructions.deep_view(),
                    authorities.deep_view(),
                    self.cache@,
                    now,
                );
                r.matches.deep_view() == sp.0 && r.distinct == sp.1 && r.unmatched == sp.2
            }),
    {
        let flat = collect_accounts(instructions);
        let distinct_vec = dedup_addresses(&flat);
        proof {
            lemma_spec_dedup(flat.deep_view());
        }
        let distinct = distinct_vec.len();
        let ghost d = spec_dedup(all_accounts(instructions.deep_view()));
        let ghost st0 = EngineState { matches: Seq::empty(), remaining: d.to_set() };
        let ghost adv = authorities.deep_view();
        let ghost cmap = self.cache@;
        let mut remaining = distinct_vec;
        let mut matched: Vec<Address> = Vec::new();
        proof {
            assert(remaining.deep_view() == d);
            assert(adv.take(0) =~= Seq::<Seq<u8>>::empty());
            assert(consulted_tables(adv.take(0), cmap, now) =~= Seq::<TableSnapshotModel>::empty());
            assert(matched.deep_view() =~= Seq::<Seq<u8>>::empty());
        }
        let mut ai: usize = 0;
        while ai < authorities.len()
            invariant
                ai <= authorities@.len(),
                adv == authorities.deep_view(),
                adv.len() == authorities@.len(),
                cmap == self.cache@,
                self.cache.wf(),
                d == spec_dedup(all_accounts(instructions.deep_view())),
                st0 == (EngineState { matches: Seq::<Seq<u8>>::empty(), remaining: d.to_set() }),
                distinct == d.len(),
                remaining.deep_view().no_duplicates(),
                ({
                    let cur = run_tables(st0, consulted_tables(adv.take(ai as int), cmap, now));
                    matched.deep_view() == cur.matches && remaining.deep_view().to_set()
                        == cur.remaining
                }),
            decreases authorities@.len() - ai,
        {
            let ghost cur0 = run_tables(st0, consulted_tables(adv.take(ai as int), cmap, now));
            proof {
                assert(adv.take(ai as int + 1).drop_last() =~= adv.take(ai as int));
                assert(adv.take(ai as int + 1).last() == adv[ai as int]);
            }
            match self.cache.get(&authorities[ai], now) {
                Some(reg) => {
                    proof {
                        assert(fresh_at(cmap, adv[ai as int], now));
                        assert(reg@ == cmap[adv[ai as int]].0);
                    }
                    let ghost ts = cmap[adv[ai as int]].0.tables;
                    let mut ti: usize = 0;
                    while ti < reg.tables.len()
                        invariant
                            ti <= reg.tables@.len(),
                            ts == reg@.tables,
                            ts.len() == reg.tables@.len(),
                            remaining.deep_view().no_duplicates(),
                            matched.deep_view() == run_tables(cur0, ts.take(ti as int)).matches,
                            remaining.deep_view().to_set() == run_tables(
                                cur0,
                                ts.take(ti as int),
                            ).remaining,
                        decreases reg.tables@.len() - ti,
                    {
                        let ghost curt = run_tables(cur0, ts.take(ti as int));
                        proof {
                            assert(ts.take(ti as int + 1).drop_last() =~= ts.take(ti as int));
                            assert(ts.take(ti as int + 1).last() == ts[ti as int]);
                        }
                        let inter = intersect_addresses(&reg.tables[ti].addresses, &remaining);
                        proof {
                            assert(reg.tables@[ti as int]@ == ts[ti as int]);
                            assert(reg.tables@[ti as int]@.addresses == reg.tables@[
                                ti as int
                            ].addresses.deep_view());
                            assert(inter.deep_view().to_set() == table_intersection(
                                ts[ti as int],
                                curt.remaining,
                            ));
                            inter.deep_view().unique_seq_to_set();
                        }
                        if inter.len() > 1 {
                            let ghost matched_before = matched.deep_view();
                            matched.push(reg.tables[ti].lookup_address.clone());
                            let new_remaining = remove_covered(&remaining, &inter);
                            remaining = new_remaining;
                            proof {
                                assert(matched.deep_view() =~= matched_before.push(
                                    ts[ti as int].lookup_address,
                                ));
                                assert(step_table(curt, ts[ti as int]).matches == matched.deep_view());
                            }
                        } else {
                            proof {
                                assert(table_intersection(ts[ti as int], curt.remaining).len()
                                    <= 1);
                                assert(step_table(curt, ts[ti as int]) == curt);
                            }
                        }
                        ti += 1;
                    }
                    proof {
                        assert(ts.take(ts.len() as int) =~= ts);
                        assert(consulted_tables(adv.take(ai as int + 1), cmap, now)
                            =~= consulted_tables(adv.take(ai as int), cmap, now) + ts);
                        lemma_run_tables_concat(
                            st0,
                            consulted_tables(adv.take(ai as int), cmap, now),
                            ts,
                        );
                    }
                },
                None => {
                    proof {
                        assert(!fresh_at(cmap, adv[ai as int], now));
                        assert(consulted_tables(adv.take(ai as int + 1), cmap, now)
                            =~= consulted_tables(adv.take(ai as int), cmap, now));
                    }
                },
            }
            ai += 1;
        }
        let unmatched = remaining.len();
        proof {
            assert(adv.take(adv.len() as int) =~= adv);
            remaining.deep_view().unique_seq_to_set();
        }
        FindAddressesResult { matches: matched, distinct, unmatched }
    }

    /// The snapshot for `authority`: the cached one when it is fresh at
    /// `now`; otherwise fetched, decoded, cached with a fresh lifetime,
    /// and returned. A failed fetch returns nothing and leaves the cache
    /// unchanged.
    pub fn get_registry(&mut self, authority: &Address, now: u64) -> (r: Option<Registry>)
        requires
            old(self).cache.wf(),
            authority.wf(),
        ensures
            final(self).cache.wf(),
            final(self).cache.ttl_ms == old(self).cache.ttl_ms,
            (if fresh_at(old(self).cache@, authority@, now) {
                final(self).cache@ == old(self).cache@ && (match r {
                    Some(reg) => reg@ == old(self).cache@[authority@].0,
                    None => false,
                })
            } else {
                match r {
                    Some(reg) => reg@.wf() && reg@.authority == authority@ && final(self).cache@
                        == old(self).cache@.insert(
                        authority@,
                        (reg@, RegistryCache::spec_expiry(now, old(self).cache.ttl_ms)),
                    ),
                    None => final(self).cache@ == old(self).cache@,
                }
            }),
    {
        let cached: Option<Registry> = match self.cache.get(authority, now) {
            Some(reg) => Some(reg.clone()),
            None => None,
        };
        match cached {
            Some(reg) => Some(reg),
            None => {
                match Registry::fetch(&mut self.rpc, authority) {
                    Ok(reg) => {
                        let out = reg.clone();
                        self.cache.insert(authority, reg, now);
                        Some(out)
                    },
                    Err(_) => None,
                }
            },
        }
    }
}

} // verus!
