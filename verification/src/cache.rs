//! TTL-bounded cache of registry snapshots.
//!
//! The cache maps an authority to a decoded snapshot and the instant that
//! snapshot expires. Time is explicit: every operation takes the current
//! instant, and an entry is fresh while `now` is strictly before its
//! expiry, so an expired entry behaves as absent on read. The cache is an
//! explicitly owned value, created once and injected where it is needed.

use vstd::prelude::*;
use crate::addr::{Address, ADDRESS_LEN};
use crate::common::{Registry, RegistrySnapshotModel};

verus! {

/// Default time snapshots stay fresh, in milliseconds (one hour).
pub const DEFAULT_TTL_MS: u64 = 3600000;

/// Model of one cache slot.
pub struct CacheEntryModel {
    pub authority: Seq<u8>,
    pub registry: RegistrySnapshotModel,
    pub expires_at: u64,
}

/// One cached snapshot with its expiry instant.
#[derive(Debug)]
pub struct CacheEntry {
    pub authority: Address,
    pub registry: Registry,
    pub expires_at: u64,
}

impl View for CacheEntry {
    type V = CacheEntryModel;

    open spec fn view(&self) -> CacheEntryModel {
        CacheEntryModel {
            authority: self.authority@,
            registry: self.registry@,
            expires_at: self.expires_at,
        }
    }
}

/// The model view of a sequence of cache slots.
pub open spec fn cache_entries_view(s: Seq<CacheEntry>) -> Seq<CacheEntryModel> {
    Seq::new(s.len(), |i: int| s[i]@)
}

/// No two slots cache the same authority.
pub open spec fn distinct_authorities(s: Seq<CacheEntryModel>) -> bool {
    forall|i: int, j: int|
        0 <= i < j < s.len() ==> (#[trigger] s[i]).authority != (#[trigger] s[j]).authority
}

/// The map from authority to (snapshot, expiry) that a sequence of slots
/// holds; a later slot would shadow an earlier one with the same authority.
pub open spec fn cache_map(s: Seq<CacheEntryModel>) -> Map<Seq<u8>, (RegistrySnapshotModel, u64)>
    decreases s.len(),
{
    if s.len() == 0 {
        Map::empty()
    } else {
        cache_map(s.drop_last()).insert(
            s.last().authority,
            (s.last().registry, s.last().expires_at),
        )
    }
}

/// An authority is in the map exactly when some slot caches it.
pub proof fn lemma_cache_map_contains(s: Seq<CacheEntryModel>, k: Seq<u8>)
    ensures
        cache_map(s).contains_key(k) <==> exists|i: int|
            0 <= i < s.len() && (#[trigger] s[i]).authority == k,
    decreases s.len(),
{
    if s.len() > 0 {
        assert(forall|i: int| 0 <= i < s.drop_last().len() ==> s.drop_last()[i] == s[i]);
        lemma_cache_map_contains(s.drop_last(), k);
        if s.last().authority == k {
            assert(s[s.len() - 1].authority == k);
        } else if exists|i: int| 0 <= i < s.len() && (#[trigger] s[i]).authority == k {
            let i = choose|i: int| 0 <= i < s.len() && (#[trigger] s[i]).authority == k;
            assert(i < s.len() - 1);
            assert(s.drop_last()[i].authority == k);
        }
    }
}

/// With distinct authorities, the map's value for slot `i`'s authority is
/// slot `i`'s snapshot and expiry.
pub proof fn lemma_cache_map_index(s: Seq<CacheEntryModel>, i: int)
    requires
        0 <= i < s.len(),
        distinct_authorities(s),
    ensures
        cache_map(s).contains_key(s[i].authority),
        cache_map(s)[s[i].authority] == (s[i].registry, s[i].expires_at),
    decreases s.len(),
{
    if i < s.len() - 1 {
        assert(forall|k: int| 0 <= k < s.drop_last().len() ==> s.drop_last()[k] == s[k]);
        lemma_cache_map_index(s.drop_last(), i);
        assert(s[i].authority != s.last().authority);
    }
}

/// Replacing the slot that caches an authority updates just its map value.
pub proof fn lemma_cache_map_update(s: Seq<CacheEntryModel>, i: int, e: CacheEntryModel)
    requires
        0 <= i < s.len(),
        distinct_authorities(s),
        e.authority == s[i].authority,
    ensures
        cache_map(s.update(i, e)) == cache_map(s).insert(e.authority, (e.registry, e.expires_at)),
    decreases s.len(),
{
    let t = s.update(i, e);
    if i == s.len() - 1 {
        assert(t.drop_last() =~= s.drop_last());
        assert(t.last() == e);
        assert(cache_map(t) =~= cache_map(s).insert(e.authority, (e.registry, e.expires_at)));
    } else {
        assert(forall|k: int| 0 <= k < s.drop_last().len() ==> s.drop_last()[k] == s[k]);
        assert(t.drop_last() =~= s.drop_last().update(i, e));
        assert(t.last() == s.last());
        lemma_cache_map_update(s.drop_last(), i, e);
        assert(e.authority != s.last().authority);
        assert(cache_map(t) =~= cache_map(s).insert(e.authority, (e.registry, e.expires_at)));
    }
}

/// Appending a slot for a new authority inserts its map value.
pub proof fn lemma_cache_map_push(s: Seq<CacheEntryModel>, e: CacheEntryModel)
    ensures
        cache_map(s.push(e)) == cache_map(s).insert(e.authority, (e.registry, e.expires_at)),
{
    assert(s.push(e).drop_last() =~= s);
    assert(s.push(e).last() == e);
}

/// A TTL-bounded map from authority to a decoded registry snapshot.
#[derive(Debug)]
pub struct RegistryCache {
    pub entries: Vec<CacheEntry>,
    pub ttl_ms: u64,
}

impl View for RegistryCache {
    type V = Map<Seq<u8>, (RegistrySnapshotModel, u64)>;

    open spec fn view(&self) -> Map<Seq<u8>, (RegistrySnapshotModel, u64)> {
        cache_map(cache_entries_view(self.entries@))
    }
}

impl RegistryCache {
    /// Structural invariant: authorities are distinct and every slot holds
    /// a well-formed authority and snapshot.
    pub open spec fn wf(&self) -> bool {
        &&& distinct_authorities(cache_entries_view(self.entries@))
        &&& forall|i: int|
            0 <= i < self.entries@.len() ==> (#[trigger] cache_entries_view(
                self.entries@,
            )[i]).authority.len() == ADDRESS_LEN && cache_entries_view(
                self.entries@,
            )[i].registry.wf()
    }

    /// When an entry inserted at `now` with lifetime `ttl` expires;
    /// saturating, so a huge lifetime never wraps around.
    pub open spec fn spec_expiry(now: u64, ttl: u64) -> u64 {
        if now + ttl <= u64::MAX {
            (now + ttl) as u64
        } else {
            u64::MAX
        }
    }

    /// An empty cache whose entries stay fresh for `ttl_ms` milliseconds.
    pub fn new(ttl_ms: u64) -> (r: Self)
        ensures
            r@ == Map::<Seq<u8>, (RegistrySnapshotModel, u64)>::empty(),
            r.wf(),
            r.ttl_ms == ttl_ms,
    {
        let r = RegistryCache { entries: Vec::new(), ttl_ms };
        proof {
            assert(cache_entries_view(r.entries@) =~= Seq::<CacheEntryModel>::empty());
        }
        r
    }

    /// Inserts or replaces the snapshot for `authority`, fresh until
    /// `now + ttl`. No other cached authority is affected.
    pub fn insert(&mut self, authority: &Address, registry: Registry, now: u64)
        requires
            old(self).wf(),
            authority.wf(),
            registry@.wf(),
        ensures
            final(self).wf(),
            final(self)@ == old(self)@.insert(
                authority@,
                (registry@, Self::spec_expiry(now, old(self).ttl_ms)),
            ),
            final(self).ttl_ms == old(self).ttl_ms,
    {
        let expires_at = if now <= u64::MAX - self.ttl_ms {
            now + self.ttl_ms
        } else {
            u64::MAX
        };
        let mut i: usize = 0;
        while i < self.entries.len()
            invariant
                i <= self.entries@.len(),
                old(self).wf(),
                authority.wf(),
                registry@.wf(),
                cache_entries_view(self.entries@) == cache_entries_view(old(self).entries@),
                self.ttl_ms == old(self).ttl_ms,
                expires_at == Self::spec_expiry(now, old(self).ttl_ms),
                forall|j: int|
                    0 <= j < i ==> (#[trigger] cache_entries_view(self.entries@)[j]).authority
                        != authority@,
            decreases self.entries@.len() - i,
        {
            proof {
                assert(cache_entries_view(self.entries@)[i as int].authority == self.entries@[
                    i as int]@.authority);
            }
            if self.entries[i].authority.eq_addr(authority) {
                let entry = CacheEntry { authority: authority.clone(), registry, expires_at };
                proof {
                    assert(cache_entries_view(self.entries@)[i as int].authority == authority@);
                    lemma_cache_map_update(
                        cache_entries_view(self.entries@),
                        i as int,
                        entry@,
                    );
                }
                self.entries.set(i, entry);
                proof {
                    let oldv = cache_entries_view(old(self).entries@);
                    let newv = cache_entries_view(self.entries@);
                    assert(newv =~= oldv.update(i as int, entry@));
                    assert forall|k: int| 0 <= k < newv.len() implies (#[trigger] newv[k]).authority
                        == oldv[k].authority && newv[k].authority.len() == ADDRESS_LEN
                        && newv[k].registry.wf() by {
                        if k != i {
                            assert(newv[k] == oldv[k]);
                        }
                    }
                }
                return ;
            }
            i += 1;
        }
        let entry = CacheEntry { authority: authority.clone(), registry, expires_at };
        proof {
            lemma_cache_map_push(cache_entries_view(self.entries@), entry@);
        }
        self.entries.push(entry);
        proof {
            let oldv = cache_entries_view(old(self).entries@);
            let newv = cache_entries_view(self.entries@);
            assert(newv =~= oldv.push(entry@));
            assert forall|p: int, q: int|
                0 <= p < q < newv.len() implies (#[trigger] newv[p]).authority != (
            #[trigger] newv[q]).authority by {
                if q < newv.len() - 1 {
                    assert(newv[p] == oldv[p] && newv[q] == oldv[q]);
                } else {
                    assert(newv[p] == oldv[p] && newv[q] == entry@);
                }
            }
        }
    }

    /// The cached snapshot for `authority`, if present and not expired at
    /// `now`; an expired entry behaves as absent.
    pub fn get(&self, authority: &Address, now: u64) -> (r: Option<&Registry>)
        requires
            self.wf(),
        ensures
            match r {
                Some(reg) => self@.contains_key(authority@) && now < self@[authority@].1 && reg@
                    == self@[authority@].0,
                None => !self@.contains_key(authority@) || self@[authority@].1 <= now,
            },
    {
        let mut i: usize = 0;
        while i < self.entries.len()
            invariant
                i <= self.entries@.len(),
                self.wf(),
                forall|j: int|
                    0 <= j < i ==> (#[trigger] cache_entries_view(self.entries@)[j]).authority
                        != authority@,
            decreases self.entries@.len() - i,
        {
            if self.entries[i].authority.eq_addr(authority) {
                proof {
                    lemma_cache_map_index(cache_entries_view(self.entries@), i as int);
                }
                if now < self.entries[i].expires_at {
                    return Some(&self.entries[i].registry);
                } else {
                    return None;
                }
            }
            i += 1;
        }
        proof {
            lemma_cache_map_contains(cache_entries_view(self.entries@), authority@);
        }
        None
    }
}

} // verus!
