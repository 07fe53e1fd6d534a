//! Phase A of a scan pass: refreshing the store from what a walk over the
//! tier roots observed.
//!
//! `refresh_all` is the mathematical model of the phase; the lemmas below
//! characterize what it leaves in the store, record by record.

use vstd::prelude::*;
use crate::file_metadata::{FileMetadata, ObsView, Observation};
use crate::paths::KeyView;
use crate::store::{
    contains_key, entries_wf, lemma_upsert_lookup, lemma_upsert_no_dup, lookup, spec_upsert,
    EntryView, MetadataStore,
};

verus! {

/// The views of a batch of observations.
pub open spec fn obs_views(obs: Seq<Observation>) -> Seq<ObsView> {
    obs.map_values(|o: Observation| o@)
}

/// The store after one observation is folded in: a record already present
/// is updated, a file seen for the first time gets a fresh record.
pub open spec fn refresh_one(s: Seq<EntryView>, o: ObsView) -> Seq<EntryView> {
    match lookup(s, o.key()) {
        Some(m) => spec_upsert(s, o.key(), m.spec_scanned(o.atime, o.size)),
        None => spec_upsert(s, o.key(), FileMetadata::spec_fresh(o.tier, o.atime, o.size)),
    }
}

/// The store after a whole batch of observations, folded in order.
pub open spec fn refresh_all(s: Seq<EntryView>, obs: Seq<ObsView>) -> Seq<EntryView>
    decreases obs.len(),
{
    if obs.len() == 0 {
        s
    } else {
        refresh_one(refresh_all(s, obs.drop_last()), obs.last())
    }
}

/// Whether some observation in the batch is of the file keyed `k`.
pub open spec fn observes(obs: Seq<ObsView>, k: KeyView) -> bool
    decreases obs.len(),
{
    if obs.len() == 0 {
        false
    } else {
        obs.last().key() == k || observes(obs.drop_last(), k)
    }
}

/// The access time of `k`'s record after the batch, starting from `base`
/// (`-1` for a record not yet present): the maximum of the base and every
/// observed access time.
pub open spec fn atime_after(base: int, obs: Seq<ObsView>, k: KeyView) -> int
    decreases obs.len(),
{
    if obs.len() == 0 {
        base
    } else {
        let p = atime_after(base, obs.drop_last(), k);
        if obs.last().key() == k {
            if p >= obs.last().atime {
                p
            } else {
                obs.last().atime as int
            }
        } else {
            p
        }
    }
}

/// The pass count of `k`'s record after the batch, starting from `base`
/// (`0` for a record not yet present): one more per sighting, saturating.
pub open spec fn count_after(base: int, obs: Seq<ObsView>, k: KeyView) -> int
    decreases obs.len(),
{
    if obs.len() == 0 {
        base
    } else {
        let p = count_after(base, obs.drop_last(), k);
        if obs.last().key() == k {
            if p == u64::MAX {
                p
            } else {
                p + 1
            }
        } else {
            p
        }
    }
}

/// The size of `k`'s record after the batch: the last observed size, or
/// `base` if the batch never saw the file.
pub open spec fn size_after(base: u64, obs: Seq<ObsView>, k: KeyView) -> u64
    decreases obs.len(),
{
    if obs.len() == 0 {
        base
    } else {
        if obs.last().key() == k {
            obs.last().size
        } else {
            size_after(base, obs.drop_last(), k)
        }
    }
}

/// The access time a record starts a pass with.
pub open spec fn base_atime(s: Seq<EntryView>, k: KeyView) -> int {
    match lookup(s, k) {
        Some(m) => m.last_access_time as int,
        None => -1,
    }
}

/// The pass count a record starts a pass with.
pub open spec fn base_count(s: Seq<EntryView>, k: KeyView) -> int {
    match lookup(s, k) {
        Some(m) => m.access_count as int,
        None => 0,
    }
}

/// The size a record starts a pass with.
pub open spec fn base_size(s: Seq<EntryView>, k: KeyView) -> u64 {
    match lookup(s, k) {
        Some(m) => m.file_size,
        None => 0,
    }
}

/// The move stamp a record starts a pass with; a pass never changes it.
pub open spec fn base_ltm(s: Seq<EntryView>, k: KeyView) -> Option<u64> {
    match lookup(s, k) {
        Some(m) => m.last_tier_move,
        None => None,
    }
}

/// The record the characterization predicts for `k` after a pass.
pub open spec fn refreshed_record(s: Seq<EntryView>, obs: Seq<ObsView>, k: KeyView) -> FileMetadata {
    FileMetadata {
        last_access_time: atime_after(base_atime(s, k), obs, k) as u64,
        access_count: count_after(base_count(s, k), obs, k) as u64,
        file_size: size_after(base_size(s, k), obs, k),
        tier: k.tier,
        last_tier_move: base_ltm(s, k),
    }
}

/// Folding in one observation keeps the store well formed.
pub proof fn lemma_refresh_one_wf(s: Seq<EntryView>, o: ObsView)
    requires
        entries_wf(s),
    ensures
        entries_wf(refresh_one(s, o)),
{
    let k = o.key();
    let meta = match lookup(s, k) {
        Some(m) => m.spec_scanned(o.atime, o.size),
        None => FileMetadata::spec_fresh(o.tier, o.atime, o.size),
    };
    lemma_upsert_no_dup(s, k, meta);
    if contains_key(s, k) {
        let i = crate::store::key_index(s, k);
        assert(s[i].0 == k && s[i].1.wf() && s[i].1.tier == s[i].0.tier);
    }
    let r = spec_upsert(s, k, meta);
    assert forall|i: int| 0 <= i < r.len() implies (#[trigger] r[i]).1.wf() && r[i].1.tier
        == r[i].0.tier by {
        if r[i] != (k, meta) {
            assert(r[i] == s[i]);
        }
    }
}

/// A whole pass keeps the store well formed.
pub proof fn lemma_refresh_all_wf(s: Seq<EntryView>, obs: Seq<ObsView>)
    requires
        entries_wf(s),
    ensures
        entries_wf(refresh_all(s, obs)),
    decreases obs.len(),
{
    if obs.len() > 0 {
        lemma_refresh_all_wf(s, obs.drop_last());
        lemma_refresh_one_wf(refresh_all(s, obs.drop_last()), obs.last());
    }
}

/// A batch that never sees `k` leaves all of `k`'s figures at their base.
pub proof fn lemma_unobserved_folds(
    abase: int,
    cbase: int,
    sbase: u64,
    obs: Seq<ObsView>,
    k: KeyView,
)
    requires
        !observes(obs, k),
    ensures
        atime_after(abase, obs, k) == abase,
        count_after(cbase, obs, k) == cbase,
        size_after(sbase, obs, k) == sbase,
    decreases obs.len(),
{
    if obs.len() > 0 {
        lemma_unobserved_folds(abase, cbase, sbase, obs.drop_last(), k);
    }
}

/// The pass count never drops below its base and never leaves `u64`.
pub proof fn lemma_count_after_bounds(base: int, obs: Seq<ObsView>, k: KeyView)
    requires
        0 <= base <= u64::MAX,
    ensures
        base <= count_after(base, obs, k) <= u64::MAX,
    decreases obs.len(),
{
    if obs.len() > 0 {
        lemma_count_after_bounds(base, obs.drop_last(), k);
    }
}

/// The access time never drops below its base and never leaves `u64`;
/// once the batch has seen the file it is a real timestamp.
pub proof fn lemma_atime_after_bounds(base: int, obs: Seq<ObsView>, k: KeyView)
    requires
        -1 <= base <= u64::MAX,
    ensures
        base <= atime_after(base, obs, k) <= u64::MAX,
        observes(obs, k) || base >= 0 ==> atime_after(base, obs, k) >= 0,
    decreases obs.len(),
{
    if obs.len() > 0 {
        lemma_atime_after_bounds(base, obs.drop_last(), k);
    }
}

/// What a pass leaves in the store, record by record: a file the batch
/// never saw keeps its record (or stays absent); a file it saw carries the
/// folded access time, pass count and size, its key's tier, and its old
/// move stamp.
pub proof fn lemma_refresh_lookup(s: Seq<EntryView>, obs: Seq<ObsView>, k: KeyView)
    requires
        entries_wf(s),
    ensures
        contains_key(refresh_all(s, obs), k) == (contains_key(s, k) || observes(obs, k)),
        !observes(obs, k) ==> lookup(refresh_all(s, obs), k) == lookup(s, k),
        contains_key(s, k) || observes(obs, k) ==> lookup(refresh_all(s, obs), k) == Some(
            refreshed_record(s, obs, k),
        ),
    decreases obs.len(),
{
    lemma_atime_after_bounds(base_atime(s, k), obs, k);
    lemma_count_after_bounds(base_count(s, k), obs, k);
    if contains_key(s, k) {
        let i = crate::store::key_index(s, k);
        assert(s[i].0 == k && s[i].1.wf() && s[i].1.tier == s[i].0.tier);
    }
    if obs.len() == 0 {
    } else {
        let pre = obs.drop_last();
        let o = obs.last();
        let r1 = refresh_all(s, pre);
        let r = refresh_all(s, obs);
        lemma_refresh_lookup(s, pre, k);
        lemma_refresh_all_wf(s, pre);
        let k0 = o.key();
        let meta0 = match lookup(r1, k0) {
            Some(m) => m.spec_scanned(o.atime, o.size),
            None => FileMetadata::spec_fresh(o.tier, o.atime, o.size),
        };
        lemma_upsert_lookup(r1, k0, meta0, k);
        if k0 == k {
            if contains_key(s, k) || observes(pre, k) {
                let m1 = refreshed_record(s, pre, k);
                assert(lookup(r1, k) == Some(m1));
                lemma_atime_after_bounds(base_atime(s, k), pre, k);
                lemma_count_after_bounds(base_count(s, k), pre, k);
                assert(lookup(r, k) == Some(m1.spec_scanned(o.atime, o.size)));
                assert(m1.spec_scanned(o.atime, o.size) == refreshed_record(s, obs, k));
            } else {
                assert(lookup(r1, k) == lookup(s, k));
                assert(!contains_key(s, k));
                assert(lookup(r1, k) is None);
                lemma_unobserved_folds(
                    base_atime(s, k),
                    base_count(s, k),
                    base_size(s, k),
                    pre,
                    k,
                );
                assert(o.tier == k.tier);
                assert(lookup(r, k) == Some(FileMetadata::spec_fresh(o.tier, o.atime, o.size)));
                assert(FileMetadata::spec_fresh(o.tier, o.atime, o.size) == refreshed_record(
                    s,
                    obs,
                    k,
                ));
            }
        } else {
            assert(lookup(r, k) == lookup(r1, k));
            assert(observes(obs, k) == observes(pre, k));
            assert(atime_after(base_atime(s, k), obs, k) == atime_after(
                base_atime(s, k),
                pre,
                k,
            ));
            assert(count_after(base_count(s, k), obs, k) == count_after(
                base_count(s, k),
                pre,
                k,
            ));
            assert(size_after(base_size(s, k), obs, k) == size_after(base_size(s, k), pre, k));
        }
    }
}

/// Fold a batch of observations into the store: phase A of a scan pass.
#[verifier::loop_isolation(false)]
pub fn apply_scan(store: &mut MetadataStore, obs: &Vec<Observation>)
    requires
        old(store).wf(),
    ensures
        final(store).wf(),
        final(store)@ == refresh_all(old(store)@, obs_views(obs@)),
{
    let ghost s0 = store@;
    let ghost views = obs_views(obs@);
    let n = obs.len();
    let mut i: usize = 0;
    proof {
        assert(views.take(0) =~= Seq::<ObsView>::empty());
    }
    while i < n
        invariant
            store.wf(),
            i <= n,
            store@ == refresh_all(s0, views.take(i as int)),
        decreases n - i,
    {
        let o = &obs[i];
        let key = o.key();
        let ghost vpre = views.take(i as int);
        let ghost vpost = views.take(i + 1 as int);
        proof {
            assert(vpost.drop_last() =~= vpre);
            assert(vpost.last() == obs@[i as int]@);
        }
        match store.get(&key) {
            Some(m) => {
                proof {
                    let ki = crate::store::key_index(store@, key@);
                    assert(store@[ki].0 == key@ && store@[ki].1.wf() && store@[ki].1.tier
                        == store@[ki].0.tier);
                }
                let updated = m.scanned(o.atime, o.size);
                store.upsert(key, updated);
            },
            None => {
                let fresh = FileMetadata::fresh(o.tier, o.atime, o.size);
                store.upsert(key, fresh);
            },
        }
        proof {
            assert(store@ == refresh_one(refresh_all(s0, vpre), vpost.last()));
            assert(store@ == refresh_all(s0, vpost));
        }
        i = i + 1;
    }
    proof {
        assert(views.take(n as int) =~= views);
    }
}

} // verus!
