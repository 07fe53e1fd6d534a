//! The reconciler: a slow full sweep that repairs the store against the
//! filesystem truth. It inserts a record for every file the walk found that
//! the store misses, and drops every record whose backing file is gone. It
//! never enqueues moves.
//!
//! A record whose stored tier disagrees with where its file really lives is
//! repaired by the two phases together: the file's real location gains a
//! fresh record and the stale key loses its record.

use vstd::prelude::*;
use crate::engine::TieringEngine;
use crate::file_metadata::{FileMetadata, ObsView, Observation};
use crate::paths::KeyView;
use crate::scan::obs_views;
use crate::store::{
    contains_key, key_in_list, key_views, retained, spec_upsert, EntryView, MetadataStore,
};

verus! {

/// The keys of every observed file.
pub open spec fn obs_keys(obs: Seq<ObsView>) -> Seq<KeyView> {
    obs.map_values(|o: ObsView| o.key())
}

/// Forward reconciliation of one observation: a file the store does not
/// know gains a fresh record; a known file keeps its record untouched.
pub open spec fn reconcile_one(s: Seq<EntryView>, o: ObsView) -> Seq<EntryView> {
    if contains_key(s, o.key()) {
        s
    } else {
        s.push((o.key(), FileMetadata::spec_fresh(o.tier, o.atime, o.size)))
    }
}

/// Forward reconciliation of a whole walk, in order.
pub open spec fn reconcile_forward(s: Seq<EntryView>, obs: Seq<ObsView>) -> Seq<EntryView>
    decreases obs.len(),
{
    if obs.len() == 0 {
        s
    } else {
        reconcile_one(reconcile_forward(s, obs.drop_last()), obs.last())
    }
}

/// A whole reconciler pass: insert what the walk found and the store
/// missed, then drop every record the walk did not see.
pub open spec fn reconcile_model(s: Seq<EntryView>, obs: Seq<ObsView>) -> Seq<EntryView> {
    retained(reconcile_forward(s, obs), obs_keys(obs))
}

/// Forward reconciliation never loses a record.
proof fn lemma_forward_keeps(s: Seq<EntryView>, obs: Seq<ObsView>, k: KeyView)
    requires
        contains_key(s, k),
    ensures
        contains_key(reconcile_forward(s, obs), k),
    decreases obs.len(),
{
    if obs.len() > 0 {
        let pre = reconcile_forward(s, obs.drop_last());
        lemma_forward_keeps(s, obs.drop_last(), k);
        let i = choose|i: int| 0 <= i < pre.len() && pre[i].0 == k;
        assert(reconcile_forward(s, obs)[i].0 == k);
    }
}

/// After forward reconciliation every observed file has a record.
proof fn lemma_forward_covers(s: Seq<EntryView>, obs: Seq<ObsView>, k: KeyView)
    requires
        key_in_list(obs_keys(obs), k),
    ensures
        contains_key(reconcile_forward(s, obs), k),
    decreases obs.len(),
{
    let i = choose|i: int| 0 <= i < obs_keys(obs).len() && obs_keys(obs)[i] == k;
    assert(obs[i].key() == k);
    let pre = reconcile_forward(s, obs.drop_last());
    let r = reconcile_forward(s, obs);
    if i < obs.len() - 1 {
        assert(obs_keys(obs.drop_last())[i] == k);
        lemma_forward_covers(s, obs.drop_last(), k);
        let j = choose|j: int| 0 <= j < pre.len() && pre[j].0 == k;
        assert(r[j].0 == k);
    } else {
        assert(obs.last().key() == k);
        if contains_key(pre, obs.last().key()) {
            let j = choose|j: int| 0 <= j < pre.len() && pre[j].0 == k;
            assert(r[j].0 == k);
        } else {
            assert(r[r.len() - 1].0 == k);
        }
    }
}

/// Law: convergence. After a reconciler pass over a quiet filesystem the
/// store holds a record exactly for the files the walk observed.
pub proof fn lemma_reconcile_convergence(s: Seq<EntryView>, obs: Seq<ObsView>, k: KeyView)
    ensures
        contains_key(reconcile_model(s, obs), k) <==> key_in_list(obs_keys(obs), k),
{
    broadcast use vstd::seq_lib::group_filter_ensures;

    let fwd = reconcile_forward(s, obs);
    let r = reconcile_model(s, obs);
    if contains_key(r, k) {
        let i = choose|i: int| 0 <= i < r.len() && r[i].0 == k;
        assert(key_in_list(obs_keys(obs), r[i].0)) by {
            fwd.lemma_filter_pred(|e: EntryView| key_in_list(obs_keys(obs), e.0), i);
        }
    }
    if key_in_list(obs_keys(obs), k) {
        lemma_forward_covers(s, obs, k);
        crate::store::lemma_retained_contains(fwd, obs_keys(obs), k);
    }
}

/// Fold one observation into the store the forward way.
fn reconcile_observation(store: &mut MetadataStore, o: &Observation)
    requires
        old(store).wf(),
    ensures
        final(store).wf(),
        final(store)@ == reconcile_one(old(store)@, o@),
{
    let key = o.key();
    match store.find(&key) {
        Some(_) => {},
        None => {
            let fresh = FileMetadata::fresh(o.tier, o.atime, o.size);
            store.upsert(key, fresh);
            proof {
                assert(store@ == spec_upsert(old(store)@, o@.key(), fresh));
            }
        },
    }
}

/// One reconciler pass over the store, against what a walk over the tier
/// roots observed.
#[verifier::loop_isolation(false)]
pub fn reconcile(store: &mut MetadataStore, obs: &Vec<Observation>)
    requires
        old(store).wf(),
    ensures
        final(store).wf(),
        final(store)@ == reconcile_model(old(store)@, obs_views(obs@)),
{
    let ghost s0 = store@;
    let ghost views = obs_views(obs@);
    let n = obs.len();
    let mut i: usize = 0;
    proof {
        assert(views.take(0) =~= Seq::<ObsView>::empty());
    }
    while i < n
        invariant
            store.wf(),
            i <= n,
            store@ == reconcile_forward(s0, views.take(i as int)),
        decreases n - i,
    {
        proof {
            assert(views.take(i + 1 as int).drop_last() =~= views.take(i as int));
            assert(views.take(i + 1 as int).last() == obs@[i as int]@);
        }
        reconcile_observation(store, &obs[i]);
        i = i + 1;
    }
    proof {
        assert(views.take(n as int) =~= views);
    }
    let mut keep: Vec<crate::paths::FileKey> = Vec::new();
    let mut j: usize = 0;
    proof {
        assert(key_views(keep@) =~= obs_keys(views.take(0)));
    }
    while j < n
        invariant
            j <= n,
            key_views(keep@) == obs_keys(views.take(j as int)),
        decreases n - j,
    {
        let ghost kpre = keep@;
        keep.push(obs[j].key());
        proof {
            assert(key_views(keep@) =~= key_views(kpre).push(obs@[j as int]@.key()));
            assert(obs_keys(views.take(j + 1 as int)) =~= obs_keys(views.take(j as int)).push(
                views[j as int].key(),
            ));
            assert(obs@[j as int]@.key() == views[j as int].key());
            assert(key_views(keep@) =~= obs_keys(views.take(j + 1 as int)));
        }
        j = j + 1;
    }
    proof {
        assert(views.take(n as int) =~= views);
    }
    store.retain_keys(&keep);
}

impl TieringEngine {
    /// One reconciler pass: repair the store against the walk. The queues
    /// and the tasks in flight are untouched; the reconciler never enqueues
    /// moves.
    pub fn reconcile_pass(&mut self, obs: &Vec<Observation>)
        requires
            old(self).wf(),
        ensures
            final(self).wf(),
            final(self).config == old(self).config,
            final(self).avail == old(self).avail,
            final(self).mqv() == old(self).mqv(),
            final(self).rqv() == old(self).rqv(),
            final(self).actv() == old(self).actv(),
            final(self).store@ == reconcile_model(old(self).store@, obs_views(obs@)),
    {
        reconcile(&mut self.store, obs);
    }
}

} // verus!
