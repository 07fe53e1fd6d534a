//! The global laws of the engine, each proved from the models its
//! transitions are specified against.

use vstd::prelude::*;
use crate::engine::TieringEngine;
use crate::file_metadata::{ObsView, TaskView};
use crate::paths::{key_tier, lemma_key_path_partition, KeyView};
use crate::scan::{
    base_count, lemma_count_after_bounds, lemma_refresh_all_wf, lemma_refresh_lookup, observes,
    atime_after, count_after, refresh_all, refreshed_record, size_after,
};
use crate::store::{contains_key, entries_wf, key_index, lookup, EntryView};

verus! {

/// Law: partition. In a well-formed store, every record's tier is the tier
/// named by the first path segment of the path its key renders to.
pub proof fn lemma_store_partition(s: Seq<EntryView>, k: KeyView)
    requires
        entries_wf(s),
        contains_key(s, k),
    ensures
        key_tier(k.path()) == Some(lookup(s, k)->Some_0.tier),
{
    let i = key_index(s, k);
    assert(s[i].0 == k && s[i].1.tier == s[i].0.tier);
    lemma_key_path_partition(k);
}

/// The store after a finite sequence of scan passes, each with its own
/// batch of observations.
pub open spec fn scans_all(s: Seq<EntryView>, passes: Seq<Seq<ObsView>>) -> Seq<EntryView>
    decreases passes.len(),
{
    if passes.len() == 0 {
        s
    } else {
        refresh_all(scans_all(s, passes.drop_last()), passes.last())
    }
}

/// Scan passes keep the store well formed.
pub proof fn lemma_scans_all_wf(s: Seq<EntryView>, passes: Seq<Seq<ObsView>>)
    requires
        entries_wf(s),
    ensures
        entries_wf(scans_all(s, passes)),
    decreases passes.len(),
{
    if passes.len() > 0 {
        lemma_scans_all_wf(s, passes.drop_last());
        lemma_refresh_all_wf(scans_all(s, passes.drop_last()), passes.last());
    }
}

/// Law: monotonicity. Across any finite sequence of scan passes, a record
/// that is present at the start stays present and its pass count never
/// decreases.
pub proof fn lemma_access_count_monotone(
    s: Seq<EntryView>,
    passes: Seq<Seq<ObsView>>,
    k: KeyView,
)
    requires
        entries_wf(s),
        contains_key(s, k),
    ensures
        contains_key(scans_all(s, passes), k),
        lookup(scans_all(s, passes), k)->Some_0.access_count >= lookup(s, k)->Some_0.access_count,
    decreases passes.len(),
{
    if passes.len() > 0 {
        let mid = scans_all(s, passes.drop_last());
        lemma_access_count_monotone(s, passes.drop_last(), k);
        lemma_scans_all_wf(s, passes.drop_last());
        lemma_refresh_lookup(mid, passes.last(), k);
        lemma_count_after_bounds(base_count(mid, k), passes.last(), k);
    }
}

/// All tasks anywhere in the system: on the move queue, on the retry queue,
/// or in a mover's hands.
pub open spec fn all_tasks(e: TieringEngine) -> Seq<TaskView> {
    e.mqv() + e.rqv() + e.actv()
}

/// The tasks among `q` that are about the path `src`.
pub open spec fn tasks_for(q: Seq<TaskView>, src: Seq<char>) -> Seq<TaskView> {
    q.filter(|t: TaskView| t.src == src)
}

/// On a queue whose tasks are about distinct paths, at most one task is
/// about any given path, and none is about a path the queue does not hold.
proof fn lemma_tasks_for_distinct(q: Seq<TaskView>, src: Seq<char>)
    requires
        crate::engine::srcs_distinct(q),
    ensures
        tasks_for(q, src).len() <= 1,
        !crate::engine::src_in(q, src) ==> tasks_for(q, src).len() == 0,
    decreases q.len(),
{
    reveal(Seq::filter);
    if q.len() > 0 {
        let pre = q.drop_last();
        assert(crate::engine::srcs_distinct(pre)) by {
            assert(forall|i: int| 0 <= i < pre.len() ==> pre[i] == q[i]);
        }
        lemma_tasks_for_distinct(pre, src);
        if q.last().src == src {
            assert(!crate::engine::src_in(pre, src)) by {
                if crate::engine::src_in(pre, src) {
                    let i = choose|i: int| 0 <= i < pre.len() && pre[i].src == src;
                    assert(q[i].src == q[q.len() - 1].src);
                }
            }
        } else {
            if crate::engine::src_in(q, src) {
                let i = choose|i: int| 0 <= i < q.len() && q[i].src == src;
                assert(pre[i].src == src);
            }
        }
    }
}

/// Law: at most one in flight. For any path, the move queue, the retry
/// queue and the movers together hold at most one task about it.
pub proof fn lemma_at_most_one_in_flight(e: TieringEngine, src: Seq<char>)
    requires
        e.wf(),
    ensures
        tasks_for(all_tasks(e), src).len() <= 1,
{
    broadcast use vstd::seq_lib::group_filter_ensures;

    let pred = |t: TaskView| t.src == src;
    Seq::filter_distributes_over_add(e.mqv() + e.rqv(), e.actv(), pred);
    Seq::filter_distributes_over_add(e.mqv(), e.rqv(), pred);
    lemma_tasks_for_distinct(e.mqv(), src);
    lemma_tasks_for_distinct(e.rqv(), src);
    lemma_tasks_for_distinct(e.actv(), src);
    if crate::engine::src_in(e.mqv(), src) {
        assert(!crate::engine::src_in(e.rqv(), src)) by {
            let i = choose|i: int| 0 <= i < e.mqv().len() && e.mqv()[i].src == src;
            if crate::engine::src_in(e.rqv(), src) {
                let j = choose|j: int| 0 <= j < e.rqv().len() && e.rqv()[j].src == src;
                assert(e.mqv()[i].src != e.rqv()[j].src);
            }
        }
        assert(!crate::engine::src_in(e.actv(), src)) by {
            let i = choose|i: int| 0 <= i < e.mqv().len() && e.mqv()[i].src == src;
            if crate::engine::src_in(e.actv(), src) {
                let j = choose|j: int| 0 <= j < e.actv().len() && e.actv()[j].src == src;
                assert(e.mqv()[i].src != e.actv()[j].src);
            }
        }
    } else if crate::engine::src_in(e.rqv(), src) {
        assert(!crate::engine::src_in(e.actv(), src)) by {
            let i = choose|i: int| 0 <= i < e.rqv().len() && e.rqv()[i].src == src;
            if crate::engine::src_in(e.actv(), src) {
                let j = choose|j: int| 0 <= j < e.actv().len() && e.actv()[j].src == src;
                assert(e.rqv()[i].src != e.actv()[j].src);
            }
        }
    }
}

/// The folded access time only grows along a batch, and ends at least as
/// large as every access time the batch observed for the file.
proof fn lemma_atime_after_ge_obs(base: int, obs: Seq<ObsView>, k: KeyView)
    ensures
        atime_after(base, obs, k) >= base,
        forall|i: int|
            0 <= i < obs.len() && (#[trigger] obs[i]).key() == k ==> atime_after(base, obs, k)
                >= obs[i].atime,
    decreases obs.len(),
{
    if obs.len() > 0 {
        lemma_atime_after_ge_obs(base, obs.drop_last(), k);
        assert(forall|i: int| 0 <= i < obs.len() - 1 ==> obs[i] == obs.drop_last()[i]);
    }
}

/// A base at least as large as every observed access time absorbs the
/// whole batch.
proof fn lemma_atime_after_absorbed(base: int, obs: Seq<ObsView>, k: KeyView)
    requires
        forall|i: int|
            0 <= i < obs.len() && (#[trigger] obs[i]).key() == k ==> base >= obs[i].atime,
    ensures
        atime_after(base, obs, k) == base,
    decreases obs.len(),
{
    if obs.len() > 0 {
        assert(forall|i: int| 0 <= i < obs.len() - 1 ==> obs[i] == obs.drop_last()[i]);
        lemma_atime_after_absorbed(base, obs.drop_last(), k);
    }
}

/// Once a batch has seen the file, the folded size does not depend on the
/// base.
proof fn lemma_size_after_observed(b1: u64, b2: u64, obs: Seq<ObsView>, k: KeyView)
    requires
        observes(obs, k),
    ensures
        size_after(b1, obs, k) == size_after(b2, obs, k),
    decreases obs.len(),
{
    if obs.len() > 0 && obs.last().key() != k {
        lemma_size_after_observed(b1, b2, obs.drop_last(), k);
    }
}

/// Law: idempotence. Scanning the same observations twice leaves the same
/// store as scanning them once, except that pass counts go up again.
pub proof fn lemma_scan_idempotent(s: Seq<EntryView>, obs: Seq<ObsView>, k: KeyView)
    requires
        entries_wf(s),
    ensures
        ({
            let s1 = refresh_all(s, obs);
            let s2 = refresh_all(s1, obs);
            &&& contains_key(s2, k) == contains_key(s1, k)
            &&& contains_key(s1, k) ==> {
                let m1 = lookup(s1, k)->Some_0;
                let m2 = lookup(s2, k)->Some_0;
                &&& m2.last_access_time == m1.last_access_time
                &&& m2.file_size == m1.file_size
                &&& m2.tier == m1.tier
                &&& m2.last_tier_move == m1.last_tier_move
                &&& m2.access_count == count_after(m1.access_count as int, obs, k)
                &&& m2.access_count >= m1.access_count
            }
        }),
{
    let s1 = refresh_all(s, obs);
    let s2 = refresh_all(s1, obs);
    lemma_refresh_all_wf(s, obs);
    lemma_refresh_lookup(s, obs, k);
    lemma_refresh_lookup(s1, obs, k);
    if contains_key(s1, k) {
        let m1 = lookup(s1, k)->Some_0;
        let m2 = lookup(s2, k)->Some_0;
        if observes(obs, k) {
            assert(m1 == refreshed_record(s, obs, k));
            assert(m2 == refreshed_record(s1, obs, k));
            crate::scan::lemma_atime_after_bounds(crate::scan::base_atime(s, k), obs, k);
            lemma_atime_after_ge_obs(crate::scan::base_atime(s, k), obs, k);
            assert(crate::scan::base_atime(s1, k) == m1.last_access_time as int);
            lemma_atime_after_absorbed(m1.last_access_time as int, obs, k);
            lemma_size_after_observed(crate::scan::base_size(s, k), crate::scan::base_size(s1, k), obs, k);
            lemma_count_after_bounds(base_count(s1, k), obs, k);
        } else {
            crate::scan::lemma_unobserved_folds(
                m1.last_access_time as int,
                m1.access_count as int,
                m1.file_size,
                obs,
                k,
            );
        }
    }
}

} // verus!
