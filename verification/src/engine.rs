//! The tiering engine: the store, the move and retry queues, and the tasks
//! currently held by movers, with the transitions the daemon's loops drive.
//!
//! The engine is sequential; the daemon serializes access to it and performs
//! the blocking work (walks, the copy tool, timers) outside, handing back
//! plain observations and events.

use vstd::prelude::*;
use crate::file_metadata::{FileMoveInfo, Observation, TaskView};
use crate::paths::{FileKey, KeyView};
use crate::policy::{
    cand_views, promotion_eligible, select_demotions, spec_over_capacity,
    spec_promotion_eligible, spec_select_demotions, tier_over_capacity, CandView, Config,
};
use crate::scan::{apply_scan, obs_views, refresh_all};
use crate::store::{
    contains_key, key_index, lookup, spec_remove, spec_upsert, EntryView, MetadataStore,
};
use crate::tier::{Tier, TierAvailability};
use crate::MAX_RETRIES;
use crate::DEMOTE_BATCH;

verus! {

/// The views of the tasks on a queue.
pub open spec fn task_views(q: Seq<FileMoveInfo>) -> Seq<TaskView> {
    q.map_values(|t: FileMoveInfo| t@)
}

/// Whether some task on `q` is about the path `src`.
pub open spec fn src_in(q: Seq<TaskView>, src: Seq<char>) -> bool {
    exists|i: int| 0 <= i < q.len() && q[i].src == src
}

/// No two tasks on `q` are about the same path.
pub open spec fn srcs_distinct(q: Seq<TaskView>) -> bool {
    forall|i: int, j: int| 0 <= i < j < q.len() ==> q[i].src != q[j].src
}

/// No task on `a` shares its path with a task on `b`.
pub open spec fn srcs_disjoint(a: Seq<TaskView>, b: Seq<TaskView>) -> bool {
    forall|i: int, j: int|
        0 <= i < a.len() && 0 <= j < b.len() ==> (#[trigger] a[i]).src != (#[trigger] b[j]).src
}

/// Every task on `q` is within its retry budget.
pub open spec fn retries_bounded(q: Seq<TaskView>) -> bool {
    forall|i: int| 0 <= i < q.len() ==> (#[trigger] q[i]).retries <= MAX_RETRIES
}

/// How the hot, warm and cold tier roots are filled, as a statfs-style
/// sample of used and total blocks per tier.
#[derive(Clone, Copy, Debug, PartialEq, Eq, Structural)]
pub struct TierUsage {
    pub used: u64,
    pub total: u64,
}

#[derive(Clone, Copy, Debug, PartialEq, Eq, Structural)]
pub struct UsageSample {
    pub hot: TierUsage,
    pub warm: TierUsage,
    pub cold: TierUsage,
}

/// What became of a task handed to `enqueue_move`.
#[derive(Clone, Copy, Debug, PartialEq, Eq, Structural)]
pub enum EnqueueOutcome {
    /// The task is now on the move queue.
    Enqueued,
    /// A task for the same path is already in flight.
    SkippedInFlight,
    /// The target tier has no eligible devices; the task is dropped.
    DroppedNoDevice,
}

/// What a retry step did.
pub enum RetryOutcome {
    /// The task went back to the move queue with one more retry on it.
    Requeued(FileMoveInfo),
    /// The task exhausted its retries and was dropped for good; the daemon
    /// logs it as a permanent failure.
    GaveUp(FileMoveInfo),
    /// The retry queue was empty.
    Idle,
}

/// The tiering engine.
pub struct TieringEngine {
    pub config: Config,
    pub avail: TierAvailability,
    pub store: MetadataStore,
    pub move_queue: Vec<FileMoveInfo>,
    pub retry_queue: Vec<FileMoveInfo>,
    pub active: Vec<FileMoveInfo>,
}

/// What the model predicts `enqueue_move` does to the move queue.
pub open spec fn spec_enqueue(
    mq: Seq<TaskView>,
    rq: Seq<TaskView>,
    act: Seq<TaskView>,
    avail: TierAvailability,
    t: TaskView,
) -> Seq<TaskView> {
    if !avail.spec_available(t.target_tier) {
        mq
    } else if src_in(mq, t.src) || src_in(rq, t.src) || src_in(act, t.src) {
        mq
    } else {
        mq.push(t)
    }
}

/// The move queue after a whole batch of tasks is offered to it in order.
pub open spec fn spec_enqueue_all(
    mq: Seq<TaskView>,
    rq: Seq<TaskView>,
    act: Seq<TaskView>,
    avail: TierAvailability,
    ts: Seq<TaskView>,
) -> Seq<TaskView>
    decreases ts.len(),
{
    if ts.len() == 0 {
        mq
    } else {
        spec_enqueue(spec_enqueue_all(mq, rq, act, avail, ts.drop_last()), rq, act, avail, ts.last())
    }
}

impl TieringEngine {
    pub open spec fn mqv(self) -> Seq<TaskView> {
        task_views(self.move_queue@)
    }

    pub open spec fn rqv(self) -> Seq<TaskView> {
        task_views(self.retry_queue@)
    }

    pub open spec fn actv(self) -> Seq<TaskView> {
        task_views(self.active@)
    }

    /// Whether a task for `src` is anywhere in the system: on either queue
    /// or in a mover's hands.
    pub open spec fn in_flight(self, src: Seq<char>) -> bool {
        src_in(self.mqv(), src) || src_in(self.rqv(), src) || src_in(self.actv(), src)
    }

    /// The engine's invariant: the store is well formed, the configuration
    /// is valid, every task is within its retry budget, and no two tasks
    /// anywhere are about the same path.
    pub open spec fn wf(self) -> bool {
        &&& self.store.wf()
        &&& self.config.wf()
        &&& retries_bounded(self.mqv())
        &&& retries_bounded(self.rqv())
        &&& retries_bounded(self.actv())
        &&& srcs_distinct(self.mqv())
        &&& srcs_distinct(self.rqv())
        &&& srcs_distinct(self.actv())
        &&& srcs_disjoint(self.mqv(), self.rqv())
        &&& srcs_disjoint(self.mqv(), self.actv())
        &&& srcs_disjoint(self.rqv(), self.actv())
    }

    /// A fresh engine over an empty store.
    pub fn new(config: Config, avail: TierAvailability) -> (r: TieringEngine)
        requires
            config.wf(),
        ensures
            r.wf(),
            r.config == config,
            r.avail == avail,
            r.store@ =~= Seq::<EntryView>::empty(),
            r.mqv() =~= Seq::<TaskView>::empty(),
            r.rqv() =~= Seq::<TaskView>::empty(),
            r.actv() =~= Seq::<TaskView>::empty(),
    {
        let r = TieringEngine {
            config,
            avail,
            store: MetadataStore::new(),
            move_queue: Vec::new(),
            retry_queue: Vec::new(),
            active: Vec::new(),
        };
        proof {
            assert(r.mqv() =~= Seq::<TaskView>::empty());
            assert(r.rqv() =~= Seq::<TaskView>::empty());
            assert(r.actv() =~= Seq::<TaskView>::empty());
        }
        r
    }
}

/// Whether some task on `q` is about the path `src`.
fn vec_has_src(q: &Vec<FileMoveInfo>, src: &String) -> (r: bool)
    ensures
        r == src_in(task_views(q@), src@),
{
    let n = q.len();
    let mut i: usize = 0;
    while i < n
        invariant
            n == q@.len(),
            i <= n,
            forall|j: int| 0 <= j < i ==> task_views(q@)[j].src != src@,
        decreases n - i,
    {
        if q[i].src == *src {
            proof {
                assert(task_views(q@)[i as int].src == src@);
            }
            return true;
        }
        i = i + 1;
    }
    false
}

impl TieringEngine {
    /// Whether a task for `src` is anywhere in the system.
    pub fn is_in_flight(&self, src: &String) -> (r: bool)
        ensures
            r == self.in_flight(src@),
    {
        vec_has_src(&self.move_queue, src) || vec_has_src(&self.retry_queue, src) || vec_has_src(
            &self.active,
            src,
        )
    }

    /// Offer a fresh task to the move queue. It is dropped when its target
    /// tier has no devices, skipped when a task for the same path is already
    /// in flight, and enqueued otherwise.
    pub fn enqueue_move(&mut self, task: FileMoveInfo) -> (r: EnqueueOutcome)
        requires
            old(self).wf(),
            task@.retries == 0,
        ensures
            final(self).wf(),
            final(self).config == old(self).config,
            final(self).avail == old(self).avail,
            final(self).store == old(self).store,
            final(self).rqv() == old(self).rqv(),
            final(self).actv() == old(self).actv(),
            final(self).mqv() == spec_enqueue(
                old(self).mqv(),
                old(self).rqv(),
                old(self).actv(),
                old(self).avail,
                task@,
            ),
            r == EnqueueOutcome::DroppedNoDevice <==> !old(self).avail.spec_available(
                task@.target_tier,
            ),
            r == EnqueueOutcome::SkippedInFlight <==> old(self).avail.spec_available(
                task@.target_tier,
            ) && old(self).in_flight(task@.src),
            r == EnqueueOutcome::Enqueued <==> old(self).avail.spec_available(task@.target_tier)
                && !old(self).in_flight(task@.src),
    {
        if !self.avail.available(task.target_tier) {
            return EnqueueOutcome::DroppedNoDevice;
        }
        if self.is_in_flight(&task.src) {
            return EnqueueOutcome::SkippedInFlight;
        }
        let ghost mq0 = self.mqv();
        let ghost t = task@;
        self.move_queue.push(task);
        proof {
            assert(self.mqv() =~= mq0.push(t));
            assert forall|i: int, j: int| 0 <= i < j < self.mqv().len() implies self.mqv()[i].src
                != self.mqv()[j].src by {
                if j < mq0.len() {
                    assert(self.mqv()[i] == mq0[i] && self.mqv()[j] == mq0[j]);
                } else {
                    assert(self.mqv()[j] == t);
                    assert(self.mqv()[i] == mq0[i]);
                    assert(!src_in(mq0, t.src));
                }
            }
            assert(srcs_disjoint(self.mqv(), self.rqv())) by {
                assert forall|i: int, j: int|
                    0 <= i < self.mqv().len() && 0 <= j < self.rqv().len() implies (
                #[trigger] self.mqv()[i]).src != (#[trigger] self.rqv()[j]).src by {
                    if i < mq0.len() {
                        assert(self.mqv()[i] == mq0[i]);
                    } else {
                        assert(self.mqv()[i] == t);
                        assert(!src_in(self.rqv(), t.src));
                    }
                }
            }
            assert(srcs_disjoint(self.mqv(), self.actv())) by {
                assert forall|i: int, j: int|
                    0 <= i < self.mqv().len() && 0 <= j < self.actv().len() implies (
                #[trigger] self.mqv()[i]).src != (#[trigger] self.actv()[j]).src by {
                    if i < mq0.len() {
                        assert(self.mqv()[i] == mq0[i]);
                    } else {
                        assert(self.mqv()[i] == t);
                        assert(!src_in(self.actv(), t.src));
                    }
                }
            }
        }
        EnqueueOutcome::Enqueued
    }

    /// Hand the oldest queued task to a mover. The task a mover receives
    /// never exceeds the retry budget.
    pub fn next_move(&mut self) -> (r: Option<FileMoveInfo>)
        requires
            old(self).wf(),
        ensures
            final(self).wf(),
            final(self).config == old(self).config,
            final(self).avail == old(self).avail,
            final(self).store == old(self).store,
            final(self).rqv() == old(self).rqv(),
            old(self).mqv().len() == 0 ==> r is None && final(self).mqv() == old(self).mqv()
                && final(self).actv() == old(self).actv(),
            old(self).mqv().len() > 0 ==> {
                &&& r is Some
                &&& r->Some_0@ == old(self).mqv()[0]
                &&& r->Some_0@.retries <= MAX_RETRIES
                &&& final(self).mqv() == old(self).mqv().drop_first()
                &&& final(self).actv() == old(self).actv().push(old(self).mqv()[0])
            },
    {
        if self.move_queue.len() == 0 {
            return None;
        }
        let ghost mq0 = self.mqv();
        let ghost act0 = self.actv();
        let task = self.move_queue.remove(0);
        let out = task.clone();
        self.active.push(task);
        proof {
            assert(self.mqv() =~= mq0.drop_first());
            assert(self.actv() =~= act0.push(mq0[0]));
            assert forall|i: int, j: int| 0 <= i < j < self.actv().len() implies self.actv()[i].src
                != self.actv()[j].src by {
                if j < act0.len() {
                    assert(self.actv()[i] == act0[i] && self.actv()[j] == act0[j]);
                } else {
                    assert(self.actv()[j] == mq0[0]);
                    assert(self.actv()[i] == act0[i]);
                }
            }
            assert forall|i: int, j: int|
                0 <= i < self.mqv().len() && 0 <= j < self.actv().len() implies (
            #[trigger] self.mqv()[i]).src != (#[trigger] self.actv()[j]).src by {
                assert(self.mqv()[i] == mq0[i + 1]);
                if j < act0.len() {
                    assert(self.actv()[j] == act0[j]);
                } else {
                    assert(self.actv()[j] == mq0[0]);
                }
            }
            assert forall|i: int, j: int|
                0 <= i < self.rqv().len() && 0 <= j < self.actv().len() implies (
            #[trigger] self.rqv()[i]).src != (#[trigger] self.actv()[j]).src by {
                if j < act0.len() {
                    assert(self.actv()[j] == act0[j]);
                } else {
                    assert(self.actv()[j] == mq0[0]);
                }
            }
            assert forall|i: int, j: int|
                0 <= i < self.mqv().len() && 0 <= j < self.rqv().len() implies (
            #[trigger] self.mqv()[i]).src != (#[trigger] self.rqv()[j]).src by {
                assert(self.mqv()[i] == mq0[i + 1]);
            }
        }
        Some(out)
    }

    /// One step of the retry worker: take the oldest task off the retry
    /// queue; within the budget it goes back to the move queue with one more
    /// retry on it, beyond the budget it is dropped for good.
    pub fn retry_step(&mut self) -> (r: RetryOutcome)
        requires
            old(self).wf(),
        ensures
            final(self).wf(),
            final(self).config == old(self).config,
            final(self).avail == old(self).avail,
            final(self).store == old(self).store,
            final(self).actv() == old(self).actv(),
            old(self).rqv().len() == 0 ==> r is Idle && final(self).mqv() == old(self).mqv()
                && final(self).rqv() == old(self).rqv(),
            old(self).rqv().len() > 0 ==> {
                &&& final(self).rqv() == old(self).rqv().drop_first()
                &&& (old(self).rqv()[0].retries < MAX_RETRIES ==> {
                    &&& r is Requeued
                    &&& r->Requeued_0@ == (TaskView {
                        retries: (old(self).rqv()[0].retries + 1) as u32,
                        ..old(self).rqv()[0]
                    })
                    &&& final(self).mqv() == old(self).mqv().push(r->Requeued_0@)
                })
                &&& (old(self).rqv()[0].retries >= MAX_RETRIES ==> {
                    &&& r is GaveUp
                    &&& r->GaveUp_0@ == old(self).rqv()[0]
                    &&& final(self).mqv() == old(self).mqv()
                })
            },
    {
        if self.retry_queue.len() == 0 {
            return RetryOutcome::Idle;
        }
        let ghost mq0 = self.mqv();
        let ghost rq0 = self.rqv();
        let task = self.retry_queue.remove(0);
        proof {
            assert(self.rqv() =~= rq0.drop_first());
            assert forall|i: int, j: int| 0 <= i < j < self.rqv().len() implies self.rqv()[i].src
                != self.rqv()[j].src by {
                assert(self.rqv()[i] == rq0[i + 1] && self.rqv()[j] == rq0[j + 1]);
            }
            assert forall|i: int, j: int|
                0 <= i < self.mqv().len() && 0 <= j < self.rqv().len() implies (
            #[trigger] self.mqv()[i]).src != (#[trigger] self.rqv()[j]).src by {
                assert(self.rqv()[j] == rq0[j + 1]);
            }
            assert forall|i: int, j: int|
                0 <= i < self.rqv().len() && 0 <= j < self.actv().len() implies (
            #[trigger] self.rqv()[i]).src != (#[trigger] self.actv()[j]).src by {
                assert(self.rqv()[i] == rq0[i + 1]);
            }
        }
        if task.retries < MAX_RETRIES {
            let again = task.retried();
            let ghost t = again@;
            let copy = again.clone();
            self.move_queue.push(again);
            proof {
                assert(self.mqv() =~= mq0.push(t));
                assert(t.src == rq0[0].src);
                assert forall|i: int, j: int| 0 <= i < j < self.mqv().len() implies self.mqv()[i].src
                    != self.mqv()[j].src by {
                    if j < mq0.len() {
                        assert(self.mqv()[i] == mq0[i] && self.mqv()[j] == mq0[j]);
                    } else {
                        assert(self.mqv()[j] == t);
                        assert(self.mqv()[i] == mq0[i]);
                        assert(mq0[i].src != rq0[0].src);
                    }
                }
                assert forall|i: int, j: int|
                    0 <= i < self.mqv().len() && 0 <= j < self.rqv().len() implies (
                #[trigger] self.mqv()[i]).src != (#[trigger] self.rqv()[j]).src by {
                    assert(self.rqv()[j] == rq0[j + 1]);
                    if i < mq0.len() {
                        assert(self.mqv()[i] == mq0[i]);
                    } else {
                        assert(self.mqv()[i] == t);
                    }
                }
                assert forall|i: int, j: int|
                    0 <= i < self.mqv().len() && 0 <= j < self.actv().len() implies (
                #[trigger] self.mqv()[i]).src != (#[trigger] self.actv()[j]).src by {
                    if i < mq0.len() {
                        assert(self.mqv()[i] == mq0[i]);
                    } else {
                        assert(self.mqv()[i] == t);
                        assert(!src_in(self.actv(), rq0[0].src));
                    }
                }
            }
            RetryOutcome::Requeued(copy)
        } else {
            RetryOutcome::GaveUp(task)
        }
    }
}

/// The position of the task about `src` on `q`.
fn index_of_src(q: &Vec<FileMoveInfo>, src: &String) -> (r: usize)
    requires
        src_in(task_views(q@), src@),
    ensures
        r < q@.len(),
        task_views(q@)[r as int].src == src@,
{
    let n = q.len();
    let mut i: usize = 0;
    while i < n
        invariant
            n == q@.len(),
            i <= n,
            forall|j: int| 0 <= j < i ==> task_views(q@)[j].src != src@,
            src_in(task_views(q@), src@),
        decreases n - i,
    {
        if q[i].src == *src {
            proof {
                assert(task_views(q@)[i as int].src == src@);
            }
            return i;
        }
        proof {
            assert(task_views(q@)[i as int].src == q@[i as int]@.src);
        }
        i = i + 1;
    }
    proof {
        let w = choose|j: int| 0 <= j < q@.len() && task_views(q@)[j].src == src@;
        assert(false);
    }
    unreached()
}

/// What a successful move does to the store: the record leaves its old key
/// and is filed under the target key with the move stamped, its access
/// statistics and size preserved. A record the store no longer holds is not
/// resurrected; the next scan re-derives it.
pub open spec fn spec_move_update(s: Seq<EntryView>, t: TaskView, now: u64) -> Seq<EntryView> {
    match lookup(s, t.source_key()) {
        Some(m) => spec_upsert(
            spec_remove(s, t.source_key()),
            t.target_key(),
            m.spec_moved(t.target_tier, now),
        ),
        None => s,
    }
}

impl TieringEngine {
    /// A mover reports how its task went. The task leaves the mover's
    /// hands; on success the store is updated, on failure the task goes to
    /// the retry queue unchanged.
    pub fn record_move_result(&mut self, task: &FileMoveInfo, success: bool, now: u64)
        requires
            old(self).wf(),
            exists|i: int|
                0 <= i < old(self).actv().len() && old(self).actv()[i] == task@,
        ensures
            final(self).wf(),
            final(self).config == old(self).config,
            final(self).avail == old(self).avail,
            final(self).mqv() == old(self).mqv(),
            exists|i: int|
                0 <= i < old(self).actv().len() && old(self).actv()[i] == task@
                    && final(self).actv() == old(self).actv().remove(i),
            success ==> final(self).store@ == spec_move_update(old(self).store@, task@, now)
                && final(self).rqv() == old(self).rqv(),
            !success ==> final(self).store == old(self).store
                && final(self).rqv() == old(self).rqv().push(task@),
    {
        let ghost act0 = self.actv();
        let ghost rq0 = self.rqv();
        proof {
            let w = choose|j: int| 0 <= j < act0.len() && act0[j] == task@;
            assert(act0[w].src == task@.src);
        }
        let i = index_of_src(&self.active, &task.src);
        proof {
            assert(act0[i as int].src == task@.src);
            let w = choose|j: int| 0 <= j < act0.len() && act0[j] == task@;
            assert(act0[w].src == task@.src);
            if w != i as int {
                assert(act0[w].src != act0[i as int].src);
            }
            assert(act0[i as int] == task@);
        }
        self.active.remove(i);
        proof {
            assert(self.actv() =~= act0.remove(i as int));
            assert forall|p: int, q: int| 0 <= p < q < self.actv().len() implies self.actv()[p].src
                != self.actv()[q].src by {
                let p0: int = if p < i as int {
                    p
                } else {
                    p + 1
                };
                let q0: int = if q < i as int {
                    q
                } else {
                    q + 1
                };
                assert(self.actv()[p] == act0[p0] && self.actv()[q] == act0[q0]);
            }
            assert forall|p: int, q: int|
                0 <= p < self.mqv().len() && 0 <= q < self.actv().len() implies (
            #[trigger] self.mqv()[p]).src != (#[trigger] self.actv()[q]).src by {
                let q0: int = if q < i as int {
                    q
                } else {
                    q + 1
                };
                assert(self.actv()[q] == act0[q0]);
            }
            assert forall|p: int, q: int|
                0 <= p < self.rqv().len() && 0 <= q < self.actv().len() implies (
            #[trigger] self.rqv()[p]).src != (#[trigger] self.actv()[q]).src by {
                let q0: int = if q < i as int {
                    q
                } else {
                    q + 1
                };
                assert(self.actv()[q] == act0[q0]);
            }
        }
        if success {
            let skey = FileKey { tier: task.source_tier, rel: task.src.clone() };
            proof {
                assert(skey@ =~= task@.source_key());
            }
            match self.store.get(&skey) {
                Some(m) => {
                    proof {
                        let ki = key_index(self.store@, skey@);
                        assert(self.store@[ki].0 == skey@ && self.store@[ki].1.wf()
                            && self.store@[ki].1.tier == self.store@[ki].0.tier);
                    }
                    self.store.remove(&skey);
                    let tkey = FileKey { tier: task.target_tier, rel: task.src.clone() };
                    proof {
                        assert(tkey@ =~= task@.target_key());
                    }
                    let moved = m.moved(task.target_tier, now);
                    self.store.upsert(tkey, moved);
                },
                None => {},
            }
        } else {
            let copy = task.clone();
            let ghost t = task@;
            self.retry_queue.push(copy);
            proof {
                assert(self.rqv() =~= rq0.push(t));
                assert(!src_in(rq0, t.src));
                assert forall|p: int, q: int| 0 <= p < q < self.rqv().len() implies self.rqv()[p].src
                    != self.rqv()[q].src by {
                    if q < rq0.len() {
                        assert(self.rqv()[p] == rq0[p] && self.rqv()[q] == rq0[q]);
                    } else {
                        assert(self.rqv()[q] == t);
                        assert(self.rqv()[p] == rq0[p]);
                    }
                }
                assert forall|p: int, q: int|
                    0 <= p < self.mqv().len() && 0 <= q < self.rqv().len() implies (
                #[trigger] self.mqv()[p]).src != (#[trigger] self.rqv()[q]).src by {
                    if q < rq0.len() {
                        assert(self.rqv()[q] == rq0[q]);
                    } else {
                        assert(self.rqv()[q] == t);
                        assert(!src_in(self.mqv(), t.src));
                    }
                }
                assert forall|p: int, q: int|
                    0 <= p < self.rqv().len() && 0 <= q < self.actv().len() implies (
                #[trigger] self.rqv()[p]).src != (#[trigger] self.actv()[q]).src by {
                    if p < rq0.len() {
                        assert(self.rqv()[p] == rq0[p]);
                    } else {
                        assert(self.rqv()[p] == t);
                        assert(!src_in(self.actv(), t.src));
                    }
                }
            }
        }
    }
}

/// The task that demotes a candidate one tier down.
pub open spec fn cand_to_task(c: CandView) -> TaskView {
    TaskView {
        src: c.key.rel,
        source_tier: c.key.tier,
        target_tier: c.key.tier.spec_demotion_target(),
        retries: 0,
    }
}

pub open spec fn cand_to_task_fn() -> spec_fn(CandView) -> TaskView {
    |c: CandView| cand_to_task(c)
}

/// The demotions one tier contributes to a pass: none unless the tier is
/// over the capacity threshold, else its selected victims, one tier down.
pub open spec fn demote_model(s: Seq<EntryView>, tier: Tier, u: TierUsage, cfg: Config) -> Seq<
    TaskView,
> {
    if spec_over_capacity(u.used as int, u.total as int, cfg.tier_capacity_threshold as int) {
        spec_select_demotions(s, tier, DEMOTE_BATCH as int).map_values(cand_to_task_fn())
    } else {
        Seq::empty()
    }
}

/// The task that promotes a record to the hot tier.
pub open spec fn promo_task(e: EntryView) -> TaskView {
    TaskView { src: e.0.rel, source_tier: e.0.tier, target_tier: Tier::Hot, retries: 0 }
}

pub open spec fn promo_task_fn() -> spec_fn(EntryView) -> TaskView {
    |e: EntryView| promo_task(e)
}

pub open spec fn eligible_fn(cfg: Config, now: u64) -> spec_fn(EntryView) -> bool {
    |e: EntryView| spec_promotion_eligible(e.1, cfg, now)
}

/// The promotions a pass offers: one task per eligible record, in store
/// order.
pub open spec fn promotions_model(s: Seq<EntryView>, cfg: Config, now: u64) -> Seq<TaskView> {
    s.filter(eligible_fn(cfg, now)).map_values(promo_task_fn())
}

/// Every task one scan pass offers to the move queue, in order: demotions
/// out of hot, demotions out of warm, then promotions. The cold tier has
/// nowhere further down to demote to and is skipped.
pub open spec fn scan_tasks_model(
    s: Seq<EntryView>,
    cfg: Config,
    usage: UsageSample,
    now: u64,
) -> Seq<TaskView> {
    demote_model(s, Tier::Hot, usage.hot, cfg) + demote_model(s, Tier::Warm, usage.warm, cfg)
        + promotions_model(s, cfg, now)
}

/// Offering a batch piecewise is offering it whole.
pub proof fn lemma_enqueue_all_concat(
    mq: Seq<TaskView>,
    rq: Seq<TaskView>,
    act: Seq<TaskView>,
    avail: TierAvailability,
    a: Seq<TaskView>,
    b: Seq<TaskView>,
)
    ensures
        spec_enqueue_all(mq, rq, act, avail, a + b) == spec_enqueue_all(
            spec_enqueue_all(mq, rq, act, avail, a),
            rq,
            act,
            avail,
            b,
        ),
    decreases b.len(),
{
    if b.len() == 0 {
        assert(a + b =~= a);
    } else {
        assert((a + b).drop_last() =~= a + b.drop_last());
        assert((a + b).last() == b.last());
        lemma_enqueue_all_concat(mq, rq, act, avail, a, b.drop_last());
    }
}

/// A batch that offers a task for `src` with an available target leaves
/// `src` in flight: on the move queue it was folded into, or wherever it
/// already was.
pub proof fn lemma_enqueue_covers(
    mq: Seq<TaskView>,
    rq: Seq<TaskView>,
    act: Seq<TaskView>,
    avail: TierAvailability,
    ts: Seq<TaskView>,
    src: Seq<char>,
)
    requires
        exists|i: int|
            0 <= i < ts.len() && ts[i].src == src && avail.spec_available(ts[i].target_tier),
    ensures
        src_in(spec_enqueue_all(mq, rq, act, avail, ts), src) || src_in(rq, src) || src_in(
            act,
            src,
        ),
    decreases ts.len(),
{
    let i = choose|i: int|
        0 <= i < ts.len() && ts[i].src == src && avail.spec_available(ts[i].target_tier);
    let pre = ts.drop_last();
    let mqn = spec_enqueue_all(mq, rq, act, avail, pre);
    let r = spec_enqueue_all(mq, rq, act, avail, ts);
    if i < ts.len() - 1 {
        assert(pre[i] == ts[i]);
        lemma_enqueue_covers(mq, rq, act, avail, pre, src);
        if src_in(mqn, src) {
            let w = choose|w: int| 0 <= w < mqn.len() && mqn[w].src == src;
            assert(r[w].src == src);
        }
    } else {
        assert(ts.last() == ts[i]);
        if src_in(mqn, src) || src_in(rq, src) || src_in(act, src) {
            if src_in(mqn, src) {
                let w = choose|w: int| 0 <= w < mqn.len() && mqn[w].src == src;
                assert(r[w].src == src);
            }
        } else {
            assert(r == mqn.push(ts.last()));
            assert(r[mqn.len() as int].src == src);
        }
    }
}

impl TieringEngine {
    /// Phase B for one tier: when the tier is over the capacity threshold,
    /// offer its selected demotion victims to the move queue.
    #[verifier::loop_isolation(false)]
    fn demote_pass(&mut self, tier: Tier, usage: TierUsage)
        requires
            old(self).wf(),
        ensures
            final(self).wf(),
            final(self).config == old(self).config,
            final(self).avail == old(self).avail,
            final(self).store == old(self).store,
            final(self).rqv() == old(self).rqv(),
            final(self).actv() == old(self).actv(),
            final(self).mqv() == spec_enqueue_all(
                old(self).mqv(),
                old(self).rqv(),
                old(self).actv(),
                old(self).avail,
                demote_model(old(self).store@, tier, usage, old(self).config),
            ),
    {
        let ghost mq0 = self.mqv();
        let ghost model = demote_model(self.store@, tier, usage, self.config);
        if !tier_over_capacity(usage.used, usage.total, self.config.tier_capacity_threshold) {
            proof {
                assert(model =~= Seq::<TaskView>::empty());
                assert(spec_enqueue_all(mq0, self.rqv(), self.actv(), self.avail, model) == mq0);
            }
            return ;
        }
        let cands = select_demotions(&self.store, tier, DEMOTE_BATCH);
        proof {
            assert(model == cand_views(cands@).map_values(cand_to_task_fn()));
        }
        let n = cands.len();
        let mut i: usize = 0;
        proof {
            assert(model.take(0) =~= Seq::<TaskView>::empty());
        }
        while i < n
            invariant
                i <= n,
                n == cands@.len(),
                model.len() == n,
                self.wf(),
                self.config == old(self).config,
                self.avail == old(self).avail,
                self.store == old(self).store,
                self.rqv() == old(self).rqv(),
                self.actv() == old(self).actv(),
                self.mqv() == spec_enqueue_all(
                    mq0,
                    old(self).rqv(),
                    old(self).actv(),
                    old(self).avail,
                    model.take(i as int),
                ),
            decreases n - i,
        {
            let src = cands[i].key.rel.clone();
            let source_tier = cands[i].key.tier;
            let target_tier = source_tier.demotion_target();
            let task = FileMoveInfo::new(src, source_tier, target_tier);
            proof {
                assert(cand_views(cands@)[i as int] == cands@[i as int]@);
                assert(task@ == cand_to_task(cands@[i as int]@));
                assert(task@ == model[i as int]);
                assert(model.take(i + 1 as int).drop_last() =~= model.take(i as int));
                assert(model.take(i + 1 as int).last() == model[i as int]);
            }
            self.enqueue_move(task);
            i = i + 1;
        }
        proof {
            assert(model.take(n as int) =~= model);
        }
    }

    /// Phase C: offer a promotion to the hot tier for every eligible
    /// record.
    #[verifier::loop_isolation(false)]
    fn promote_pass(&mut self, now: u64)
        requires
            old(self).wf(),
        ensures
            final(self).wf(),
            final(self).config == old(self).config,
            final(self).avail == old(self).avail,
            final(self).store == old(self).store,
            final(self).rqv() == old(self).rqv(),
            final(self).actv() == old(self).actv(),
            final(self).mqv() == spec_enqueue_all(
                old(self).mqv(),
                old(self).rqv(),
                old(self).actv(),
                old(self).avail,
                promotions_model(old(self).store@, old(self).config, now),
            ),
    {
        let ghost mq0 = self.mqv();
        let ghost s = self.store@;
        let ghost cfg = self.config;
        let n = self.store.len();
        let mut i: usize = 0;
        proof {
            assert(s.take(0).filter(eligible_fn(cfg, now)) =~= Seq::<EntryView>::empty());
            assert(promotions_model(s.take(0), cfg, now) =~= Seq::<TaskView>::empty());
        }
        while i < n
            invariant
                i <= n,
                n == s.len(),
                self.wf(),
                self.config == old(self).config,
                self.avail == old(self).avail,
                self.store == old(self).store,
                self.rqv() == old(self).rqv(),
                self.actv() == old(self).actv(),
                self.mqv() == spec_enqueue_all(
                    mq0,
                    old(self).rqv(),
                    old(self).actv(),
                    old(self).avail,
                    promotions_model(s.take(i as int), cfg, now),
                ),
            decreases n - i,
        {
            let ghost prefix = s.take(i as int);
            let ghost prefix1 = s.take(i + 1 as int);
            let meta = self.store.meta_at(i);
            if promotion_eligible(&meta, &self.config, now) {
                let key = self.store.key_at(i).clone();
                let task = FileMoveInfo::new(key.rel, key.tier, Tier::Hot);
                proof {
                    reveal(Seq::filter);
                    assert(prefix1.drop_last() =~= prefix);
                    assert(prefix1.last() == s[i as int]);
                    assert(eligible_fn(cfg, now)(prefix1.last()));
                    assert(prefix1.filter(eligible_fn(cfg, now)) == prefix.filter(
                        eligible_fn(cfg, now),
                    ).push(s[i as int]));
                    assert(task@ == promo_task(s[i as int]));
                    assert(promotions_model(prefix1, cfg, now) =~= promotions_model(
                        prefix,
                        cfg,
                        now,
                    ).push(task@));
                    assert(promotions_model(prefix1, cfg, now).drop_last() =~= promotions_model(
                        prefix,
                        cfg,
                        now,
                    ));
                }
                self.enqueue_move(task);
            } else {
                proof {
                    reveal(Seq::filter);
                    assert(prefix1.drop_last() =~= prefix);
                    assert(prefix1.last() == s[i as int]);
                    assert(!eligible_fn(cfg, now)(prefix1.last()));
                    assert(prefix1.filter(eligible_fn(cfg, now)) == prefix.filter(
                        eligible_fn(cfg, now),
                    ));
                    assert(promotions_model(prefix1, cfg, now) == promotions_model(
                        prefix,
                        cfg,
                        now,
                    ));
                }
            }
            i = i + 1;
        }
        proof {
            assert(s.take(n as int) =~= s);
        }
    }

    /// One scan pass: refresh the store from the walk's observations, then
    /// offer demotions for tiers under capacity pressure, then offer a
    /// promotion for every eligible record. Every record that qualifies for
    /// promotion, with the hot tier available, is in flight afterwards.
    pub fn scan_pass(&mut self, obs: &Vec<Observation>, usage: &UsageSample, now: u64)
        requires
            old(self).wf(),
        ensures
            final(self).wf(),
            final(self).config == old(self).config,
            final(self).avail == old(self).avail,
            final(self).store@ == refresh_all(old(self).store@, obs_views(obs@)),
            final(self).rqv() == old(self).rqv(),
            final(self).actv() == old(self).actv(),
            final(self).mqv() == spec_enqueue_all(
                old(self).mqv(),
                old(self).rqv(),
                old(self).actv(),
                old(self).avail,
                scan_tasks_model(
                    refresh_all(old(self).store@, obs_views(obs@)),
                    old(self).config,
                    *usage,
                    now,
                ),
            ),
            forall|k: KeyView|
                {
                    let s = refresh_all(old(self).store@, obs_views(obs@));
                    contains_key(s, k) && spec_promotion_eligible(
                        lookup(s, k)->Some_0,
                        old(self).config,
                        now,
                    ) && old(self).avail.hot
                } ==> final(self).in_flight(k.rel),
    {
        apply_scan(&mut self.store, obs);
        let ghost s1 = self.store@;
        let ghost mq0 = self.mqv();
        let ghost rq0 = self.rqv();
        let ghost act0 = self.actv();
        let ghost avail = self.avail;
        let ghost cfg = self.config;
        let ghost demo_hot = demote_model(s1, Tier::Hot, usage.hot, cfg);
        let ghost demo_warm = demote_model(s1, Tier::Warm, usage.warm, cfg);
        let ghost promos = promotions_model(s1, cfg, now);
        self.demote_pass(Tier::Hot, usage.hot);
        self.demote_pass(Tier::Warm, usage.warm);
        self.promote_pass(now);
        proof {
            lemma_enqueue_all_concat(mq0, rq0, act0, avail, demo_hot, demo_warm);
            lemma_enqueue_all_concat(mq0, rq0, act0, avail, demo_hot + demo_warm, promos);
            assert(demo_hot + demo_warm + promos =~= scan_tasks_model(s1, cfg, *usage, now));
            assert(self.mqv() == spec_enqueue_all(
                mq0,
                rq0,
                act0,
                avail,
                scan_tasks_model(s1, cfg, *usage, now),
            ));
            assert forall|k: KeyView|
                contains_key(s1, k) && spec_promotion_eligible(
                    lookup(s1, k)->Some_0,
                    cfg,
                    now,
                ) && avail.hot implies self.in_flight(k.rel) by {
                let ki = key_index(s1, k);
                assert(s1[ki].0 == k);
                assert(eligible_fn(cfg, now)(s1[ki]));
                s1.lemma_filter_contains(eligible_fn(cfg, now), ki);
                let f = s1.filter(eligible_fn(cfg, now));
                assert(f.contains(s1[ki]));
                let j = choose|j: int| 0 <= j < f.len() && f[j] == s1[ki];
                assert(promos[j] == promo_task(s1[ki]));
                assert(promos[j].src == k.rel);
                assert(promos[j].target_tier == Tier::Hot);
                let ts = scan_tasks_model(s1, cfg, *usage, now);
                let off = demo_hot.len() + demo_warm.len() + j;
                assert(ts == demo_hot + demo_warm + promos);
                assert(ts[off as int] == promos[j]);
                assert(avail.spec_available(Tier::Hot));
                lemma_enqueue_covers(mq0, rq0, act0, avail, ts, k.rel);
            }
        }
    }
}

} // verus!
