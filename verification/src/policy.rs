//! The tiering policy: configuration, capacity pressure, promotion
//! eligibility, and the choice of demotion victims.

use vstd::prelude::*;
use vstd::relations::{sorted_by, total_ordering};
use crate::file_metadata::FileMetadata;
use crate::paths::{lex_lt, lemma_lex_lt_connected, lemma_lex_lt_irreflexive, lemma_lex_lt_transitive, FileKey, KeyView};
use crate::store::{EntryView, MetadataStore};
use crate::tier::Tier;

verus! {

/// The settings the engine reads; immutable after startup.
#[derive(Clone, Copy, Debug, PartialEq, Eq, Structural)]
pub struct Config {
    /// A tier whose used share exceeds this many percent is under pressure.
    pub tier_capacity_threshold: u64,
    /// How recently a file must have been accessed, in seconds, to be
    /// promoted.
    pub access_time_threshold: u64,
    /// How many scan passes must have seen a file for it to be promoted.
    pub access_count_threshold: u64,
    /// In a dry run the copy tool is never invoked; moves are assumed to
    /// succeed and the store is updated as if they ran.
    pub dryrun: bool,
}

#[derive(Clone, Copy, Debug, PartialEq, Eq, Structural)]
pub enum ConfigError {
    /// `access_count_threshold` must be at least one.
    AccessCountThresholdZero,
    /// `tier_capacity_threshold` is a percentage and must not exceed 100.
    CapacityThresholdOutOfRange,
}

impl Config {
    pub open spec fn wf(self) -> bool {
        &&& self.access_count_threshold >= 1
        &&& self.tier_capacity_threshold <= 100
    }

    pub open spec fn spec_new(
        tier_capacity_threshold: u64,
        access_time_threshold: u64,
        access_count_threshold: u64,
        dryrun: bool,
    ) -> Result<Config, ConfigError> {
        if access_count_threshold == 0 {
            Err(ConfigError::AccessCountThresholdZero)
        } else if tier_capacity_threshold > 100 {
            Err(ConfigError::CapacityThresholdOutOfRange)
        } else {
            Ok(
                Config {
                    tier_capacity_threshold,
                    access_time_threshold,
                    access_count_threshold,
                    dryrun,
                },
            )
        }
    }

    /// Validate and build a configuration: the scan-count threshold must be
    /// positive and the capacity threshold is a percentage.
    pub fn new(
        tier_capacity_threshold: u64,
        access_time_threshold: u64,
        access_count_threshold: u64,
        dryrun: bool,
    ) -> (r: Result<Config, ConfigError>)
        ensures
            r == Config::spec_new(
                tier_capacity_threshold,
                access_time_threshold,
                access_count_threshold,
                dryrun,
            ),
            r is Ok ==> r->Ok_0.wf(),
    {
        if access_count_threshold == 0 {
            Err(ConfigError::AccessCountThresholdZero)
        } else if tier_capacity_threshold > 100 {
            Err(ConfigError::CapacityThresholdOutOfRange)
        } else {
            Ok(
                Config {
                    tier_capacity_threshold,
                    access_time_threshold,
                    access_count_threshold,
                    dryrun,
                },
            )
        }
    }
}

/// Whether a tier holding `used` of `total` blocks is over a threshold of
/// `threshold_percent` percent. An empty or absent tier is never over.
pub open spec fn spec_over_capacity(used: int, total: int, threshold_percent: int) -> bool {
    used * 100 > threshold_percent * total
}

pub fn tier_over_capacity(used: u64, total: u64, threshold_percent: u64) -> (r: bool)
    ensures
        r == spec_over_capacity(used as int, total as int, threshold_percent as int),
{
    let up = used as u128;
    let tp = threshold_percent as u128;
    let to = total as u128;
    proof {
        assert(tp * to <= 0xffffffffffffffff * 0xffffffffffffffff) by (nonlinear_arith)
            requires
                tp <= 0xffffffffffffffff,
                to <= 0xffffffffffffffff,
        ;
    }
    let u = up * 100;
    let t = tp * to;
    u > t
}

/// Whether a record qualifies for promotion to the hot tier: it is not
/// already hot, enough scan passes have seen it, and it was accessed within
/// the configured window of `now`.
pub open spec fn spec_promotion_eligible(m: FileMetadata, cfg: Config, now: u64) -> bool {
    &&& m.tier != Tier::Hot
    &&& m.access_count >= cfg.access_count_threshold
    &&& now - m.last_access_time <= cfg.access_time_threshold
}

pub fn promotion_eligible(m: &FileMetadata, cfg: &Config, now: u64) -> (r: bool)
    ensures
        r == spec_promotion_eligible(*m, *cfg, now),
{
    m.tier != Tier::Hot && m.access_count >= cfg.access_count_threshold && (m.last_access_time
        as u128) + (cfg.access_time_threshold as u128) >= (now as u128)
}

/// A record competing for demotion out of a tier under pressure.
pub struct Candidate {
    pub key: FileKey,
    pub atime: u64,
    pub size: u64,
}

/// The mathematical value of a [`Candidate`].
#[verifier::ext_equal]
pub struct CandView {
    pub key: KeyView,
    pub atime: u64,
    pub size: u64,
}

impl View for Candidate {
    type V = CandView;

    open spec fn view(&self) -> CandView {
        CandView { key: self.key@, atime: self.atime, size: self.size }
    }
}

impl Clone for Candidate {
    fn clone(&self) -> (r: Candidate)
        ensures
            r@ == self@,
    {
        Candidate { key: self.key.clone(), atime: self.atime, size: self.size }
    }
}

/// Demotion precedence: the oldest access time first; among equals the
/// larger file first, then the lexicographically smaller path. The tier
/// rank only breaks ties between keys that agree on everything else, which
/// never happens within one tier's batch.
pub open spec fn cand_before(a: CandView, b: CandView) -> bool {
    ||| a.atime < b.atime
    ||| (a.atime == b.atime && a.size > b.size)
    ||| (a.atime == b.atime && a.size == b.size && lex_lt(a.key.rel, b.key.rel))
    ||| (a.atime == b.atime && a.size == b.size && a.key.rel == b.key.rel
        && a.key.tier.spec_rank() < b.key.tier.spec_rank())
}

pub open spec fn cand_le(a: CandView, b: CandView) -> bool {
    cand_before(a, b) || a == b
}

pub open spec fn cand_le_fn() -> spec_fn(CandView, CandView) -> bool {
    |a: CandView, b: CandView| cand_le(a, b)
}

proof fn lemma_cand_antisym(a: CandView, b: CandView)
    requires
        cand_le(a, b),
        cand_le(b, a),
    ensures
        a == b,
{
    if a != b {
        if a.atime == b.atime && a.size == b.size {
            if lex_lt(a.key.rel, b.key.rel) && lex_lt(b.key.rel, a.key.rel) {
                lemma_lex_lt_transitive(a.key.rel, b.key.rel, a.key.rel);
                lemma_lex_lt_irreflexive(a.key.rel);
            } else if lex_lt(a.key.rel, b.key.rel) || lex_lt(b.key.rel, a.key.rel) {
                lemma_lex_lt_irreflexive(a.key.rel);
                lemma_lex_lt_irreflexive(b.key.rel);
            }
        }
    }
}

proof fn lemma_cand_connected(a: CandView, b: CandView)
    ensures
        cand_le(a, b) || cand_le(b, a),
{
    if a.atime == b.atime && a.size == b.size {
        if a.key.rel != b.key.rel {
            lemma_lex_lt_connected(a.key.rel, b.key.rel);
        } else if a.key.tier == b.key.tier {
            assert(a.key =~= b.key);
            assert(a =~= b);
        }
    }
}

proof fn lemma_cand_trans(a: CandView, b: CandView, c: CandView)
    requires
        cand_le(a, b),
        cand_le(b, c),
    ensures
        cand_le(a, c),
{
    if a != b && b != c {
        if a.atime == b.atime && b.atime == c.atime && a.size == b.size && b.size == c.size {
            if lex_lt(a.key.rel, b.key.rel) && lex_lt(b.key.rel, c.key.rel) {
                lemma_lex_lt_transitive(a.key.rel, b.key.rel, c.key.rel);
            }
        }
    }
}

/// Demotion precedence is a total order on candidate values.
pub proof fn lemma_cand_le_total_ordering()
    ensures
        total_ordering(cand_le_fn()),
{
    let r = cand_le_fn();
    assert forall|a: CandView| #[trigger] r(a, a) by {
        assert(cand_le(a, a));
    }
    assert forall|a: CandView, b: CandView| #[trigger] r(a, b) && #[trigger] r(b, a) implies a
        == b by {
        lemma_cand_antisym(a, b);
    }
    assert forall|a: CandView, b: CandView, c: CandView| #[trigger] r(a, b) && #[trigger] r(
        b,
        c,
    ) implies r(a, c) by {
        lemma_cand_trans(a, b, c);
    }
    assert forall|a: CandView, b: CandView| #[trigger] r(a, b) || #[trigger] r(b, a) by {
        lemma_cand_connected(a, b);
    }
}

/// Decide demotion precedence on two candidates.
pub fn cand_le_exec(a: &Candidate, b: &Candidate) -> (r: bool)
    ensures
        r == cand_le(a@, b@),
{
    if a.atime < b.atime {
        return true;
    }
    if b.atime < a.atime {
        return false;
    }
    if a.size > b.size {
        return true;
    }
    if b.size > a.size {
        return false;
    }
    if crate::paths::lex_less(&a.key.rel, &b.key.rel) {
        return true;
    }
    if crate::paths::lex_less(&b.key.rel, &a.key.rel) {
        return false;
    }
    proof {
        if a.key.rel@ != b.key.rel@ {
            lemma_lex_lt_connected(a.key.rel@, b.key.rel@);
        }
    }
    let ra = a.key.tier.rank();
    let rb = b.key.tier.rank();
    if ra < rb {
        return true;
    }
    if rb < ra {
        return false;
    }
    proof {
        assert(a.key.tier == b.key.tier);
        assert(a.key@ =~= b.key@);
        assert(a@ =~= b@);
    }
    true
}

/// The view of every candidate in a batch.
pub open spec fn cand_views(s: Seq<Candidate>) -> Seq<CandView> {
    s.map_values(|c: Candidate| c@)
}

/// The candidate a store entry competes as.
pub open spec fn spec_to_cand(e: EntryView) -> CandView {
    CandView { key: e.0, atime: e.1.last_access_time, size: e.1.file_size }
}

/// Whether a store entry currently lives in `tier`.
pub open spec fn in_tier(tier: Tier) -> spec_fn(EntryView) -> bool {
    |e: EntryView| e.1.tier == tier
}

pub open spec fn to_cand_fn() -> spec_fn(EntryView) -> CandView {
    |e: EntryView| spec_to_cand(e)
}

/// The records of `s` that currently live in `tier`, as demotion candidates,
/// in store order.
pub open spec fn demotion_candidates(s: Seq<EntryView>, tier: Tier) -> Seq<CandView> {
    s.filter(in_tier(tier)).map_values(to_cand_fn())
}

/// The demotion victims of one tier: its candidates in demotion precedence,
/// cut to the batch size.
pub open spec fn spec_select_demotions(s: Seq<EntryView>, tier: Tier, batch: int) -> Seq<
    CandView,
> {
    let sorted = demotion_candidates(s, tier).sort_by(cand_le_fn());
    if batch < sorted.len() {
        sorted.take(batch)
    } else {
        sorted
    }
}

/// Gather the records of `store` that live in `tier`.
#[verifier::loop_isolation(false)]
fn collect_candidates(store: &MetadataStore, tier: Tier) -> (r: Vec<Candidate>)
    ensures
        cand_views(r@) == demotion_candidates(store@, tier),
{
    let mut r: Vec<Candidate> = Vec::new();
    let n = store.len();
    let mut i: usize = 0;
    proof {
        assert(store@.take(0).filter(in_tier(tier)) =~= Seq::<EntryView>::empty());
        assert(cand_views(r@) =~= demotion_candidates(store@.take(0), tier));
    }
    while i < n
        invariant
            i <= n,
            cand_views(r@) == demotion_candidates(store@.take(i as int), tier),
        decreases n - i,
    {
        let ghost prefix = store@.take(i as int);
        let ghost prefix1 = store@.take(i + 1 as int);
        let key = store.key_at(i);
        let meta = store.meta_at(i);
        if meta.tier == tier {
            let c = Candidate { key: key.clone(), atime: meta.last_access_time, size: meta.file_size };
            let ghost rpre = r@;
            let ghost cv = c@;
            r.push(c);
            proof {
                reveal(Seq::filter);
                assert(prefix1.drop_last() =~= prefix);
                assert(prefix1.last() == store@[i as int]);
                assert(in_tier(tier)(prefix1.last()));
                assert(prefix1.filter(in_tier(tier)) == prefix.filter(in_tier(tier)).push(
                store@[i as int]));
                assert(cand_views(r@) =~= cand_views(rpre).push(cv));
                assert(cv == spec_to_cand(store@[i as int]));
                assert(demotion_candidates(prefix1, tier) =~= demotion_candidates(
                    prefix,
                    tier,
                ).push(spec_to_cand(store@[i as int])));
                assert(cand_views(r@) =~= demotion_candidates(prefix1, tier));
            }
        } else {
            proof {
                reveal(Seq::filter);
                assert(prefix1.drop_last() =~= prefix);
                assert(prefix1.last() == store@[i as int]);
                assert(!in_tier(tier)(prefix1.last()));
                assert(prefix1.filter(in_tier(tier)) == prefix.filter(in_tier(tier)));
            }
        }
        i = i + 1;
    }
    proof {
        assert(store@.take(n as int) =~= store@);
    }
    r
}

/// Sort candidates into demotion precedence by repeatedly extracting a
/// minimal one.
#[verifier::loop_isolation(false)]
fn sort_candidates(input: Vec<Candidate>) -> (r: Vec<Candidate>)
    ensures
        cand_views(r@) == cand_views(input@).sort_by(cand_le_fn()),
{
    broadcast use vstd::seq_lib::group_to_multiset_ensures;

    proof {
        lemma_cand_le_total_ordering();
    }
    let ghost orig = cand_views(input@);
    let mut rest = input;
    let mut out: Vec<Candidate> = Vec::new();
    proof {
        assert(cand_views(out@) =~= Seq::<CandView>::empty());
        assert(cand_views(out@).to_multiset().add(cand_views(rest@).to_multiset()) =~= orig.to_multiset());
    }
    while rest.len() > 0
        invariant
            cand_views(out@).to_multiset().add(cand_views(rest@).to_multiset())
                =~= orig.to_multiset(),
            sorted_by(cand_views(out@), cand_le_fn()),
            forall|i: int, j: int|
                0 <= i < out@.len() && 0 <= j < rest@.len() ==> #[trigger] cand_le_fn()(
                    cand_views(out@)[i],
                    cand_views(rest@)[j],
                ),
        decreases rest.len(),
    {
        broadcast use vstd::seq_lib::group_to_multiset_ensures;

        let mut m: usize = 0;
        let mut j: usize = 1;
        while j < rest.len()
            invariant
                rest@.len() > 0,
                m < j,
                j <= rest@.len(),
                forall|p: int|
                    0 <= p < j ==> cand_le_fn()(cand_views(rest@)[m as int], #[trigger] cand_views(
                        rest@,
                    )[p]),
            decreases rest@.len() - j,
        {
            proof {
                lemma_cand_le_total_ordering();
            }
            if cand_le_exec(&rest[j], &rest[m]) {
                proof {
                    assert forall|p: int| 0 <= p < j + 1 implies cand_le_fn()(
                        cand_views(rest@)[j as int],
                        #[trigger] cand_views(rest@)[p],
                    ) by {
                        if p < j {
                            assert(cand_views(rest@)[p] == rest@[p]@);
                            assert(cand_views(rest@)[m as int] == rest@[m as int]@);
                            assert(cand_le(rest@[m as int]@, rest@[p]@));
                            lemma_cand_trans(rest@[j as int]@, rest@[m as int]@, rest@[p]@);
                        }
                    }
                }
                m = j;
            } else {
                proof {
                    lemma_cand_connected(rest@[m as int]@, rest@[j as int]@);
                }
            }
            j = j + 1;
        }
        let ghost out_pre = cand_views(out@);
        let ghost rest_pre = cand_views(rest@);
        let c = rest.remove(m);
        out.push(c);
        proof {
            lemma_cand_le_total_ordering();
            assert(cand_views(out@) =~= out_pre.push(c@));
            assert(cand_views(rest@) =~= rest_pre.remove(m as int));
            assert(rest_pre[m as int] == c@);
            assert(cand_views(rest@).to_multiset() =~= rest_pre.to_multiset().remove(c@));
            assert(cand_views(out@).to_multiset() =~= out_pre.to_multiset().insert(c@));
            assert(cand_views(out@).to_multiset().add(cand_views(rest@).to_multiset()) =~= orig.to_multiset());
            assert forall|i: int, j2: int|
                0 <= i < out@.len() && 0 <= j2 < rest@.len() implies #[trigger] cand_le_fn()(
                cand_views(out@)[i],
                cand_views(rest@)[j2],
            ) by {
                let prev: int = if j2 < m {
                    j2
                } else {
                    j2 + 1
                };
                assert(cand_views(rest@)[j2] == rest_pre[prev]);
                if i < out_pre.len() {
                    assert(cand_le_fn()(out_pre[i], rest_pre[prev]));
                } else {
                    assert(cand_views(out@)[i] == c@);
                    assert(cand_le_fn()(rest_pre[m as int], rest_pre[prev]));
                }
            }
            assert(sorted_by(cand_views(out@), cand_le_fn()));
        }
    }
    proof {
        lemma_cand_le_total_ordering();
        assert(cand_views(rest@).to_multiset() =~= Seq::<CandView>::empty().to_multiset());
        assert(cand_views(out@).to_multiset() =~= orig.to_multiset());
        orig.lemma_sort_by_ensures(cand_le_fn());
        vstd::seq_lib::lemma_sorted_unique(
            cand_views(out@),
            orig.sort_by(cand_le_fn()),
            cand_le_fn(),
        );
    }
    out
}

/// The demotion victims of `tier`: up to `batch` records, the oldest first,
/// larger files and lexicographically smaller paths winning ties.
pub fn select_demotions(store: &MetadataStore, tier: Tier, batch: usize) -> (r: Vec<Candidate>)
    ensures
        cand_views(r@) == spec_select_demotions(store@, tier, batch as int),
{
    proof {
        lemma_cand_le_total_ordering();
    }
    let cands = collect_candidates(store, tier);
    let mut sorted = sort_candidates(cands);
    if sorted.len() > batch {
        sorted.truncate(batch);
        proof {
            assert(cand_views(sorted@) =~= spec_select_demotions(store@, tier, batch as int));
        }
    } else {
        proof {
            assert(cand_views(sorted@) =~= spec_select_demotions(store@, tier, batch as int));
        }
    }
    sorted
}

} // verus!
