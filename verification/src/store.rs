//! The metadata store: a key-to-record mapping from file keys to access
//! statistics and current tier, the single source of truth for policy
//! decisions.
//!
//! The store is modelled as the sequence of its entries; `lookup` is the
//! mapping it denotes. Durability is the daemon's business: it persists
//! every entry after each pass and rebuilds the store on startup.

use vstd::prelude::*;
use crate::file_metadata::FileMetadata;
use crate::paths::{FileKey, KeyView};

verus! {

/// One entry of the store, as a mathematical value.
pub type EntryView = (KeyView, FileMetadata);

/// Whether some entry of `s` is filed under `k`.
pub open spec fn contains_key(s: Seq<EntryView>, k: KeyView) -> bool {
    exists|i: int| 0 <= i < s.len() && s[i].0 == k
}

/// The index of the entry filed under `k`; meaningful only when the keys of
/// `s` are distinct and `k` is present.
pub open spec fn key_index(s: Seq<EntryView>, k: KeyView) -> int {
    choose|i: int| 0 <= i < s.len() && s[i].0 == k
}

/// The record filed under `k`, if any: the mapping the store denotes.
pub open spec fn lookup(s: Seq<EntryView>, k: KeyView) -> Option<FileMetadata> {
    if contains_key(s, k) {
        Some(s[key_index(s, k)].1)
    } else {
        None
    }
}

/// No two entries are filed under the same key.
pub open spec fn no_dup_keys(s: Seq<EntryView>) -> bool {
    forall|i: int, j: int| 0 <= i < j < s.len() ==> s[i].0 != s[j].0
}

/// A well-formed store: keys are distinct, every record has been seen at
/// least once, and every record's tier agrees with the tier of its key.
pub open spec fn entries_wf(s: Seq<EntryView>) -> bool {
    &&& no_dup_keys(s)
    &&& forall|i: int| 0 <= i < s.len() ==> (#[trigger] s[i]).1.wf()
    &&& forall|i: int| 0 <= i < s.len() ==> (#[trigger] s[i]).1.tier == s[i].0.tier
}

/// `s` after filing `m` under `k`: the entry for `k` is replaced if one
/// exists, else appended.
pub open spec fn spec_upsert(s: Seq<EntryView>, k: KeyView, m: FileMetadata) -> Seq<EntryView> {
    if contains_key(s, k) {
        s.update(key_index(s, k), (k, m))
    } else {
        s.push((k, m))
    }
}

/// `s` after dropping the entry for `k`, if one exists.
pub open spec fn spec_remove(s: Seq<EntryView>, k: KeyView) -> Seq<EntryView> {
    if contains_key(s, k) {
        s.remove(key_index(s, k))
    } else {
        s
    }
}

/// With distinct keys, an entry that matches is the entry `key_index` picks.
pub proof fn lemma_key_index_unique(s: Seq<EntryView>, k: KeyView, i: int)
    requires
        no_dup_keys(s),
        0 <= i < s.len(),
        s[i].0 == k,
    ensures
        key_index(s, k) == i,
{
    let j = key_index(s, k);
    assert(0 <= j < s.len() && s[j].0 == k);
}

/// What `lookup` returns after an upsert, for every key.
pub proof fn lemma_upsert_lookup(s: Seq<EntryView>, k: KeyView, m: FileMetadata, k2: KeyView)
    requires
        no_dup_keys(s),
    ensures
        lookup(spec_upsert(s, k, m), k2) == if k2 == k {
            Some(m)
        } else {
            lookup(s, k2)
        },
{
    let s2 = spec_upsert(s, k, m);
    lemma_upsert_no_dup(s, k, m);
    if contains_key(s, k) {
        let i = key_index(s, k);
        assert(s2[i].0 == k);
        if k2 == k {
            lemma_key_index_unique(s2, k, i);
        } else {
            if contains_key(s, k2) {
                let j = key_index(s, k2);
                assert(j != i);
                assert(s2[j].0 == k2);
                lemma_key_index_unique(s2, k2, j);
            } else {
                if contains_key(s2, k2) {
                    let j = key_index(s2, k2);
                    assert(s[j].0 == k2);
                }
            }
        }
    } else {
        let n = s.len() as int;
        assert(s2[n].0 == k);
        if k2 == k {
            lemma_key_index_unique(s2, k, n);
        } else {
            if contains_key(s, k2) {
                let j = key_index(s, k2);
                assert(s2[j].0 == k2);
                lemma_key_index_unique(s2, k2, j);
            } else {
                if contains_key(s2, k2) {
                    let j = key_index(s2, k2);
                    assert(0 <= j < n);
                    assert(s[j].0 == k2);
                }
            }
        }
    }
}

/// An upsert keeps the keys distinct.
pub proof fn lemma_upsert_no_dup(s: Seq<EntryView>, k: KeyView, m: FileMetadata)
    requires
        no_dup_keys(s),
    ensures
        no_dup_keys(spec_upsert(s, k, m)),
{
    let s2 = spec_upsert(s, k, m);
    if contains_key(s, k) {
        let i = key_index(s, k);
        assert forall|p: int, q: int| 0 <= p < q < s2.len() implies s2[p].0 != s2[q].0 by {
            assert(s[p].0 != s[q].0);
        }
    } else {
        assert forall|p: int, q: int| 0 <= p < q < s2.len() implies s2[p].0 != s2[q].0 by {
            if q < s.len() {
                assert(s[p].0 != s[q].0);
            } else {
                assert(s2[q].0 == k);
                assert(s2[p].0 == s[p].0);
            }
        }
    }
}

/// A removal keeps the keys distinct.
pub proof fn lemma_remove_no_dup(s: Seq<EntryView>, k: KeyView)
    requires
        no_dup_keys(s),
    ensures
        no_dup_keys(spec_remove(s, k)),
{
    let s2 = spec_remove(s, k);
    if contains_key(s, k) {
        let i = key_index(s, k);
        assert forall|p: int, q: int| 0 <= p < q < s2.len() implies s2[p].0 != s2[q].0 by {
            let p0: int = if p < i {
                p
            } else {
                p + 1
            };
            let q0: int = if q < i {
                q
            } else {
                q + 1
            };
            assert(s2[p].0 == s[p0].0);
            assert(s2[q].0 == s[q0].0);
            assert(s[p0].0 != s[q0].0);
        }
    }
}

/// Whether `k` is one of the keys in `ks`.
pub open spec fn key_in_list(ks: Seq<KeyView>, k: KeyView) -> bool {
    exists|i: int| 0 <= i < ks.len() && ks[i] == k
}

/// The views of a list of keys.
pub open spec fn key_views(ks: Seq<FileKey>) -> Seq<KeyView> {
    ks.map_values(|k: FileKey| k@)
}

/// The entries of `s` whose key is in `ks`, in store order.
pub open spec fn retained(s: Seq<EntryView>, ks: Seq<KeyView>) -> Seq<EntryView> {
    s.filter(|e: EntryView| key_in_list(ks, e.0))
}

/// Retaining entries keeps the store well formed, and every retained entry
/// is an entry of the original store.
pub proof fn lemma_retained_wf(s: Seq<EntryView>, ks: Seq<KeyView>)
    requires
        entries_wf(s),
    ensures
        entries_wf(retained(s, ks)),
        forall|p: int|
            0 <= p < retained(s, ks).len() ==> exists|l: int|
                0 <= l < s.len() && #[trigger] retained(s, ks)[p] == s[l],
    decreases s.len(),
{
    reveal(Seq::filter);
    if s.len() > 0 {
        let pre = s.drop_last();
        assert(entries_wf(pre)) by {
            assert(forall|i: int| 0 <= i < pre.len() ==> pre[i] == s[i]);
        }
        lemma_retained_wf(pre, ks);
        let r = retained(s, ks);
        let rp = retained(pre, ks);
        if key_in_list(ks, s.last().0) {
            assert(r == rp.push(s.last()));
            assert forall|p: int| 0 <= p < r.len() implies exists|l: int|
                0 <= l < s.len() && #[trigger] r[p] == s[l] by {
                if p < rp.len() {
                    assert(r[p] == rp[p]);
                    let l = choose|l: int| 0 <= l < pre.len() && rp[p] == pre[l];
                    assert(r[p] == s[l]);
                } else {
                    assert(r[p] == s[s.len() - 1]);
                }
            }
            assert forall|p: int, q: int| 0 <= p < q < r.len() implies r[p].0 != r[q].0 by {
                if q < rp.len() {
                    assert(r[p] == rp[p] && r[q] == rp[q]);
                } else {
                    assert(r[q] == s.last());
                    assert(r[p] == rp[p]);
                    let l = choose|l: int| 0 <= l < pre.len() && rp[p] == pre[l];
                    assert(s[l].0 != s[s.len() - 1].0);
                }
            }
        } else {
            assert(r == rp);
        }
    }
}

/// An entry present under a retained key stays present.
pub proof fn lemma_retained_contains(s: Seq<EntryView>, ks: Seq<KeyView>, k: KeyView)
    requires
        contains_key(s, k),
        key_in_list(ks, k),
    ensures
        contains_key(retained(s, ks), k),
    decreases s.len(),
{
    reveal(Seq::filter);
    if s.len() > 0 {
        let pre = s.drop_last();
        let r = retained(s, ks);
        let rp = retained(pre, ks);
        if s.last().0 == k {
            assert(r == rp.push(s.last()));
            assert(r[r.len() - 1].0 == k);
        } else {
            let i = choose|i: int| 0 <= i < s.len() && s[i].0 == k;
            assert(pre[i] == s[i]);
            lemma_retained_contains(pre, ks, k);
            let j = choose|j: int| 0 <= j < rp.len() && rp[j].0 == k;
            if key_in_list(ks, s.last().0) {
                assert(r == rp.push(s.last()));
                assert(r[j].0 == k);
            } else {
                assert(r == rp);
            }
        }
    }
}

/// The views of raw store entries.
pub open spec fn entry_views(es: Seq<(FileKey, FileMetadata)>) -> Seq<EntryView> {
    es.map_values(|e: (FileKey, FileMetadata)| (e.0@, e.1))
}

/// The durable key-to-record store.
pub struct MetadataStore {
    entries: Vec<(FileKey, FileMetadata)>,
}

impl View for MetadataStore {
    type V = Seq<EntryView>;

    closed spec fn view(&self) -> Seq<EntryView> {
        entry_views(self.entries@)
    }
}

/// Whether `k` is one of the keys of `keep`.
fn key_list_contains(keep: &Vec<FileKey>, k: &FileKey) -> (r: bool)
    ensures
        r == key_in_list(key_views(keep@), k@),
{
    let n = keep.len();
    let mut i: usize = 0;
    while i < n
        invariant
            n == keep@.len(),
            i <= n,
            forall|j: int| 0 <= j < i ==> key_views(keep@)[j] != k@,
        decreases n - i,
    {
        if keep[i].key_eq(k) {
            proof {
                assert(key_views(keep@)[i as int] == k@);
            }
            return true;
        }
        proof {
            assert(key_views(keep@)[i as int] == keep@[i as int]@);
        }
        i = i + 1;
    }
    false
}

impl MetadataStore {
    /// A well-formed store; established by `new` and preserved by every
    /// operation.
    pub open spec fn wf(self) -> bool {
        entries_wf(self@)
    }

    pub fn new() -> (r: MetadataStore)
        ensures
            r.wf(),
            r@ =~= Seq::<EntryView>::empty(),
    {
        let r = MetadataStore { entries: Vec::new() };
        proof {
            assert(r@ =~= Seq::<EntryView>::empty());
        }
        r
    }

    pub fn len(&self) -> (n: usize)
        ensures
            n == self@.len(),
    {
        self.entries.len()
    }

    /// The key of the `i`th entry.
    pub fn key_at(&self, i: usize) -> (k: &FileKey)
        requires
            i < self@.len(),
        ensures
            k@ == self@[i as int].0,
    {
        &self.entries[i].0
    }

    /// The record of the `i`th entry.
    pub fn meta_at(&self, i: usize) -> (m: FileMetadata)
        requires
            i < self@.len(),
        ensures
            m == self@[i as int].1,
    {
        self.entries[i].1
    }

    /// The index of the entry filed under `key`, if any.
    pub fn find(&self, key: &FileKey) -> (r: Option<usize>)
        requires
            self.wf(),
        ensures
            match r {
                Some(i) => i < self@.len() && self@[i as int].0 == key@ && i as int == key_index(
                    self@,
                    key@,
                ),
                None => !contains_key(self@, key@),
            },
    {
        let n = self.entries.len();
        let mut i: usize = 0;
        while i < n
            invariant
                self.wf(),
                n == self@.len(),
                i <= n,
                forall|j: int| 0 <= j < i ==> self@[j].0 != key@,
            decreases n - i,
        {
            if self.entries[i].0.key_eq(key) {
                proof {
                    lemma_key_index_unique(self@, key@, i as int);
                }
                return Some(i);
            }
            i = i + 1;
        }
        None
    }

    /// The record filed under `key`.
    pub fn get(&self, key: &FileKey) -> (r: Option<FileMetadata>)
        requires
            self.wf(),
        ensures
            r == lookup(self@, key@),
    {
        match self.find(key) {
            Some(i) => Some(self.entries[i].1),
            None => None,
        }
    }

    /// File `meta` under `key`, replacing the record already there if any.
    pub fn upsert(&mut self, key: FileKey, meta: FileMetadata)
        requires
            old(self).wf(),
            meta.wf(),
            meta.tier == key.tier,
        ensures
            final(self).wf(),
            final(self)@ == spec_upsert(old(self)@, key@, meta),
    {
        proof {
            lemma_upsert_no_dup(self@, key@, meta);
        }
        match self.find(&key) {
            Some(i) => {
                self.entries.set(i, (key, meta));
                proof {
                    assert(self@ =~= spec_upsert(old(self)@, key@, meta));
                }
            },
            None => {
                self.entries.push((key, meta));
                proof {
                    assert(self@ =~= spec_upsert(old(self)@, key@, meta));
                }
            },
        }
    }

    /// Keep only the records filed under one of the keys in `keep`; drop
    /// the rest.
    #[verifier::loop_isolation(false)]
    pub fn retain_keys(&mut self, keep: &Vec<FileKey>)
        requires
            old(self).wf(),
        ensures
            final(self).wf(),
            final(self)@ == retained(old(self)@, key_views(keep@)),
    {
        let ghost s0 = self@;
        let ghost ks = key_views(keep@);
        let mut kept: Vec<(FileKey, FileMetadata)> = Vec::new();
        let n = self.entries.len();
        let mut i: usize = 0;
        proof {
            reveal(Seq::filter);
            assert(s0.take(0) =~= Seq::<EntryView>::empty());
            assert(entry_views(kept@) =~= retained(s0.take(0), ks));
        }
        while i < n
            invariant
                i <= n,
                entry_views(kept@) == retained(s0.take(i as int), ks),
            decreases n - i,
        {
            let ghost prefix = s0.take(i as int);
            let ghost prefix1 = s0.take(i + 1 as int);
            let wanted = key_list_contains(keep, &self.entries[i].0);
            if wanted {
                let e = (self.entries[i].0.clone(), self.entries[i].1);
                let ghost ev = (e.0@, e.1);
                let ghost kpre = kept@;
                kept.push(e);
                proof {
                    reveal(Seq::filter);
                    assert(prefix1.drop_last() =~= prefix);
                    assert(prefix1.last() == s0[i as int]);
                    assert(ev == s0[i as int]);
                    assert(key_in_list(ks, prefix1.last().0));
                    assert(prefix1.filter(|e: EntryView| key_in_list(ks, e.0)) == prefix.filter(
                        |e: EntryView| key_in_list(ks, e.0),
                    ).push(s0[i as int]));
                    assert(entry_views(kept@) =~= entry_views(kpre).push(ev));
                    assert(entry_views(kept@) =~= retained(prefix1, ks));
                }
            } else {
                proof {
                    reveal(Seq::filter);
                    assert(prefix1.drop_last() =~= prefix);
                    assert(prefix1.last() == s0[i as int]);
                    assert(!key_in_list(ks, prefix1.last().0));
                    assert(prefix1.filter(|e: EntryView| key_in_list(ks, e.0)) == prefix.filter(
                        |e: EntryView| key_in_list(ks, e.0),
                    ));
                }
            }
            i = i + 1;
        }
        proof {
            assert(s0.take(n as int) =~= s0);
            lemma_retained_wf(s0, ks);
        }
        self.entries = kept;
    }

    /// Drop the record filed under `key`, if any.
    pub fn remove(&mut self, key: &FileKey)
        requires
            old(self).wf(),
        ensures
            final(self).wf(),
            final(self)@ == spec_remove(old(self)@, key@),
    {
        proof {
            lemma_remove_no_dup(self@, key@);
        }
        match self.find(key) {
            Some(i) => {
                self.entries.remove(i);
                proof {
                    assert(self@ =~= spec_remove(old(self)@, key@));
                }
            },
            None => {},
        }
    }
}

} // verus!
