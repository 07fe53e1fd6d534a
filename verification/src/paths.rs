//! Store keys and relative paths under the union root.
//!
//! A file tracked by the engine is identified by the tier it currently lives
//! in and by its path relative to that tier's root. Rendered as a string the
//! key is `<tier>/<rel>`, which is the file's path relative to the union
//! root and the form in which the store is persisted.

use vstd::prelude::*;
use vstd::string::{StrSliceExecFns, StringExecFns};
use crate::tier::Tier;

verus! {

/// The name of a tier, as it appears as the first segment of a key's path.
pub fn tier_name(t: Tier) -> (r: &'static str)
    ensures
        r@ == spec_tier_name(t),
{
    match t {
        Tier::Hot => "hot",
        Tier::Warm => "warm",
        Tier::Cold => "cold",
    }
}

pub open spec fn spec_tier_name(t: Tier) -> Seq<char> {
    match t {
        Tier::Hot => "hot"@,
        Tier::Warm => "warm"@,
        Tier::Cold => "cold"@,
    }
}

/// The tier named by the first path segment of `p`, if any.
pub open spec fn key_tier(p: Seq<char>) -> Option<Tier> {
    if p.len() >= 4 && p.subrange(0, 4) == "hot/"@ {
        Some(Tier::Hot)
    } else if p.len() >= 5 && p.subrange(0, 5) == "warm/"@ {
        Some(Tier::Warm)
    } else if p.len() >= 5 && p.subrange(0, 5) == "cold/"@ {
        Some(Tier::Cold)
    } else {
        None
    }
}

/// A key of the metadata store: the tier a file lives in and its path
/// relative to that tier's root.
pub struct FileKey {
    pub tier: Tier,
    pub rel: String,
}

/// The mathematical value of a [`FileKey`].
#[verifier::ext_equal]
pub struct KeyView {
    pub tier: Tier,
    pub rel: Seq<char>,
}

impl View for FileKey {
    type V = KeyView;

    open spec fn view(&self) -> KeyView {
        KeyView { tier: self.tier, rel: self.rel@ }
    }
}

impl KeyView {
    /// The key rendered as a path relative to the union root.
    pub open spec fn path(self) -> Seq<char> {
        spec_tier_name(self.tier) + "/"@ + self.rel
    }
}

impl Clone for FileKey {
    fn clone(&self) -> (r: FileKey)
        ensures
            r@ == self@,
    {
        FileKey { tier: self.tier, rel: self.rel.clone() }
    }
}

impl FileKey {
    /// Whether two keys name the same file.
    pub fn key_eq(&self, other: &FileKey) -> (r: bool)
        ensures
            r == (self@ == other@),
    {
        let r = self.tier == other.tier && self.rel == other.rel;
        proof {
            if self.tier == other.tier && self.rel@ == other.rel@ {
                assert(self@ =~= other@);
            }
        }
        r
    }

    /// The key rendered as a path relative to the union root, `<tier>/<rel>`.
    pub fn path(&self) -> (r: String)
        ensures
            r@ == self@.path(),
    {
        let mut s = tier_name(self.tier).to_owned();
        s.append("/");
        s.append(self.rel.as_str());
        s
    }
}

/// Law: the tier recorded in a key is the tier named by the first path
/// segment of the path that the key renders to.
pub proof fn lemma_key_path_partition(k: KeyView)
    ensures
        key_tier(k.path()) == Some(k.tier),
{
    reveal_strlit("hot");
    reveal_strlit("warm");
    reveal_strlit("cold");
    reveal_strlit("/");
    reveal_strlit("hot/");
    reveal_strlit("warm/");
    reveal_strlit("cold/");
    let p = k.path();
    match k.tier {
        Tier::Hot => {
            assert(p.subrange(0, 4) =~= "hot/"@);
        },
        Tier::Warm => {
            assert(p.subrange(0, 5) =~= "warm/"@);
            assert(p.subrange(0, 4)[0] == 'w');
            assert(p.subrange(0, 4) != "hot/"@);
        },
        Tier::Cold => {
            assert(p.subrange(0, 5) =~= "cold/"@);
            assert(p.subrange(0, 4)[0] == 'c');
            assert(p.subrange(0, 4) != "hot/"@);
            assert(p.subrange(0, 5)[0] == 'c');
            assert(p.subrange(0, 5) != "warm/"@);
        },
    }
}

/// Strict lexicographic order on paths, by Unicode scalar value.
pub open spec fn lex_lt(a: Seq<char>, b: Seq<char>) -> bool
    decreases a.len(),
{
    if b.len() == 0 {
        false
    } else if a.len() == 0 {
        true
    } else if a[0] < b[0] {
        true
    } else if a[0] == b[0] {
        lex_lt(a.drop_first(), b.drop_first())
    } else {
        false
    }
}

pub proof fn lemma_lex_lt_irreflexive(a: Seq<char>)
    ensures
        !lex_lt(a, a),
    decreases a.len(),
{
    if a.len() > 0 {
        lemma_lex_lt_irreflexive(a.drop_first());
    }
}

pub proof fn lemma_lex_lt_transitive(a: Seq<char>, b: Seq<char>, c: Seq<char>)
    requires
        lex_lt(a, b),
        lex_lt(b, c),
    ensures
        lex_lt(a, c),
    decreases a.len() + b.len() + c.len(),
{
    if a.len() == 0 {
    } else {
        if a[0] == b[0] && b[0] == c[0] {
            lemma_lex_lt_transitive(a.drop_first(), b.drop_first(), c.drop_first());
        }
    }
}

pub proof fn lemma_lex_lt_connected(a: Seq<char>, b: Seq<char>)
    requires
        a != b,
    ensures
        lex_lt(a, b) || lex_lt(b, a),
    decreases a.len(),
{
    if a.len() == 0 && b.len() == 0 {
        assert(a =~= b);
    } else if a.len() > 0 && b.len() > 0 {
        if a[0] == b[0] {
            if a.drop_first() == b.drop_first() {
                assert(a =~= seq![a[0]] + a.drop_first());
                assert(b =~= seq![b[0]] + b.drop_first());
            } else {
                lemma_lex_lt_connected(a.drop_first(), b.drop_first());
            }
        }
    }
}

/// A common prefix does not decide the order: it can be dropped.
proof fn lemma_lex_lt_common_prefix(a: Seq<char>, b: Seq<char>, i: int)
    requires
        0 <= i <= a.len(),
        i <= b.len(),
        a.subrange(0, i) == b.subrange(0, i),
    ensures
        lex_lt(a, b) == lex_lt(a.skip(i), b.skip(i)),
    decreases i,
{
    if i > 0 {
        assert(a.subrange(0, i)[0] == b.subrange(0, i)[0]);
        assert(a.subrange(0, i)[0] == a[0]);
        assert(b.subrange(0, i)[0] == b[0]);
        assert(a[0] == b[0]);
        assert(a.len() > 0 && b.len() > 0);
        assert(a.drop_first().subrange(0, i - 1) =~= a.subrange(0, i).drop_first());
        assert(b.drop_first().subrange(0, i - 1) =~= b.subrange(0, i).drop_first());
        lemma_lex_lt_common_prefix(a.drop_first(), b.drop_first(), i - 1);
        assert(a.drop_first().skip(i - 1) =~= a.skip(i));
        assert(b.drop_first().skip(i - 1) =~= b.skip(i));
    } else {
        assert(a.skip(0) =~= a);
        assert(b.skip(0) =~= b);
    }
}

/// Decide the lexicographic order on two paths.
pub fn lex_less(a: &String, b: &String) -> (r: bool)
    ensures
        r == lex_lt(a@, b@),
{
    let alen = a.as_str().unicode_len();
    let blen = b.as_str().unicode_len();
    let mut i: usize = 0;
    loop
        invariant
            alen == a@.len(),
            blen == b@.len(),
            i <= alen,
            i <= blen,
            a@.subrange(0, i as int) == b@.subrange(0, i as int),
        decreases alen - i,
    {
        proof {
            lemma_lex_lt_common_prefix(a@, b@, i as int);
        }
        if i >= alen || i >= blen {
            proof {
                if a@.skip(i as int).len() == 0 && b@.skip(i as int).len() == 0 {
                    assert(!lex_lt(a@.skip(i as int), b@.skip(i as int)));
                }
            }
            return alen < blen;
        }
        let ca = a.as_str().get_char(i);
        let cb = b.as_str().get_char(i);
        proof {
            assert(a@.skip(i as int)[0] == a@[i as int]);
            assert(b@.skip(i as int)[0] == b@[i as int]);
        }
        if ca < cb {
            return true;
        }
        if cb < ca {
            proof {
                assert(!lex_lt(a@.skip(i as int), b@.skip(i as int)));
            }
            return false;
        }
        proof {
            assert(ca == cb);
            assert(a@.subrange(0, i + 1 as int) =~= b@.subrange(0, i + 1 as int));
        }
        i = i + 1;
    }
}

} // verus!
