//! The persistent digest cache: a path-to-digest store that survives runs.
//!
//! The caller reads and writes the cache file and checks which cached paths
//! still exist; everything else — decoding and encoding the on-disk bytes,
//! pruning dead entries, deciding which paths must be hashed afresh, merging
//! fresh digests in, and deciding whether the file must be rewritten — is
//! verified here.

use vstd::prelude::*;
use crate::digest::{Digest, DIGEST_LEN};

verus! {

/// One cache entry: a path and the digest its content had when it was
/// last hashed.
pub struct CacheEntry {
    pub path: String,
    pub digest: Digest,
}

impl View for CacheEntry {
    type V = (Seq<char>, Seq<u8>);

    open spec fn view(&self) -> (Seq<char>, Seq<u8>) {
        (self.path@, self.digest@)
    }
}

/// The digest that an entry sequence associates with a path: the first
/// entry with that path wins.
pub open spec fn spec_lookup(s: Seq<(Seq<char>, Seq<u8>)>, p: Seq<char>) -> Option<Seq<u8>>
    decreases s.len(),
{
    if s.len() == 0 {
        None
    } else if s[0].0 == p {
        Some(s[0].1)
    } else {
        spec_lookup(s.drop_first(), p)
    }
}

/// Whether an entry sequence holds no path twice.
pub open spec fn unique_paths(s: Seq<(Seq<char>, Seq<u8>)>) -> bool {
    forall|i: int, j: int| 0 <= i < j < s.len() ==> s[i].0 != s[j].0
}

/// Whether every digest of an entry sequence has the fixed width.
pub open spec fn digests_wf(s: Seq<(Seq<char>, Seq<u8>)>) -> bool {
    forall|i: int| 0 <= i < s.len() ==> (#[trigger] s[i].1).len() == DIGEST_LEN
}

/// The persistent path-to-digest cache.
pub struct CacheMap {
    pub entries: Vec<CacheEntry>,
}

impl View for CacheMap {
    type V = Seq<(Seq<char>, Seq<u8>)>;

    open spec fn view(&self) -> Seq<(Seq<char>, Seq<u8>)> {
        Seq::new(self.entries@.len(), |i: int| self.entries@[i]@)
    }
}

/// If no index holds a path, it is not found.
pub proof fn lemma_lookup_absent(s: Seq<(Seq<char>, Seq<u8>)>, p: Seq<char>)
    requires
        forall|i: int| 0 <= i < s.len() ==> (#[trigger] s[i]).0 != p,
    ensures
        spec_lookup(s, p) is None,
    decreases s.len(),
{
    if s.len() > 0 {
        lemma_lookup_absent(s.drop_first(), p);
    }
}

impl CacheMap {
    /// A cache is well formed when no path occurs twice and every digest
    /// has the fixed width.
    pub open spec fn wf(self) -> bool {
        unique_paths(self@) && digests_wf(self@)
    }

    /// The empty cache.
    pub fn new() -> (r: CacheMap)
        ensures
            r@ == Seq::<(Seq<char>, Seq<u8>)>::empty(),
            r.wf(),
    {
        let r = CacheMap { entries: Vec::new() };
        proof {
            assert(r@ =~= Seq::<(Seq<char>, Seq<u8>)>::empty());
        }
        r
    }

    /// The number of entries.
    pub fn len(&self) -> (r: usize)
        ensures
            r == self@.len(),
    {
        self.entries.len()
    }

    /// The digest stored for a path, if any.
    pub fn lookup(&self, path: &str) -> (r: Option<&Digest>)
        ensures
            match r {
                Some(d) => spec_lookup(self@, path@) == Some(d@),
                None => spec_lookup(self@, path@) is None,
            },
    {
        let owned = path.to_owned();
        let n = self.entries.len();
        for i in 0..n
            invariant
                n == self.entries@.len(),
                owned@ == path@,
                forall|j: int| 0 <= j < i ==> (#[trigger] self@[j]).0 != path@,
        {
            if self.entries[i].path == owned {
                proof {
                    lemma_lookup_first_match(self@, path@, i as int);
                }
                return Some(&self.entries[i].digest);
            }
        }
        proof {
            lemma_lookup_absent(self@, path@);
        }
        None
    }

    /// Add an entry for a path that is not yet present.
    pub fn insert(&mut self, path: String, digest: Digest)
        requires
            old(self).wf(),
            spec_lookup(old(self)@, path@) is None,
            digest.wf(),
        ensures
            final(self)@ == old(self)@.push((path@, digest@)),
            final(self).wf(),
    {
        let ghost p = path@;
        proof {
            if exists|i: int| 0 <= i < old(self)@.len() && (#[trigger] old(self)@[i]).0 == p {
                let i = choose|i: int|
                    0 <= i < old(self)@.len() && (#[trigger] old(self)@[i]).0 == p;
                lemma_lookup_first_match_exists(old(self)@, p);
            }
        }
        self.entries.push(CacheEntry { path, digest });
        proof {
            assert(self@ =~= old(self)@.push((p, digest@)));
        }
    }

    /// The stored paths, in entry order.
    pub fn paths(&self) -> (r: Vec<String>)
        ensures
            r@.len() == self@.len(),
            forall|j: int| 0 <= j < self@.len() ==> (#[trigger] r@[j])@ == self@[j].0,
    {
        let mut out: Vec<String> = Vec::new();
        let n = self.entries.len();
        for i in 0..n
            invariant
                n == self.entries@.len(),
                out@.len() == i,
                forall|j: int| 0 <= j < i ==> (#[trigger] out@[j])@ == self@[j].0,
        {
            out.push(self.entries[i].path.clone());
        }
        out
    }
}

/// What remains of an entry sequence after pruning with per-entry liveness
/// flags: entry `i` is kept exactly when `alive[i]` is true.
pub open spec fn spec_prune(s: Seq<(Seq<char>, Seq<u8>)>, alive: Seq<bool>) -> Seq<
    (Seq<char>, Seq<u8>),
>
    decreases s.len(),
{
    if s.len() == 0 {
        Seq::empty()
    } else {
        let rest = spec_prune(s.drop_last(), alive.drop_last());
        if alive[s.len() - 1] {
            rest.push(s.last())
        } else {
            rest
        }
    }
}

/// The pruned sequence is never longer than the original.
proof fn lemma_prune_len(s: Seq<(Seq<char>, Seq<u8>)>, alive: Seq<bool>)
    requires
        alive.len() == s.len(),
    ensures
        spec_prune(s, alive).len() <= s.len(),
    decreases s.len(),
{
    if s.len() > 0 {
        lemma_prune_len(s.drop_last(), alive.drop_last());
    }
}

/// The original position that pruned entry `k` was kept from.
proof fn lemma_prune_origin_at(s: Seq<(Seq<char>, Seq<u8>)>, alive: Seq<bool>, k: int) -> (i: int)
    requires
        alive.len() == s.len(),
        0 <= k < spec_prune(s, alive).len(),
    ensures
        0 <= i < s.len(),
        alive[i],
        spec_prune(s, alive)[k] == s[i],
    decreases s.len(),
{
    lemma_prune_len(s, alive);
    if k < spec_prune(s.drop_last(), alive.drop_last()).len() {
        let i = lemma_prune_origin_at(s.drop_last(), alive.drop_last(), k);
        assert(spec_prune(s, alive)[k] == s.drop_last()[i]);
        i
    } else {
        s.len() - 1
    }
}

/// Two distinct pruned positions were kept from two distinct original
/// positions, in the same order.
proof fn lemma_prune_origins_ordered(
    s: Seq<(Seq<char>, Seq<u8>)>,
    alive: Seq<bool>,
    i: int,
    j: int,
) -> (ab: (int, int))
    requires
        alive.len() == s.len(),
        0 <= i < j < spec_prune(s, alive).len(),
    ensures
        0 <= ab.0 < ab.1 < s.len(),
        alive[ab.0] && alive[ab.1],
        spec_prune(s, alive)[i] == s[ab.0],
        spec_prune(s, alive)[j] == s[ab.1],
    decreases s.len(),
{
    lemma_prune_len(s, alive);
    if j < spec_prune(s.drop_last(), alive.drop_last()).len() {
        let (a, b) = lemma_prune_origins_ordered(s.drop_last(), alive.drop_last(), i, j);
        assert(spec_prune(s, alive)[i] == s.drop_last()[a]);
        assert(spec_prune(s, alive)[j] == s.drop_last()[b]);
        (a, b)
    } else {
        // j can only be the pushed last element of the original
        let a = lemma_prune_origin_at(s.drop_last(), alive.drop_last(), i);
        assert(spec_prune(s, alive)[i] == s.drop_last()[a]);
        (a, s.len() - 1)
    }
}

/// Pruning keeps well-formedness: the kept entries still have unique paths
/// and fixed-width digests.
pub proof fn lemma_prune_wf(s: Seq<(Seq<char>, Seq<u8>)>, alive: Seq<bool>)
    requires
        alive.len() == s.len(),
    ensures
        unique_paths(s) ==> unique_paths(spec_prune(s, alive)),
        digests_wf(s) ==> digests_wf(spec_prune(s, alive)),
        spec_prune(s, alive).len() <= s.len(),
{
    lemma_prune_len(s, alive);
    let pruned = spec_prune(s, alive);
    if unique_paths(s) {
        assert forall|i: int, j: int| 0 <= i < j < pruned.len() implies pruned[i].0
            != pruned[j].0 by {
            let (a, b) = lemma_prune_origins_ordered(s, alive, i, j);
            assert(s[a].0 != s[b].0);
        }
    }
    if digests_wf(s) {
        assert forall|k: int| 0 <= k < pruned.len() implies (#[trigger] pruned[k]).1.len()
            == DIGEST_LEN by {
            let i = lemma_prune_origin_at(s, alive, k);
            assert(s[i].1.len() == DIGEST_LEN);
        }
    }
}

/// The paths of `paths` that the cache does not hold, in order.  These are
/// the paths whose digest must be computed afresh.
pub open spec fn spec_missing(cache: Seq<(Seq<char>, Seq<u8>)>, paths: Seq<Seq<char>>) -> Seq<
    Seq<char>,
>
    decreases paths.len(),
{
    if paths.len() == 0 {
        Seq::empty()
    } else {
        let rest = spec_missing(cache, paths.drop_last());
        if spec_lookup(cache, paths.last()) is None {
            rest.push(paths.last())
        } else {
            rest
        }
    }
}

impl CacheMap {
    /// Remove the entries whose liveness flag is false: flag `i` answers
    /// whether the path of entry `i` still exists on disk.
    pub fn prune(&self, alive: &Vec<bool>) -> (r: CacheMap)
        requires
            self.wf(),
            alive@.len() == self@.len(),
        ensures
            r@ == spec_prune(self@, alive@),
            r.wf(),
    {
        let mut out: Vec<CacheEntry> = Vec::new();
        let n = self.entries.len();
        for i in 0..n
            invariant
                n == self.entries@.len(),
                alive@.len() == self@.len(),
                Seq::new(out@.len(), |k: int| out@[k]@) =~= spec_prune(
                    self@.take(i as int),
                    alive@.take(i as int),
                ),
        {
            let ghost pre = Seq::new(out@.len(), |k: int| out@[k]@);
            if alive[i] {
                out.push(
                    CacheEntry {
                        path: self.entries[i].path.clone(),
                        digest: self.entries[i].digest.duplicate(),
                    },
                );
            }
            proof {
                assert(self@.take(i + 1).drop_last() =~= self@.take(i as int));
                assert(alive@.take(i + 1).drop_last() =~= alive@.take(i as int));
                if alive@[i as int] {
                    assert(Seq::new(out@.len(), |k: int| out@[k]@) =~= pre.push(self@[i as int]));
                }
            }
        }
        proof {
            assert(self@.take(n as int) =~= self@);
            assert(alive@.take(n as int) =~= alive@);
            lemma_prune_wf(self@, alive@);
        }
        let r = CacheMap { entries: out };
        proof {
            assert(r@ =~= spec_prune(self@, alive@));
        }
        r
    }

    /// The given paths that the cache does not hold, in order: exactly
    /// those whose digest must be computed afresh.
    pub fn missing_paths(&self, paths: &Vec<String>) -> (r: Vec<String>)
        ensures
            r.deep_view() == spec_missing(self@, paths.deep_view()),
    {
        let mut out: Vec<String> = Vec::new();
        let n = paths.len();
        for i in 0..n
            invariant
                n == paths@.len(),
                out.deep_view() =~= spec_missing(self@, paths.deep_view().take(i as int)),
        {
            let ghost pre = out.deep_view();
            if self.lookup(paths[i].as_str()).is_none() {
                out.push(paths[i].clone());
            }
            proof {
                assert(paths.deep_view().take(i + 1).drop_last() =~= paths.deep_view().take(
                    i as int,
                ));
                assert(paths.deep_view().take(i + 1).last() == paths@[i as int]@);
                if spec_lookup(self@, paths@[i as int]@) is None {
                    assert(out.deep_view() =~= pre.push(paths@[i as int]@));
                } else {
                    assert(out.deep_view() =~= pre);
                }
            }
        }
        proof {
            assert(paths.deep_view().take(n as int) =~= paths.deep_view());
        }
        out
    }

    /// Merge freshly computed digests for paths that were missing from the
    /// cache; `fresh[i]` is the digest of `missing[i]`.
    pub fn merge_fresh(&mut self, missing: &Vec<String>, fresh: &Vec<Digest>)
        requires
            old(self).wf(),
            missing@.len() == fresh@.len(),
            forall|i: int|
                0 <= i < missing@.len() ==> spec_lookup(old(self)@, missing.deep_view()[i]) is None,
            forall|i: int, j: int|
                0 <= i < j < missing@.len() ==> missing.deep_view()[i] != missing.deep_view()[j],
            forall|i: int| 0 <= i < fresh@.len() ==> (#[trigger] fresh@[i]).wf(),
        ensures
            final(self)@ == old(self)@ + Seq::new(
                missing@.len() as nat,
                |i: int| (missing.deep_view()[i], fresh@[i]@),
            ),
            final(self).wf(),
    {
        let ghost added = Seq::new(
            missing@.len() as nat,
            |i: int| (missing.deep_view()[i], fresh@[i]@),
        );
        let n = missing.len();
        for i in 0..n
            invariant
                n == missing@.len(),
                n == fresh@.len(),
                self.wf(),
                added == Seq::new(
                    missing@.len() as nat,
                    |k: int| (missing.deep_view()[k], fresh@[k]@),
                ),
                self@ =~= old(self)@ + added.take(i as int),
                forall|k: int|
                    0 <= k < missing@.len() ==> spec_lookup(old(self)@, missing.deep_view()[k])
                        is None,
                forall|k: int, j: int|
                    0 <= k < j < missing@.len() ==> missing.deep_view()[k]
                        != missing.deep_view()[j],
                forall|k: int| 0 <= k < fresh@.len() ==> (#[trigger] fresh@[k]).wf(),
        {
            proof {
                lemma_lookup_append_absent(
                    old(self)@,
                    added.take(i as int),
                    missing.deep_view()[i as int],
                );
                lemma_lookup_absent(added.take(i as int), missing.deep_view()[i as int]);
            }
            self.insert(missing[i].clone(), fresh[i].duplicate());
            proof {
                assert(self@ =~= old(self)@ + added.take(i + 1));
            }
        }
        proof {
            assert(old(self)@ + added.take(n as int) =~= old(self)@ + added);
        }
    }

    /// The digest the cache holds for each of the given paths, which must
    /// all be present: `r[i]` pairs `paths[i]` with its digest.
    pub fn digests_for(&self, paths: &Vec<String>) -> (r: Vec<CacheEntry>)
        requires
            forall|i: int|
                0 <= i < paths@.len() ==> spec_lookup(self@, paths.deep_view()[i]) is Some,
        ensures
            r@.len() == paths@.len(),
            forall|i: int|
                0 <= i < paths@.len() ==> (#[trigger] r@[i])@ == (
                    paths.deep_view()[i],
                    spec_lookup(self@, paths.deep_view()[i])->Some_0,
                ),
    {
        let mut out: Vec<CacheEntry> = Vec::new();
        let n = paths.len();
        for i in 0..n
            invariant
                n == paths@.len(),
                out@.len() == i,
                forall|k: int|
                    0 <= k < paths@.len() ==> spec_lookup(self@, paths.deep_view()[k]) is Some,
                forall|k: int|
                    0 <= k < i ==> (#[trigger] out@[k])@ == (
                        paths.deep_view()[k],
                        spec_lookup(self@, paths.deep_view()[k])->Some_0,
                    ),
        {
            let d = match self.lookup(paths[i].as_str()) {
                Some(d) => d.duplicate(),
                None => {
                    proof {
                        assert(spec_lookup(self@, paths.deep_view()[i as int]) is Some);
                    }
                    unreached()
                },
            };
            out.push(CacheEntry { path: paths[i].clone(), digest: d });
        }
        out
    }
}

/// Looking a path up in a concatenation misses the left part when the path
/// is absent there.
proof fn lemma_lookup_append_absent(
    a: Seq<(Seq<char>, Seq<u8>)>,
    b: Seq<(Seq<char>, Seq<u8>)>,
    p: Seq<char>,
)
    requires
        spec_lookup(a, p) is None,
    ensures
        spec_lookup(a + b, p) == spec_lookup(b, p),
    decreases a.len(),
{
    if a.len() == 0 {
        assert(a + b =~= b);
    } else {
        assert((a + b).drop_first() =~= a.drop_first() + b);
        lemma_lookup_append_absent(a.drop_first(), b, p);
    }
}

/// Whether the refreshed cache must be written back: the entry count
/// changed through pruning or merging, and this is not a dry run.
pub fn cache_needs_write(
    original_len: usize,
    pruned_len: usize,
    merged_len: usize,
    dry_run: bool,
) -> (r: bool)
    ensures
        r == ((original_len != pruned_len || pruned_len != merged_len) && !dry_run),
{
    (original_len != pruned_len || pruned_len != merged_len) && !dry_run
}

/// The sibling path of the cache file that serves as its lock token.
pub fn lock_path_for(cache_path: &str) -> (r: String)
    ensures
        r@ == cache_path@ + ".lock"@,
{
    cache_path.to_owned().concat(".lock")
}

/// Somewhere in the sequence there is an entry with the looked-up path, so
/// the lookup finds one.
proof fn lemma_lookup_first_match_exists(s: Seq<(Seq<char>, Seq<u8>)>, p: Seq<char>)
    requires
        exists|i: int| 0 <= i < s.len() && (#[trigger] s[i]).0 == p,
    ensures
        spec_lookup(s, p) is Some,
    decreases s.len(),
{
    if s.len() > 0 && s[0].0 != p {
        let i = choose|i: int| 0 <= i < s.len() && (#[trigger] s[i]).0 == p;
        assert(s.drop_first()[i - 1].0 == p);
        lemma_lookup_first_match_exists(s.drop_first(), p);
    }
}

/// When every entry before index `i` misses the path and entry `i` hits it,
/// the lookup returns entry `i`'s digest.
proof fn lemma_lookup_first_match(s: Seq<(Seq<char>, Seq<u8>)>, p: Seq<char>, i: int)
    requires
        0 <= i < s.len(),
        s[i].0 == p,
        forall|j: int| 0 <= j < i ==> (#[trigger] s[j]).0 != p,
    ensures
        spec_lookup(s, p) == Some(s[i].1),
    decreases i,
{
    if i > 0 {
        assert(s.drop_first()[i - 1] == s[i]);
        assert(forall|j: int| 0 <= j < i - 1 ==> (#[trigger] s.drop_first()[j]).0 != p);
        lemma_lookup_first_match(s.drop_first(), p, i - 1);
    }
}

} // verus!
