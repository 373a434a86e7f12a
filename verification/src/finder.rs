//! The duplicate finder: which files must be hashed, how cached digests
//! and filesystem identity are used to avoid hashing, and how files are
//! grouped by digest.
//!
//! Candidates are processed in order, the library (cache) list first.  A
//! zero-length file is never considered.  A candidate whose identity was
//! already resolved this run reuses that digest; otherwise the persistent
//! cache is consulted; only when both miss must the caller hash the file's
//! bytes.  Files are then grouped by digest, and groups with at least two
//! members are the duplicate groups.

use vstd::prelude::*;
use crate::cache::{spec_lookup, CacheMap};
use crate::digest::Digest;
use crate::fileid::FileIdentity;

verus! {

/// One candidate file: its path, its size in bytes, and its on-disk
/// identity.
pub struct Candidate {
    pub path: String,
    pub size: u64,
    pub id: FileIdentity,
}

impl View for Candidate {
    type V = (Seq<char>, u64, FileIdentity);

    open spec fn view(&self) -> (Seq<char>, u64, FileIdentity) {
        (self.path@, self.size, self.id)
    }
}

/// The views of a vector of candidates, in order.
pub open spec fn cand_views(cs: Seq<Candidate>) -> Seq<(Seq<char>, u64, FileIdentity)> {
    Seq::new(cs.len(), |i: int| cs[i]@)
}

/// The identities that have been resolved after processing the given
/// candidates: every identity of a candidate with non-zero size.
pub open spec fn spec_seen_ids(cands: Seq<(Seq<char>, u64, FileIdentity)>) -> Set<FileIdentity>
    decreases cands.len(),
{
    if cands.len() == 0 {
        Set::empty()
    } else {
        let rest = spec_seen_ids(cands.drop_last());
        if cands.last().1 == 0 {
            rest
        } else {
            rest.insert(cands.last().2)
        }
    }
}

/// The paths whose digest must be computed afresh, in candidate order: a
/// candidate's path is requested when the file is non-empty, no earlier
/// candidate resolved the same identity, and the cache misses the path.
pub open spec fn spec_requests(
    cands: Seq<(Seq<char>, u64, FileIdentity)>,
    cache: Seq<(Seq<char>, Seq<u8>)>,
) -> Seq<Seq<char>>
    decreases cands.len(),
{
    if cands.len() == 0 {
        Seq::empty()
    } else {
        let rest = spec_requests(cands.drop_last(), cache);
        let c = cands.last();
        if c.1 == 0 || spec_seen_ids(cands.drop_last()).contains(c.2) || spec_lookup(cache, c.0)
            is Some {
            rest
        } else {
            rest.push(c.0)
        }
    }
}

/// Whether a vector of identities holds the given one.
fn id_in(ids: &Vec<FileIdentity>, id: FileIdentity) -> (r: bool)
    ensures
        r == ids@.contains(id),
{
    let n = ids.len();
    for i in 0..n
        invariant
            n == ids@.len(),
            forall|j: int| 0 <= j < i ==> ids@[j] != id,
    {
        if ids[i] == id {
            assert(ids@.contains(id));
            return true;
        }
    }
    assert(!ids@.contains(id));
    false
}

/// The paths that the caller must hash, in candidate order.  Everything
/// else resolves from identity coalescing or from the cache.
pub fn digest_requests(cands: &Vec<Candidate>, cache: &CacheMap) -> (r: Vec<String>)
    ensures
        r.deep_view() == spec_requests(cand_views(cands@), cache@),
{
    let mut seen: Vec<FileIdentity> = Vec::new();
    let mut out: Vec<String> = Vec::new();
    let n = cands.len();
    for i in 0..n
        invariant
            n == cands@.len(),
            forall|id: FileIdentity|
                seen@.contains(id) == spec_seen_ids(cand_views(cands@).take(i as int)).contains(
                    id,
                ),
            out.deep_view() =~= spec_requests(cand_views(cands@).take(i as int), cache@),
    {
        let ghost prefix = cand_views(cands@).take(i as int);
        let ghost prefix1 = cand_views(cands@).take(i + 1);
        proof {
            assert(prefix1.drop_last() =~= prefix);
            assert(prefix1.last() == cands@[i as int]@);
        }
        let ghost cv = cands@[i as int]@;
        if cands[i].size > 0 {
            let cid = cands[i].id;
            if !id_in(&seen, cid) {
                let ghost old_seen = seen@;
                seen.push(cid);
                proof {
                    assert(seen@.drop_last() =~= old_seen);
                    assert(seen@.last() == cid);
                    assert forall|id: FileIdentity|
                        seen@.contains(id) == spec_seen_ids(prefix1).contains(id) by {
                        assert(spec_seen_ids(prefix1) == spec_seen_ids(prefix).insert(cv.2));
                        if id == cv.2 {
                            assert(seen@[seen@.len() - 1] == id);
                            assert(seen@.contains(id));
                        } else {
                            if seen@.contains(id) {
                                let k = choose|k: int| 0 <= k < seen@.len() && seen@[k] == id;
                                assert(k < seen@.len() - 1);
                                assert(old_seen[k] == id);
                                assert(old_seen.contains(id));
                            }
                            if old_seen.contains(id) {
                                let k = choose|k: int|
                                    0 <= k < old_seen.len() && old_seen[k] == id;
                                assert(seen@[k] == id);
                                assert(seen@.contains(id));
                            }
                        }
                    }
                }
                if cache.lookup(cands[i].path.as_str()).is_none() {
                    out.push(cands[i].path.clone());
                    proof {
                        assert(spec_requests(prefix1, cache@) == spec_requests(
                            prefix,
                            cache@,
                        ).push(cv.0));
                        assert(out.deep_view() =~= spec_requests(prefix, cache@).push(cv.0));
                    }
                } else {
                    proof {
                        assert(spec_requests(prefix1, cache@) == spec_requests(prefix, cache@));
                    }
                }
            } else {
                proof {
                    assert(spec_seen_ids(prefix).contains(cv.2));
                    assert(spec_seen_ids(prefix1) == spec_seen_ids(prefix).insert(cv.2));
                    assert forall|id: FileIdentity|
                        seen@.contains(id) == spec_seen_ids(prefix1).contains(id) by {
                        assert(seen@.contains(id) == spec_seen_ids(prefix).contains(id));
                    }
                    assert(spec_requests(prefix1, cache@) == spec_requests(prefix, cache@));
                }
            }
        } else {
            proof {
                assert(spec_seen_ids(prefix1) == spec_seen_ids(prefix));
                assert(spec_requests(prefix1, cache@) == spec_requests(prefix, cache@));
            }
        }
    }
    proof {
        assert(cand_views(cands@).take(n as int) =~= cand_views(cands@));
    }
    out
}

/// The views of a sequence of digests, in order.
pub open spec fn digest_views(ds: Seq<Digest>) -> Seq<Seq<u8>> {
    Seq::new(ds.len(), |i: int| ds[i]@)
}

/// The digest that an identity sequence associates with an identity: the
/// first entry with that identity wins.
pub open spec fn spec_id_lookup(s: Seq<(FileIdentity, Seq<u8>)>, id: FileIdentity) -> Option<
    Seq<u8>,
>
    decreases s.len(),
{
    if s.len() == 0 {
        None
    } else if s[0].0 == id {
        Some(s[0].1)
    } else {
        spec_id_lookup(s.drop_first(), id)
    }
}

/// Appending an identity looks up like the original, with the appended
/// pair as the fallback.
proof fn lemma_id_lookup_push(s: Seq<(FileIdentity, Seq<u8>)>, p: (FileIdentity, Seq<u8>), id: FileIdentity)
    ensures
        spec_id_lookup(s.push(p), id) == (match spec_id_lookup(s, id) {
            Some(d) => Some(d),
            None => if p.0 == id {
                Some(p.1)
            } else {
                None
            },
        }),
    decreases s.len(),
{
    if s.len() == 0 {
        assert(s.push(p).len() == 1);
        assert(s.push(p)[0] == p);
        assert(s.push(p).drop_first() =~= Seq::<(FileIdentity, Seq<u8>)>::empty());
        assert(spec_id_lookup(Seq::<(FileIdentity, Seq<u8>)>::empty(), id) is None);
        if p.0 == id {
            assert(spec_id_lookup(s.push(p), id) == Some(p.1));
        } else {
            assert(spec_id_lookup(s.push(p), id) == spec_id_lookup(
                s.push(p).drop_first(),
                id,
            ));
        }
    } else {
        assert(s.push(p)[0] == s[0]);
        assert(s.push(p).drop_first() =~= s.drop_first().push(p));
        lemma_id_lookup_push(s.drop_first(), p, id);
        if s[0].0 == id {
            assert(spec_id_lookup(s, id) == Some(s[0].1));
            assert(spec_id_lookup(s.push(p), id) == Some(s[0].1));
        }
    }
}

/// The outcome of processing the candidates with the given cache and the
/// given freshly computed digests (one per requested path, in request
/// order): the resolved (path, digest) pairs, one per non-empty candidate
/// in candidate order, and the identity-to-digest pairs recorded along the
/// way, in first-resolution order.
pub open spec fn spec_resolve(
    cands: Seq<(Seq<char>, u64, FileIdentity)>,
    cache: Seq<(Seq<char>, Seq<u8>)>,
    fresh: Seq<Seq<u8>>,
) -> (Seq<(Seq<char>, Seq<u8>)>, Seq<(FileIdentity, Seq<u8>)>)
    decreases cands.len(),
{
    if cands.len() == 0 {
        (Seq::empty(), Seq::empty())
    } else {
        let prev = spec_resolve(cands.drop_last(), cache, fresh);
        let c = cands.last();
        if c.1 == 0 {
            prev
        } else if spec_id_lookup(prev.1, c.2) is Some {
            (prev.0.push((c.0, spec_id_lookup(prev.1, c.2)->Some_0)), prev.1)
        } else if spec_lookup(cache, c.0) is Some {
            let d = spec_lookup(cache, c.0)->Some_0;
            (prev.0.push((c.0, d)), prev.1.push((c.2, d)))
        } else {
            let d = fresh[spec_requests(cands.drop_last(), cache).len() as int];
            (prev.0.push((c.0, d)), prev.1.push((c.2, d)))
        }
    }
}

/// An identity has a recorded digest exactly when it has been seen.
proof fn lemma_resolve_seen_id(
    cands: Seq<(Seq<char>, u64, FileIdentity)>,
    cache: Seq<(Seq<char>, Seq<u8>)>,
    fresh: Seq<Seq<u8>>,
    id: FileIdentity,
)
    ensures
        (spec_id_lookup(spec_resolve(cands, cache, fresh).1, id) is Some) == spec_seen_ids(
            cands,
        ).contains(id),
    decreases cands.len(),
{
    if cands.len() > 0 {
        lemma_resolve_seen_id(cands.drop_last(), cache, fresh, id);
        let prev = spec_resolve(cands.drop_last(), cache, fresh);
        let c = cands.last();
        if c.1 != 0 && spec_id_lookup(prev.1, c.2) is None {
            if spec_lookup(cache, c.0) is Some {
                lemma_id_lookup_push(prev.1, (c.2, spec_lookup(cache, c.0)->Some_0), id);
            } else {
                lemma_id_lookup_push(
                    prev.1,
                    (c.2, fresh[spec_requests(cands.drop_last(), cache).len() as int]),
                    id,
                );
            }
        }
    }
}

/// Requests over a prefix never outnumber requests over the whole.
proof fn lemma_requests_len_monotone(
    cands: Seq<(Seq<char>, u64, FileIdentity)>,
    cache: Seq<(Seq<char>, Seq<u8>)>,
    i: int,
)
    requires
        0 <= i <= cands.len(),
    ensures
        spec_requests(cands.take(i), cache).len() <= spec_requests(cands, cache).len(),
    decreases cands.len() - i,
{
    if i == cands.len() {
        assert(cands.take(i) =~= cands);
    } else {
        assert(cands.take(i + 1).drop_last() =~= cands.take(i));
        lemma_requests_len_monotone(cands, cache, i + 1);
    }
}

/// One already-resolved identity with its digest.
pub struct IdDigest {
    pub id: FileIdentity,
    pub digest: Digest,
}

impl View for IdDigest {
    type V = (FileIdentity, Seq<u8>);

    open spec fn view(&self) -> (FileIdentity, Seq<u8>) {
        (self.id, self.digest@)
    }
}

/// The views of a vector of identity-digest pairs, in order.
pub open spec fn id_views(s: Seq<IdDigest>) -> Seq<(FileIdentity, Seq<u8>)> {
    Seq::new(s.len(), |i: int| s[i]@)
}

/// One candidate with its resolved digest.
pub struct ResolvedFile {
    pub path: String,
    pub digest: Digest,
}

impl View for ResolvedFile {
    type V = (Seq<char>, Seq<u8>);

    open spec fn view(&self) -> (Seq<char>, Seq<u8>) {
        (self.path@, self.digest@)
    }
}

/// The views of a vector of resolved files, in order.
pub open spec fn resolved_views(rs: Seq<ResolvedFile>) -> Seq<(Seq<char>, Seq<u8>)> {
    Seq::new(rs.len(), |i: int| rs[i]@)
}

/// When every entry before index `i` misses the identity and entry `i`
/// hits it, the lookup returns entry `i`'s digest.
proof fn lemma_id_lookup_first_match(s: Seq<(FileIdentity, Seq<u8>)>, id: FileIdentity, i: int)
    requires
        0 <= i < s.len(),
        s[i].0 == id,
        forall|j: int| 0 <= j < i ==> (#[trigger] s[j]).0 != id,
    ensures
        spec_id_lookup(s, id) == Some(s[i].1),
    decreases i,
{
    if i > 0 {
        assert(s.drop_first()[i - 1] == s[i]);
        assert(forall|j: int| 0 <= j < i - 1 ==> (#[trigger] s.drop_first()[j]).0 != id);
        lemma_id_lookup_first_match(s.drop_first(), id, i - 1);
    }
}

/// If no entry holds the identity, it is not found.
proof fn lemma_id_lookup_absent(s: Seq<(FileIdentity, Seq<u8>)>, id: FileIdentity)
    requires
        forall|j: int| 0 <= j < s.len() ==> (#[trigger] s[j]).0 != id,
    ensures
        spec_id_lookup(s, id) is None,
    decreases s.len(),
{
    if s.len() > 0 {
        lemma_id_lookup_absent(s.drop_first(), id);
    }
}

/// The digest recorded for an identity, if any.
fn lookup_id(seen: &Vec<IdDigest>, id: FileIdentity) -> (r: Option<&Digest>)
    ensures
        match r {
            Some(d) => spec_id_lookup(id_views(seen@), id) == Some(d@),
            None => spec_id_lookup(id_views(seen@), id) is None,
        },
{
    let n = seen.len();
    for i in 0..n
        invariant
            n == seen@.len(),
            forall|j: int| 0 <= j < i ==> (#[trigger] id_views(seen@)[j]).0 != id,
    {
        if seen[i].id == id {
            proof {
                lemma_id_lookup_first_match(id_views(seen@), id, i as int);
            }
            return Some(&seen[i].digest);
        }
    }
    proof {
        lemma_id_lookup_absent(id_views(seen@), id);
    }
    None
}

/// The digest of every non-empty candidate, in candidate order.  `fresh`
/// holds the digest of each requested path, in request order; identity
/// coalescing and the cache supply the rest.
pub fn resolve_digests(cands: &Vec<Candidate>, cache: &CacheMap, fresh: &Vec<Digest>) -> (r: Vec<
    ResolvedFile,
>)
    requires
        fresh@.len() == spec_requests(cand_views(cands@), cache@).len(),
    ensures
        resolved_views(r@) == spec_resolve(cand_views(cands@), cache@, digest_views(fresh@)).0,
{
    let ghost fviews = digest_views(fresh@);
    let mut seen: Vec<IdDigest> = Vec::new();
    let mut out: Vec<ResolvedFile> = Vec::new();
    let mut t: usize = 0;
    let fl = fresh.len();
    let n = cands.len();
    for i in 0..n
        invariant
            n == cands@.len(),
            fl == fresh@.len(),
            fviews == digest_views(fresh@),
            fresh@.len() == spec_requests(cand_views(cands@), cache@).len(),
            t == spec_requests(cand_views(cands@).take(i as int), cache@).len(),
            resolved_views(out@) =~= spec_resolve(
                cand_views(cands@).take(i as int),
                cache@,
                fviews,
            ).0,
            id_views(seen@) =~= spec_resolve(cand_views(cands@).take(i as int), cache@, fviews).1,
    {
        let ghost prefix = cand_views(cands@).take(i as int);
        let ghost prefix1 = cand_views(cands@).take(i + 1);
        let ghost cv = cands@[i as int]@;
        let ghost prev = spec_resolve(prefix, cache@, fviews);
        proof {
            assert(prefix1.drop_last() =~= prefix);
            assert(prefix1.last() == cv);
        }
        if cands[i].size > 0 {
            let cid = cands[i].id;
            match lookup_id(&seen, cid) {
                Some(d) => {
                    let dup = d.duplicate();
                    out.push(ResolvedFile { path: cands[i].path.clone(), digest: dup });
                    proof {
                        assert(spec_id_lookup(prev.1, cv.2) == Some(d@));
                        assert(spec_resolve(prefix1, cache@, fviews).0 == prev.0.push((cv.0, d@)));
                        assert(spec_resolve(prefix1, cache@, fviews).1 == prev.1);
                        assert(resolved_views(out@) =~= prev.0.push((cv.0, d@)));
                        lemma_resolve_seen_id(prefix, cache@, fviews, cv.2);
                        assert(spec_seen_ids(prefix).contains(cv.2));
                        assert(spec_requests(prefix1, cache@) == spec_requests(prefix, cache@));
                    }
                },
                None => {
                    proof {
                        assert(spec_id_lookup(prev.1, cv.2) is None);
                        lemma_resolve_seen_id(prefix, cache@, fviews, cv.2);
                        assert(!spec_seen_ids(prefix).contains(cv.2));
                    }
                    let digest = match cache.lookup(cands[i].path.as_str()) {
                        Some(d) => {
                            proof {
                                assert(spec_lookup(cache@, cv.0) == Some(d@));
                                assert(spec_requests(prefix1, cache@) == spec_requests(
                                    prefix,
                                    cache@,
                                ));
                            }
                            d.duplicate()
                        },
                        None => {
                            proof {
                                assert(spec_lookup(cache@, cv.0) is None);
                                assert(spec_requests(prefix1, cache@) == spec_requests(
                                    prefix,
                                    cache@,
                                ).push(cv.0));
                                lemma_requests_len_monotone(cand_views(cands@), cache@, i + 1);
                                assert(spec_requests(prefix1, cache@).len() <= fresh@.len());
                                assert(t < fresh@.len());
                            }
                            let d = fresh[t].duplicate();
                            t = t + 1;
                            d
                        },
                    };
                    proof {
                        assert(spec_resolve(prefix1, cache@, fviews).0 == prev.0.push(
                            (cv.0, digest@),
                        ));
                        assert(spec_resolve(prefix1, cache@, fviews).1 == prev.1.push(
                            (cv.2, digest@),
                        ));
                    }
                    let dup = digest.duplicate();
                    seen.push(IdDigest { id: cid, digest: dup });
                    out.push(ResolvedFile { path: cands[i].path.clone(), digest });
                    proof {
                        assert(id_views(seen@) =~= prev.1.push((cv.2, digest@)));
                        assert(resolved_views(out@) =~= prev.0.push((cv.0, digest@)));
                    }
                },
            }
        } else {
            proof {
                assert(spec_resolve(prefix1, cache@, fviews) == prev);
                assert(spec_requests(prefix1, cache@) == spec_requests(prefix, cache@));
            }
        }
    }
    proof {
        assert(cand_views(cands@).take(n as int) =~= cand_views(cands@));
    }
    out
}


/// The distinct digests of the resolved files, in first-appearance order.
pub open spec fn spec_group_digests(r: Seq<(Seq<char>, Seq<u8>)>) -> Seq<Seq<u8>>
    decreases r.len(),
{
    if r.len() == 0 {
        Seq::empty()
    } else {
        let rest = spec_group_digests(r.drop_last());
        if rest.contains(r.last().1) {
            rest
        } else {
            rest.push(r.last().1)
        }
    }
}

/// The paths of the resolved files carrying the given digest, in order.
pub open spec fn spec_bucket(r: Seq<(Seq<char>, Seq<u8>)>, d: Seq<u8>) -> Seq<Seq<char>>
    decreases r.len(),
{
    if r.len() == 0 {
        Seq::empty()
    } else {
        let rest = spec_bucket(r.drop_last(), d);
        if r.last().1 == d {
            rest.push(r.last().0)
        } else {
            rest
        }
    }
}

/// For each digest in order, its bucket of paths, kept when it has at
/// least two members.
pub open spec fn spec_groups_of(r: Seq<(Seq<char>, Seq<u8>)>, ds: Seq<Seq<u8>>) -> Seq<
    Seq<Seq<char>>,
>
    decreases ds.len(),
{
    if ds.len() == 0 {
        Seq::empty()
    } else {
        let rest = spec_groups_of(r, ds.drop_last());
        if spec_bucket(r, ds.last()).len() >= 2 {
            rest.push(spec_bucket(r, ds.last()))
        } else {
            rest
        }
    }
}

/// The duplicate groups of the resolved files: for each digest in
/// first-appearance order, the paths that resolved to it, kept when at
/// least two did.  The first path of each group is the canonical source.
pub open spec fn spec_groups(r: Seq<(Seq<char>, Seq<u8>)>) -> Seq<Seq<Seq<char>>> {
    spec_groups_of(r, spec_group_digests(r))
}

/// A group of paths whose files hold identical bytes.  The first path is
/// the canonical source; the others are to be relinked to it.
pub struct DuplicateGroup {
    pub paths: Vec<String>,
}

impl View for DuplicateGroup {
    type V = Seq<Seq<char>>;

    open spec fn view(&self) -> Seq<Seq<char>> {
        self.paths.deep_view()
    }
}

/// The views of a vector of groups, in order.
pub open spec fn group_views(gs: Seq<DuplicateGroup>) -> Seq<Seq<Seq<char>>> {
    Seq::new(gs.len(), |i: int| gs[i]@)
}

/// Whether a vector of digests holds the given one.
fn digest_in(ds: &Vec<Digest>, d: &Digest) -> (r: bool)
    ensures
        r == digest_views(ds@).contains(d@),
{
    let n = ds.len();
    for i in 0..n
        invariant
            n == ds@.len(),
            forall|j: int| 0 <= j < i ==> (#[trigger] digest_views(ds@)[j]) != d@,
    {
        if ds[i].eq_digest(d) {
            proof {
                assert(digest_views(ds@)[i as int] == d@);
                assert(digest_views(ds@).contains(d@));
            }
            return true;
        }
    }
    proof {
        if digest_views(ds@).contains(d@) {
            let j = choose|j: int|
                0 <= j < digest_views(ds@).len() && digest_views(ds@)[j] == d@;
            assert(false);
        }
    }
    false
}

/// The paths among the resolved files that carry the given digest.
fn collect_bucket(resolved: &Vec<ResolvedFile>, d: &Digest) -> (r: Vec<String>)
    ensures
        r.deep_view() == spec_bucket(resolved_views(resolved@), d@),
{
    let mut out: Vec<String> = Vec::new();
    let n = resolved.len();
    for i in 0..n
        invariant
            n == resolved@.len(),
            out.deep_view() =~= spec_bucket(resolved_views(resolved@).take(i as int), d@),
    {
        let ghost prefix = resolved_views(resolved@).take(i as int);
        let ghost prefix1 = resolved_views(resolved@).take(i + 1);
        proof {
            assert(prefix1.drop_last() =~= prefix);
            assert(prefix1.last() == resolved@[i as int]@);
        }
        if resolved[i].digest.eq_digest(d) {
            out.push(resolved[i].path.clone());
            proof {
                assert(out.deep_view() =~= spec_bucket(prefix, d@).push(resolved@[i as int]@.0));
            }
        }
    }
    proof {
        assert(resolved_views(resolved@).take(n as int) =~= resolved_views(resolved@));
    }
    out
}

/// Group the resolved files by digest: for each digest in first-appearance
/// order, the paths that resolved to it, kept when at least two did.
pub fn group_duplicates(resolved: &Vec<ResolvedFile>) -> (r: Vec<DuplicateGroup>)
    ensures
        group_views(r@) == spec_groups(resolved_views(resolved@)),
{
    let ghost rv = resolved_views(resolved@);
    // the distinct digests, in first-appearance order
    let mut ds: Vec<Digest> = Vec::new();
    let n = resolved.len();
    for i in 0..n
        invariant
            n == resolved@.len(),
            digest_views(ds@) =~= spec_group_digests(resolved_views(resolved@).take(i as int)),
    {
        let ghost prefix = resolved_views(resolved@).take(i as int);
        let ghost prefix1 = resolved_views(resolved@).take(i + 1);
        proof {
            assert(prefix1.drop_last() =~= prefix);
            assert(prefix1.last() == resolved@[i as int]@);
        }
        if !digest_in(&ds, &resolved[i].digest) {
            ds.push(resolved[i].digest.duplicate());
            proof {
                assert(digest_views(ds@) =~= spec_group_digests(prefix).push(
                    resolved@[i as int]@.1,
                ));
            }
        }
    }
    proof {
        assert(resolved_views(resolved@).take(n as int) =~= resolved_views(resolved@));
    }
    // for each digest, its bucket, kept when it has two or more members
    let mut groups: Vec<DuplicateGroup> = Vec::new();
    let dn = ds.len();
    for k in 0..dn
        invariant
            dn == ds@.len(),
            digest_views(ds@) == spec_group_digests(rv),
            rv == resolved_views(resolved@),
            group_views(groups@) =~= spec_groups_of(rv, digest_views(ds@).take(k as int)),
    {
        let ghost dprefix = digest_views(ds@).take(k as int);
        let ghost dprefix1 = digest_views(ds@).take(k + 1);
        proof {
            assert(dprefix1.drop_last() =~= dprefix);
            assert(dprefix1.last() == digest_views(ds@)[k as int]);
        }
        let bucket = collect_bucket(resolved, &ds[k]);
        if bucket.len() >= 2 {
            groups.push(DuplicateGroup { paths: bucket });
            proof {
                assert(group_views(groups@) =~= spec_groups_of(rv, dprefix).push(
                    spec_bucket(rv, digest_views(ds@)[k as int]),
                ));
            }
        }
    }
    proof {
        assert(digest_views(ds@).take(dn as int) =~= digest_views(ds@));
    }
    groups
}

/// Find the duplicate groups among the candidates: resolve every digest,
/// then group by digest.  `fresh` holds the digest of each requested path,
/// in request order.
pub fn find_duplicates(cands: &Vec<Candidate>, cache: &CacheMap, fresh: &Vec<Digest>) -> (r: Vec<
    DuplicateGroup,
>)
    requires
        fresh@.len() == spec_requests(cand_views(cands@), cache@).len(),
    ensures
        group_views(r@) == spec_groups(
            spec_resolve(cand_views(cands@), cache@, digest_views(fresh@)).0,
        ),
{
    let resolved = resolve_digests(cands, cache, fresh);
    group_duplicates(&resolved)
}


/// The resolved file that bucket member `j` came from.
proof fn lemma_bucket_origin(r: Seq<(Seq<char>, Seq<u8>)>, d: Seq<u8>, j: int) -> (i: int)
    requires
        0 <= j < spec_bucket(r, d).len(),
    ensures
        0 <= i < r.len(),
        r[i].0 == spec_bucket(r, d)[j],
        r[i].1 == d,
    decreases r.len(),
{
    if j < spec_bucket(r.drop_last(), d).len() {
        let i = lemma_bucket_origin(r.drop_last(), d, j);
        assert(spec_bucket(r, d)[j] == spec_bucket(r.drop_last(), d)[j]);
        i
    } else {
        r.len() - 1
    }
}

/// The resolved file that resolved entry `i` contributes to its digest's
/// bucket, at a definite position.
proof fn lemma_bucket_member(r: Seq<(Seq<char>, Seq<u8>)>, i: int) -> (j: int)
    requires
        0 <= i < r.len(),
    ensures
        0 <= j < spec_bucket(r, r[i].1).len(),
        spec_bucket(r, r[i].1)[j] == r[i].0,
    decreases r.len(),
{
    if i == r.len() - 1 {
        spec_bucket(r, r[i].1).len() - 1
    } else {
        assert(r.drop_last()[i] == r[i]);
        let j = lemma_bucket_member(r.drop_last(), i);
        assert(spec_bucket(r, r[i].1)[j] == spec_bucket(r.drop_last(), r[i].1)[j]);
        j
    }
}

/// Two resolved entries with one digest give its bucket two members, in
/// entry order.
proof fn lemma_bucket_two(r: Seq<(Seq<char>, Seq<u8>)>, i1: int, i2: int) -> (jj: (int, int))
    requires
        0 <= i1 < i2 < r.len(),
        r[i1].1 == r[i2].1,
    ensures
        0 <= jj.0 < jj.1 < spec_bucket(r, r[i1].1).len(),
        spec_bucket(r, r[i1].1)[jj.0] == r[i1].0,
        spec_bucket(r, r[i1].1)[jj.1] == r[i2].0,
    decreases r.len(),
{
    let d = r[i1].1;
    if i2 == r.len() - 1 {
        assert(r.drop_last()[i1] == r[i1]);
        let j1 = lemma_bucket_member(r.drop_last(), i1);
        assert(spec_bucket(r, d)[j1] == spec_bucket(r.drop_last(), d)[j1]);
        (j1, spec_bucket(r, d).len() - 1)
    } else {
        assert(r.drop_last()[i1] == r[i1]);
        assert(r.drop_last()[i2] == r[i2]);
        let jj = lemma_bucket_two(r.drop_last(), i1, i2);
        assert(spec_bucket(r, d)[jj.0] == spec_bucket(r.drop_last(), d)[jj.0]);
        assert(spec_bucket(r, d)[jj.1] == spec_bucket(r.drop_last(), d)[jj.1]);
        jj
    }
}

/// Every resolved entry's digest stands in the digest list.
proof fn lemma_group_digests_member(r: Seq<(Seq<char>, Seq<u8>)>, i: int) -> (k: int)
    requires
        0 <= i < r.len(),
    ensures
        0 <= k < spec_group_digests(r).len(),
        spec_group_digests(r)[k] == r[i].1,
    decreases r.len(),
{
    let ds = spec_group_digests(r);
    let rest = spec_group_digests(r.drop_last());
    if i == r.len() - 1 {
        if rest.contains(r[i].1) {
            let k = choose|k: int| 0 <= k < rest.len() && rest[k] == r[i].1;
            assert(ds[k] == rest[k]);
            k
        } else {
            rest.len() as int
        }
    } else {
        assert(r.drop_last()[i] == r[i]);
        let k = lemma_group_digests_member(r.drop_last(), i);
        assert(ds[k] == rest[k]);
        k
    }
}

/// A digest whose bucket has two or more members yields a group.
proof fn lemma_groups_of_emits(r: Seq<(Seq<char>, Seq<u8>)>, ds: Seq<Seq<u8>>, di: int) -> (gi:
    int)
    requires
        0 <= di < ds.len(),
        spec_bucket(r, ds[di]).len() >= 2,
    ensures
        0 <= gi < spec_groups_of(r, ds).len(),
        spec_groups_of(r, ds)[gi] == spec_bucket(r, ds[di]),
    decreases ds.len(),
{
    if di == ds.len() - 1 {
        spec_groups_of(r, ds).len() - 1
    } else {
        assert(ds.drop_last()[di] == ds[di]);
        let gi = lemma_groups_of_emits(r, ds.drop_last(), di);
        assert(spec_groups_of(r, ds)[gi] == spec_groups_of(r, ds.drop_last())[gi]);
        gi
    }
}

/// The digest that group `gi` was built from.
proof fn lemma_groups_of_origin(r: Seq<(Seq<char>, Seq<u8>)>, ds: Seq<Seq<u8>>, gi: int) -> (di:
    int)
    requires
        0 <= gi < spec_groups_of(r, ds).len(),
    ensures
        0 <= di < ds.len(),
        spec_groups_of(r, ds)[gi] == spec_bucket(r, ds[di]),
        spec_bucket(r, ds[di]).len() >= 2,
    decreases ds.len(),
{
    if gi < spec_groups_of(r, ds.drop_last()).len() {
        let di = lemma_groups_of_origin(r, ds.drop_last(), gi);
        assert(ds.drop_last()[di] == ds[di]);
        assert(spec_groups_of(r, ds)[gi] == spec_groups_of(r, ds.drop_last())[gi]);
        di
    } else {
        ds.len() - 1
    }
}

/// No false merge: any two members of one duplicate group are paths of
/// resolved files that carry one and the same digest.  Since the digest is
/// a function of a file's bytes, files with distinct content never share a
/// group, and the link applier never joins them.
pub proof fn lemma_no_false_merge(r: Seq<(Seq<char>, Seq<u8>)>, gi: int, j1: int, j2: int) -> (w:
    (int, int))
    requires
        0 <= gi < spec_groups(r).len(),
        0 <= j1 < spec_groups(r)[gi].len(),
        0 <= j2 < spec_groups(r)[gi].len(),
    ensures
        0 <= w.0 < r.len(),
        0 <= w.1 < r.len(),
        r[w.0].0 == spec_groups(r)[gi][j1],
        r[w.1].0 == spec_groups(r)[gi][j2],
        r[w.0].1 == r[w.1].1,
{
    let di = lemma_groups_of_origin(r, spec_group_digests(r), gi);
    let d = spec_group_digests(r)[di];
    let i1 = lemma_bucket_origin(r, d, j1);
    let i2 = lemma_bucket_origin(r, d, j2);
    (i1, i2)
}

/// Duplicate detection is complete: two resolved files with one digest
/// always end up together in one emitted group, in resolution order.
pub proof fn lemma_equal_digests_grouped(r: Seq<(Seq<char>, Seq<u8>)>, i1: int, i2: int) -> (w:
    (int, int, int))
    requires
        0 <= i1 < i2 < r.len(),
        r[i1].1 == r[i2].1,
    ensures
        0 <= w.0 < spec_groups(r).len(),
        0 <= w.1 < w.2 < spec_groups(r)[w.0].len(),
        spec_groups(r)[w.0][w.1] == r[i1].0,
        spec_groups(r)[w.0][w.2] == r[i2].0,
{
    let jj = lemma_bucket_two(r, i1, i2);
    let k = lemma_group_digests_member(r, i1);
    let gi = lemma_groups_of_emits(r, spec_group_digests(r), k);
    (gi, jj.0, jj.1)
}

/// The candidate that resolved entry `k` speaks of: it has non-zero size.
proof fn lemma_resolve_origin(
    cands: Seq<(Seq<char>, u64, FileIdentity)>,
    cache: Seq<(Seq<char>, Seq<u8>)>,
    fresh: Seq<Seq<u8>>,
    k: int,
) -> (i: int)
    requires
        0 <= k < spec_resolve(cands, cache, fresh).0.len(),
    ensures
        0 <= i < cands.len(),
        cands[i].1 != 0,
        spec_resolve(cands, cache, fresh).0[k].0 == cands[i].0,
    decreases cands.len(),
{
    let prev = spec_resolve(cands.drop_last(), cache, fresh);
    if k < prev.0.len() {
        let i = lemma_resolve_origin(cands.drop_last(), cache, fresh, k);
        assert(cands.drop_last()[i] == cands[i]);
        assert(spec_resolve(cands, cache, fresh).0[k] == prev.0[k]);
        i
    } else {
        cands.len() - 1
    }
}

/// Empty files are excluded: every path in any duplicate group belongs to
/// a candidate of non-zero size, so zero-length files are never grouped,
/// whatever their digests.
pub proof fn lemma_empty_files_excluded(
    cands: Seq<(Seq<char>, u64, FileIdentity)>,
    cache: Seq<(Seq<char>, Seq<u8>)>,
    fresh: Seq<Seq<u8>>,
    gi: int,
    j: int,
) -> (i: int)
    requires
        0 <= gi < spec_groups(spec_resolve(cands, cache, fresh).0).len(),
        0 <= j < spec_groups(spec_resolve(cands, cache, fresh).0)[gi].len(),
    ensures
        0 <= i < cands.len(),
        cands[i].1 != 0,
        spec_groups(spec_resolve(cands, cache, fresh).0)[gi][j] == cands[i].0,
{
    let r = spec_resolve(cands, cache, fresh).0;
    let di = lemma_groups_of_origin(r, spec_group_digests(r), gi);
    let k = lemma_bucket_origin(r, spec_group_digests(r)[di], j);
    lemma_resolve_origin(cands, cache, fresh, k)
}

} // verus!
