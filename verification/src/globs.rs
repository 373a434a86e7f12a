//! Glob patterns and candidate path lists.
//!
//! The caller expands patterns against the filesystem; this module checks
//! a pattern's syntax before any filesystem work, builds the recursive
//! form of a directory pattern, and sorts and deduplicates the expanded
//! path lists.

use vstd::prelude::*;
use vstd::slice::slice_index_get;
use vstd::utf8::encode_utf8;
use crate::error::Error;

verus! {

/// What glob's pattern compiler says of a pattern: nothing, or the
/// position and message of its syntax error.  A function of the pattern
/// text alone.
pub uninterp spec fn glob_pattern_error(pattern: Seq<char>) -> Option<(int, Seq<char>)>;

/// Relies on glob::Pattern::new: a deterministic syntax check of the
/// pattern text; on a malformed pattern it returns the error position and
/// a message describing the error.
#[verifier::external_body]
fn check_pattern(pattern: &str) -> (r: Option<(usize, String)>)
    ensures
        r is None <==> glob_pattern_error(pattern@) is None,
        r matches Some(e) ==> (glob_pattern_error(pattern@) matches Some(g) && g.0 == e.0 as int
            && g.1 == e.1@),
{
    match glob::Pattern::new(pattern) {
        Ok(_) => None,
        Err(e) => Some((e.pos, e.msg.to_owned())),
    }
}

/// Check one pattern's syntax: `Ok` exactly when the pattern compiles,
/// and otherwise the pattern-syntax error with the pattern text, the
/// error position and the error message.
pub fn validate_pattern(pattern: &str) -> (r: Result<(), Error>)
    ensures
        r is Ok <==> glob_pattern_error(pattern@) is None,
        r matches Err(e) ==> (e matches Error::GlobPattern { glob, pos, msg }
            && glob_pattern_error(pattern@) matches Some(g) && glob@ == pattern@ && g.0
            == pos as int && g.1 == msg@),
{
    match check_pattern(pattern) {
        None => Ok(()),
        Some(e) => {
            let (pos, msg) = e;
            Err(Error::GlobPattern { glob: pattern.to_owned(), pos, msg })
        },
    }
}

/// Check every pattern, in order; the first malformed one is the error.
pub fn validate_patterns(patterns: &Vec<String>) -> (r: Result<(), Error>)
    ensures
        r is Ok <==> (forall|i: int|
            0 <= i < patterns@.len() ==> glob_pattern_error(
                (#[trigger] patterns@[i])@,
            ) is None),
        r matches Err(e) ==> (e matches Error::GlobPattern { glob, .. } && exists|i: int|
            0 <= i < patterns@.len() && (#[trigger] patterns@[i])@ == glob@
                && glob_pattern_error(glob@) is Some),
{
    let n = patterns.len();
    for i in 0..n
        invariant
            n == patterns@.len(),
            forall|j: int|
                0 <= j < i ==> glob_pattern_error((#[trigger] patterns@[j])@) is None,
    {
        if let Err(e) = validate_pattern(patterns[i].as_str()) {
            return Err(e);
        }
    }
    Ok(())
}

/// The pattern that finds every file under a directory, recursively.
pub fn recursive_glob(dir: &str) -> (r: String)
    ensures
        r@ == dir@ + "/**/*"@,
{
    dir.to_owned().concat("/**/*")
}

/// Byte-wise lexicographic order: the order the expanded path lists are
/// sorted in.
pub open spec fn bytes_le(a: Seq<u8>, b: Seq<u8>) -> bool
    decreases a.len(),
{
    if a.len() == 0 {
        true
    } else if b.len() == 0 {
        false
    } else if a[0] < b[0] {
        true
    } else if a[0] > b[0] {
        false
    } else {
        bytes_le(a.drop_first(), b.drop_first())
    }
}

/// The order is total.
proof fn lemma_bytes_le_total(a: Seq<u8>, b: Seq<u8>)
    ensures
        bytes_le(a, b) || bytes_le(b, a),
    decreases a.len(),
{
    if a.len() > 0 && b.len() > 0 && a[0] == b[0] {
        lemma_bytes_le_total(a.drop_first(), b.drop_first());
    }
}

/// The order is transitive.
proof fn lemma_bytes_le_trans(a: Seq<u8>, b: Seq<u8>, c: Seq<u8>)
    requires
        bytes_le(a, b),
        bytes_le(b, c),
    ensures
        bytes_le(a, c),
    decreases a.len(),
{
    if a.len() > 0 && b.len() > 0 && c.len() > 0 && a[0] == b[0] && b[0] == c[0] {
        lemma_bytes_le_trans(a.drop_first(), b.drop_first(), c.drop_first());
    }
}

/// The byte encoding of a path: what the sort order compares.
pub open spec fn path_bytes(p: Seq<char>) -> Seq<u8> {
    encode_utf8(p)
}

/// Whether a path list is sorted in byte-wise lexicographic order.
pub open spec fn sorted_paths(ps: Seq<Seq<char>>) -> bool {
    forall|i: int, j: int|
        0 <= i < j < ps.len() ==> bytes_le(path_bytes(ps[i]), path_bytes(ps[j]))
}

/// Whether a path list holds no path twice.
pub open spec fn distinct_paths(ps: Seq<Seq<char>>) -> bool {
    forall|i: int, j: int| 0 <= i < j < ps.len() ==> ps[i] != ps[j]
}

/// Byte-wise comparison of two strings.
fn str_le(a: &str, b: &str) -> (r: bool)
    ensures
        r == bytes_le(path_bytes(a@), path_bytes(b@)),
{
    let ab = a.as_bytes();
    let bb = b.as_bytes();
    let an = ab.len();
    let bn = bb.len();
    let mut i: usize = 0;
    proof {
        assert(ab@.skip(0) =~= ab@);
        assert(bb@.skip(0) =~= bb@);
    }
    loop
        invariant
            i <= an,
            i <= bn,
            an == ab@.len(),
            bn == bb@.len(),
            ab@ == path_bytes(a@),
            bb@ == path_bytes(b@),
            bytes_le(ab@, bb@) == bytes_le(ab@.skip(i as int), bb@.skip(i as int)),
        decreases an - i,
    {
        if i == an {
            proof {
                assert(ab@.skip(i as int).len() == 0);
            }
            return true;
        }
        if i == bn {
            proof {
                assert(bb@.skip(i as int).len() == 0);
                assert(ab@.skip(i as int).len() > 0);
            }
            return false;
        }
        let x = *slice_index_get(ab, i);
        let y = *slice_index_get(bb, i);
        proof {
            assert(ab@.skip(i as int)[0] == ab@[i as int]);
            assert(bb@.skip(i as int)[0] == bb@[i as int]);
            assert(ab@.skip(i as int).drop_first() =~= ab@.skip(i + 1));
            assert(bb@.skip(i as int).drop_first() =~= bb@.skip(i + 1));
        }
        if x < y {
            return true;
        }
        if x > y {
            return false;
        }
        i = i + 1;
    }
}

/// Whether the list holds a string with the given text.
fn path_in(ps: &Vec<String>, p: &String) -> (r: bool)
    ensures
        r == ps.deep_view().contains(p@),
{
    let n = ps.len();
    for i in 0..n
        invariant
            n == ps@.len(),
            forall|j: int| 0 <= j < i ==> (#[trigger] ps.deep_view()[j]) != p@,
    {
        if ps[i] == *p {
            proof {
                assert(ps.deep_view()[i as int] == p@);
                assert(ps.deep_view().contains(p@));
            }
            return true;
        }
    }
    proof {
        if ps.deep_view().contains(p@) {
            let j = choose|j: int| 0 <= j < ps.deep_view().len() && ps.deep_view()[j] == p@;
            assert(false);
        }
    }
    false
}

/// Sort the expanded paths in byte-wise lexicographic order and drop
/// duplicates: the result is sorted, holds no path twice, and holds
/// exactly the paths of the input.
pub fn sort_dedup_paths(paths: &Vec<String>) -> (r: Vec<String>)
    ensures
        sorted_paths(r.deep_view()),
        distinct_paths(r.deep_view()),
        forall|p: Seq<char>| r.deep_view().contains(p) == paths.deep_view().contains(p),
{
    let mut out: Vec<String> = Vec::new();
    let n = paths.len();
    for i in 0..n
        invariant
            n == paths@.len(),
            sorted_paths(out.deep_view()),
            distinct_paths(out.deep_view()),
            forall|p: Seq<char>|
                out.deep_view().contains(p) == paths.deep_view().take(i as int).contains(p),
    {
        let ghost pre = out.deep_view();
        let ghost prefix = paths.deep_view().take(i as int);
        let ghost prefix1 = paths.deep_view().take(i + 1);
        proof {
            assert(prefix1.drop_last() =~= prefix);
            assert(prefix1.last() == paths.deep_view()[i as int]);
            let ghost px = paths.deep_view()[i as int];
            assert forall|p: Seq<char>|
                prefix1.contains(p) == (prefix.contains(p) || p == px) by {
                if prefix1.contains(p) {
                    let k = choose|k: int| 0 <= k < prefix1.len() && prefix1[k] == p;
                    if k < prefix.len() {
                        assert(prefix[k] == p);
                    }
                }
                if prefix.contains(p) {
                    let k = choose|k: int| 0 <= k < prefix.len() && prefix[k] == p;
                    assert(prefix1[k] == p);
                }
                if p == px {
                    assert(prefix1[prefix1.len() - 1] == p);
                }
            }
        }
        if !path_in(&out, &paths[i]) {
            // find the first position whose path is not below the new one
            let mut pos: usize = 0;
            let m = out.len();
            while pos < m
                invariant
                    pos <= m,
                    m == out@.len(),
                    i < n,
                    n == paths@.len(),
                    forall|j: int|
                        0 <= j < pos ==> bytes_le(
                            path_bytes(#[trigger] out.deep_view()[j]),
                            path_bytes(paths.deep_view()[i as int]),
                        ),
                ensures
                    pos <= m,
                    forall|j: int|
                        0 <= j < pos ==> bytes_le(
                            path_bytes(#[trigger] out.deep_view()[j]),
                            path_bytes(paths.deep_view()[i as int]),
                        ),
                    pos < m ==> !bytes_le(
                        path_bytes(out.deep_view()[pos as int]),
                        path_bytes(paths.deep_view()[i as int]),
                    ),
                decreases m - pos,
            {
                if !str_le(out[pos].as_str(), paths[i].as_str()) {
                    break ;
                }
                pos = pos + 1;
            }
            proof {
                if pos < out@.len() {
                    lemma_bytes_le_total(
                        path_bytes(out.deep_view()[pos as int]),
                        path_bytes(paths.deep_view()[i as int]),
                    );
                    assert(bytes_le(
                        path_bytes(paths.deep_view()[i as int]),
                        path_bytes(out.deep_view()[pos as int]),
                    ));
                }
            }
            out.insert(pos, paths[i].clone());
            proof {
                let x = paths.deep_view()[i as int];
                let newv = out.deep_view();
                assert(newv =~= pre.insert(pos as int, x));
                assert(newv.len() == pre.len() + 1);
                assert(forall|j: int| 0 <= j < pos ==> newv[j] == pre[j]);
                assert(newv[pos as int] == x);
                assert(forall|j: int| pos < j < newv.len() ==> newv[j] == pre[j - 1]);
                // sortedness
                assert forall|a: int, b: int| 0 <= a < b < newv.len() implies bytes_le(
                    path_bytes(newv[a]),
                    path_bytes(newv[b]),
                ) by {
                    if a == pos {
                        // x before a kept element: x <= out[b-1], since the
                        // scan stopped before it
                        assert(bytes_le(path_bytes(x), path_bytes(pre[pos as int])));
                        if b - 1 > pos {
                            lemma_bytes_le_trans(
                                path_bytes(x),
                                path_bytes(pre[pos as int]),
                                path_bytes(pre[b - 1]),
                            );
                        }
                    } else if b == pos {
                        assert(bytes_le(path_bytes(pre[a]), path_bytes(x)));
                    } else if a < pos && b > pos {
                        assert(bytes_le(path_bytes(pre[a]), path_bytes(pre[b - 1])));
                    }
                }
                // distinctness: x differs from every kept element
                assert forall|a: int, b: int| 0 <= a < b < newv.len() implies newv[a]
                    != newv[b] by {
                    if a == pos {
                        assert(!pre.contains(x));
                        assert(pre[b - 1] != x);
                    } else if b == pos {
                        assert(!pre.contains(x));
                        assert(pre[a] != x);
                    }
                }
                // membership
                assert forall|p: Seq<char>| newv.contains(p) == (pre.contains(p) || p == x) by {
                    if newv.contains(p) {
                        let k = choose|k: int| 0 <= k < newv.len() && newv[k] == p;
                        if k < pos {
                            assert(pre[k] == p);
                        } else if k > pos {
                            assert(pre[k - 1] == p);
                        }
                    }
                    if pre.contains(p) {
                        let k = choose|k: int| 0 <= k < pre.len() && pre[k] == p;
                        if k < pos {
                            assert(newv[k] == p);
                        } else {
                            assert(newv[k + 1] == p);
                        }
                    }
                    if p == x {
                        assert(newv[pos as int] == p);
                    }
                }
            }
        } else {
            proof {
                assert(pre.contains(paths.deep_view()[i as int]));
            }
        }
    }
    proof {
        assert(paths.deep_view().take(n as int) =~= paths.deep_view());
    }
    out
}

} // verus!
