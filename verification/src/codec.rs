//! The on-disk form of the digest cache.
//!
//! The format is private to this library: an entry count, then per entry
//! the path's character count, its characters as 32-bit code points, and
//! the digest bytes, all little endian.  Decoding is total: bytes that do
//! not parse back exactly — too short, an invalid code point, a duplicate
//! path, trailing garbage — yield the empty cache, so a corrupt cache file
//! costs nothing but a fresh run of hashing.

use vstd::prelude::*;
use vstd::bytes::{
    lemma_auto_spec_u32_to_from_le_bytes, lemma_auto_spec_u64_to_from_le_bytes,
    spec_u32_from_le_bytes, spec_u32_to_le_bytes, spec_u64_from_le_bytes, spec_u64_to_le_bytes,
    u32_from_le_bytes, u32_to_le_bytes, u64_from_le_bytes, u64_to_le_bytes,
};
use vstd::slice::slice_subrange;
use vstd::utf8::{char_is_scalar, char_u32_cast, is_scalar};
use crate::cache::{unique_paths, CacheEntry, CacheMap};
use crate::digest::{Digest, DIGEST_LEN};
use crate::text::str_chars;

verus! {

/// The encoding of a path: each character as a 32-bit code point.
pub open spec fn spec_encode_chars(p: Seq<char>) -> Seq<u8>
    decreases p.len(),
{
    if p.len() == 0 {
        Seq::empty()
    } else {
        spec_u32_to_le_bytes(p[0] as u32) + spec_encode_chars(p.drop_first())
    }
}

/// The encoding of one cache entry: character count, characters, digest.
pub open spec fn spec_encode_entry(e: (Seq<char>, Seq<u8>)) -> Seq<u8> {
    spec_u64_to_le_bytes(e.0.len() as u64) + spec_encode_chars(e.0) + e.1
}

/// The encoding of the entries, one after the other.
pub open spec fn spec_encode_entries(s: Seq<(Seq<char>, Seq<u8>)>) -> Seq<u8>
    decreases s.len(),
{
    if s.len() == 0 {
        Seq::empty()
    } else {
        spec_encode_entry(s[0]) + spec_encode_entries(s.drop_first())
    }
}

/// The encoding of a whole cache: entry count, then the entries.
pub open spec fn spec_encode(s: Seq<(Seq<char>, Seq<u8>)>) -> Seq<u8> {
    spec_u64_to_le_bytes(s.len() as u64) + spec_encode_entries(s)
}

/// Parse `n` characters from the front of `b`; on success, the characters
/// and what is left of `b`.
pub open spec fn spec_parse_chars(b: Seq<u8>, n: nat) -> Option<(Seq<char>, Seq<u8>)>
    decreases n,
{
    if n == 0 {
        Some((Seq::empty(), b))
    } else if b.len() < 4 {
        None
    } else {
        let code = spec_u32_from_le_bytes(b.take(4));
        if is_scalar(code) {
            match spec_parse_chars(b.skip(4), (n - 1) as nat) {
                Some(pair) => Some((seq![code as char] + pair.0, pair.1)),
                None => None,
            }
        } else {
            None
        }
    }
}

/// Parse one entry from the front of `b`.
pub open spec fn spec_parse_entry(b: Seq<u8>) -> Option<((Seq<char>, Seq<u8>), Seq<u8>)> {
    if b.len() < 8 {
        None
    } else {
        let m = spec_u64_from_le_bytes(b.take(8));
        match spec_parse_chars(b.skip(8), m as nat) {
            Some(pair) => {
                if pair.1.len() < DIGEST_LEN {
                    None
                } else {
                    Some(
                        (
                            (pair.0, pair.1.take(DIGEST_LEN as int)),
                            pair.1.skip(DIGEST_LEN as int),
                        ),
                    )
                }
            },
            None => None,
        }
    }
}

/// Parse `n` entries from the front of `b`.
pub open spec fn spec_parse_entries(b: Seq<u8>, n: nat) -> Option<
    (Seq<(Seq<char>, Seq<u8>)>, Seq<u8>),
>
    decreases n,
{
    if n == 0 {
        Some((Seq::empty(), b))
    } else {
        match spec_parse_entry(b) {
            Some(pair) => match spec_parse_entries(pair.1, (n - 1) as nat) {
                Some(pair2) => Some((seq![pair.0] + pair2.0, pair2.1)),
                None => None,
            },
            None => None,
        }
    }
}

/// What a cache file's bytes decode to.  Anything that does not parse back
/// exactly, or holds a path twice, is treated as the empty cache.
pub open spec fn spec_decode(b: Seq<u8>) -> Seq<(Seq<char>, Seq<u8>)> {
    if b.len() < 8 {
        Seq::empty()
    } else {
        let n = spec_u64_from_le_bytes(b.take(8));
        match spec_parse_entries(b.skip(8), n as nat) {
            Some(pair) => {
                if pair.1.len() == 0 && unique_paths(pair.0) {
                    pair.0
                } else {
                    Seq::empty()
                }
            },
            None => Seq::empty(),
        }
    }
}

/// Relies on char::from_u32: the result is Some exactly on Unicode scalar
/// values, and then carries the character with that code point.
#[verifier::external_body]
fn char_from_code(code: u32) -> (r: Option<char>)
    ensures
        r is Some <==> is_scalar(code),
        r matches Some(c) ==> c as u32 == code,
{
    char::from_u32(code)
}

/// Appending one character to a path appends its code-point bytes to the
/// path's encoding.
proof fn lemma_encode_chars_snoc(p: Seq<char>, c: char)
    ensures
        spec_encode_chars(p.push(c)) == spec_encode_chars(p) + spec_u32_to_le_bytes(c as u32),
    decreases p.len(),
{
    let single = p.push(c);
    if p.len() == 0 {
        assert(single.len() == 1 && single[0] == c);
        assert(single.drop_first() =~= Seq::<char>::empty());
        assert(spec_encode_chars(Seq::<char>::empty()) == Seq::<u8>::empty());
        assert(spec_encode_chars(single) == spec_u32_to_le_bytes(c as u32) + Seq::<u8>::empty());
        assert(spec_u32_to_le_bytes(c as u32) + Seq::<u8>::empty() =~= Seq::<u8>::empty()
            + spec_u32_to_le_bytes(c as u32));
    } else {
        assert(single.len() == p.len() + 1 && single[0] == p[0]);
        assert(single.drop_first() =~= p.drop_first().push(c));
        lemma_encode_chars_snoc(p.drop_first(), c);
        assert(spec_encode_chars(single) == spec_u32_to_le_bytes(p[0] as u32) + (
        spec_encode_chars(p.drop_first()) + spec_u32_to_le_bytes(c as u32)));
        assert(spec_u32_to_le_bytes(p[0] as u32) + (spec_encode_chars(p.drop_first())
            + spec_u32_to_le_bytes(c as u32)) =~= (spec_u32_to_le_bytes(p[0] as u32)
            + spec_encode_chars(p.drop_first())) + spec_u32_to_le_bytes(c as u32));
    }
}

/// Appending one entry to a cache appends its encoding to the cache's.
proof fn lemma_encode_entries_snoc(s: Seq<(Seq<char>, Seq<u8>)>, e: (Seq<char>, Seq<u8>))
    ensures
        spec_encode_entries(s.push(e)) == spec_encode_entries(s) + spec_encode_entry(e),
    decreases s.len(),
{
    let single = s.push(e);
    if s.len() == 0 {
        assert(single.len() == 1 && single[0] == e);
        assert(single.drop_first() =~= Seq::<(Seq<char>, Seq<u8>)>::empty());
        assert(spec_encode_entries(Seq::<(Seq<char>, Seq<u8>)>::empty()) == Seq::<u8>::empty());
        assert(spec_encode_entries(single) == spec_encode_entry(e) + Seq::<u8>::empty());
        assert(spec_encode_entry(e) + Seq::<u8>::empty() =~= Seq::<u8>::empty()
            + spec_encode_entry(e));
    } else {
        assert(single.len() == s.len() + 1 && single[0] == s[0]);
        assert(single.drop_first() =~= s.drop_first().push(e));
        lemma_encode_entries_snoc(s.drop_first(), e);
        assert(spec_encode_entries(single) == spec_encode_entry(s[0]) + (spec_encode_entries(
            s.drop_first(),
        ) + spec_encode_entry(e)));
        assert(spec_encode_entry(s[0]) + (spec_encode_entries(s.drop_first())
            + spec_encode_entry(e)) =~= (spec_encode_entry(s[0]) + spec_encode_entries(
            s.drop_first(),
        )) + spec_encode_entry(e));
    }
}

/// Append the encoding of one entry to the output.
fn encode_entry_into(e: &CacheEntry, out: &mut Vec<u8>)
    ensures
        final(out)@ == old(out)@ + spec_encode_entry(e@),
{
    proof {
        lemma_auto_spec_u64_to_from_le_bytes();
        lemma_auto_spec_u32_to_from_le_bytes();
    }
    let cs = str_chars(e.path.as_str());
    let m = cs.len();
    let mut len_bytes = u64_to_le_bytes(m as u64);
    out.append(&mut len_bytes);
    let ghost after_len = out@;
    for j in 0..m
        invariant
            m == cs@.len(),
            cs@ == e.path@,
            after_len == old(out)@ + spec_u64_to_le_bytes(m as u64),
            out@ == after_len + spec_encode_chars(cs@.take(j as int)),
    {
        let mut cb = u32_to_le_bytes(cs[j] as u32);
        out.append(&mut cb);
        proof {
            lemma_encode_chars_snoc(cs@.take(j as int), cs@[j as int]);
            assert(cs@.take(j + 1) =~= cs@.take(j as int).push(cs@[j as int]));
            assert(out@ =~= after_len + spec_encode_chars(cs@.take(j + 1)));
        }
    }
    proof {
        assert(cs@.take(m as int) =~= cs@);
    }
    let ghost after_chars = out@;
    let dn = e.digest.bytes.len();
    for k in 0..dn
        invariant
            dn == e.digest.bytes@.len(),
            out@ == after_chars + e.digest@.take(k as int),
    {
        out.push(e.digest.bytes[k]);
        proof {
            assert(out@ =~= after_chars + e.digest@.take(k + 1));
        }
    }
    proof {
        assert(e.digest@.take(dn as int) =~= e.digest@);
        assert(out@ =~= old(out)@ + spec_encode_entry(e@));
    }
}

/// The bytes that the cache is persisted as.
pub fn encode_cache(cache: &CacheMap) -> (r: Vec<u8>)
    ensures
        r@ == spec_encode(cache@),
{
    proof {
        lemma_auto_spec_u64_to_from_le_bytes();
    }
    let n = cache.entries.len();
    let mut out = u64_to_le_bytes(n as u64);
    for i in 0..n
        invariant
            n == cache.entries@.len(),
            out@ == spec_u64_to_le_bytes(n as u64) + spec_encode_entries(cache@.take(i as int)),
    {
        encode_entry_into(&cache.entries[i], &mut out);
        proof {
            lemma_encode_entries_snoc(cache@.take(i as int), cache@[i as int]);
            assert(cache@.take(i + 1) =~= cache@.take(i as int).push(cache@[i as int]));
            assert(out@ =~= spec_u64_to_le_bytes(n as u64) + spec_encode_entries(
                cache@.take(i + 1),
            ));
        }
    }
    proof {
        assert(cache@.take(n as int) =~= cache@);
    }
    out
}

/// Parse `m` characters starting at `start`; on success, the characters
/// and the position after them.
fn parse_chars_at(bytes: &Vec<u8>, start: usize, m: u64) -> (r: Option<(Vec<char>, usize)>)
    requires
        start <= bytes@.len(),
    ensures
        match r {
            Some(pair) => {
                &&& start <= pair.1 <= bytes@.len()
                &&& spec_parse_chars(bytes@.skip(start as int), m as nat) == Some(
                    (pair.0@, bytes@.skip(pair.1 as int)),
                )
            },
            None => spec_parse_chars(bytes@.skip(start as int), m as nat) is None,
        },
{
    proof {
        lemma_auto_spec_u32_to_from_le_bytes();
    }
    let mut pos = start;
    let mut cs: Vec<char> = Vec::new();
    let mut j: u64 = 0;
    while j < m
        invariant
            start <= pos <= bytes@.len(),
            j <= m,
            spec_parse_chars(bytes@.skip(start as int), m as nat) == glue_chars(
                cs@,
                spec_parse_chars(bytes@.skip(pos as int), (m - j) as nat),
            ),
        decreases m - j,
    {
        let ghost pre_tail = spec_parse_chars(bytes@.skip(pos as int), (m - j) as nat);
        if bytes.len() - pos < 4 {
            proof {
                assert(bytes@.skip(pos as int).len() < 4);
                assert(pre_tail is None);
            }
            return None;
        }
        let code = u32_from_le_bytes(slice_subrange(bytes.as_slice(), pos, pos + 4));
        proof {
            assert(bytes@.skip(pos as int).take(4) =~= bytes@.subrange(pos as int, pos + 4));
        }
        match char_from_code(code) {
            Some(c) => {
                proof {
                    char_u32_cast(c, code);
                    assert(bytes@.skip(pos as int).skip(4) =~= bytes@.skip(pos + 4));
                }
                let ghost old_cs = cs@;
                cs.push(c);
                pos = pos + 4;
                j = j + 1;
                proof {
                    let tail = spec_parse_chars(bytes@.skip(pos as int), (m - j) as nat);
                    assert(pre_tail == glue_one_char(c, tail));
                    if tail is Some {
                        assert(old_cs + (seq![c] + tail->Some_0.0) =~= cs@ + tail->Some_0.0);
                    }
                    assert(glue_chars(old_cs, glue_one_char(c, tail)) == glue_chars(cs@, tail));
                }
            },
            None => {
                proof {
                    assert(pre_tail is None);
                }
                return None;
            },
        }
    }
    proof {
        assert(spec_parse_chars(bytes@.skip(pos as int), 0) == Some(
            (Seq::<char>::empty(), bytes@.skip(pos as int)),
        ));
        assert(cs@ + Seq::<char>::empty() =~= cs@);
    }
    Some((cs, pos))
}

/// Parse one entry starting at `start`; on success, the entry and the
/// position after it.
fn parse_entry_at(bytes: &Vec<u8>, start: usize) -> (r: Option<(CacheEntry, usize)>)
    requires
        start <= bytes@.len(),
    ensures
        match r {
            Some(pair) => {
                &&& start <= pair.1 <= bytes@.len()
                &&& spec_parse_entry(bytes@.skip(start as int)) == Some(
                    (pair.0@, bytes@.skip(pair.1 as int)),
                )
                &&& pair.0.digest.wf()
            },
            None => spec_parse_entry(bytes@.skip(start as int)) is None,
        },
{
    proof {
        lemma_auto_spec_u64_to_from_le_bytes();
    }
    if bytes.len() - start < 8 {
        proof {
            assert(bytes@.skip(start as int).len() < 8);
        }
        return None;
    }
    let m = u64_from_le_bytes(slice_subrange(bytes.as_slice(), start, start + 8));
    proof {
        assert(bytes@.skip(start as int).take(8) =~= bytes@.subrange(start as int, start + 8));
        assert(bytes@.skip(start as int).skip(8) =~= bytes@.skip(start + 8));
    }
    match parse_chars_at(bytes, start + 8, m) {
        Some(parsed) => {
            let (cs, pos) = parsed;
            if bytes.len() - pos < DIGEST_LEN {
                proof {
                    assert(bytes@.skip(pos as int).len() < DIGEST_LEN);
                }
                return None;
            }
            let dbytes = vstd::slice::slice_to_vec(
                slice_subrange(bytes.as_slice(), pos, pos + DIGEST_LEN),
            );
            proof {
                assert(bytes@.skip(pos as int).take(DIGEST_LEN as int) =~= bytes@.subrange(
                    pos as int,
                    pos + DIGEST_LEN,
                ));
                assert(bytes@.skip(pos as int).skip(DIGEST_LEN as int) =~= bytes@.skip(
                    pos + DIGEST_LEN,
                ));
            }
            let path = crate::text::string_from_chars(&cs);
            let entry = CacheEntry { path, digest: Digest::from_bytes(dbytes) };
            Some((entry, pos + DIGEST_LEN))
        },
        None => None,
    }
}

/// The views of a vector of entries, in order.
pub open spec fn entry_views(es: Seq<CacheEntry>) -> Seq<(Seq<char>, Seq<u8>)> {
    Seq::new(es.len(), |i: int| es[i]@)
}

/// Prepend already-parsed entries to the outcome of parsing the rest.
pub open spec fn glue_entries(
    done: Seq<(Seq<char>, Seq<u8>)>,
    tail: Option<(Seq<(Seq<char>, Seq<u8>)>, Seq<u8>)>,
) -> Option<(Seq<(Seq<char>, Seq<u8>)>, Seq<u8>)> {
    match tail {
        Some(pair) => Some((done + pair.0, pair.1)),
        None => None,
    }
}

/// Whether the entries hold no path twice.
fn paths_unique_exec(entries: &Vec<CacheEntry>) -> (r: bool)
    ensures
        r == unique_paths(entry_views(entries@)),
{
    let n = entries.len();
    for i in 0..n
        invariant
            n == entries@.len(),
            forall|a: int, b: int|
                0 <= a < b < n && a < i ==> entry_views(entries@)[a].0
                    != entry_views(entries@)[b].0,
    {
        for j in (i + 1)..n
            invariant
                n == entries@.len(),
                i < n,
                forall|a: int, b: int|
                    0 <= a < b < n && a < i ==> entry_views(entries@)[a].0
                        != entry_views(entries@)[b].0,
                forall|b: int|
                    i < b < j ==> entry_views(entries@)[i as int].0 != entry_views(entries@)[b].0,
        {
            if entries[i].path == entries[j].path {
                proof {
                    assert(entry_views(entries@)[i as int].0 == entry_views(entries@)[j as int].0);
                }
                return false;
            }
        }
    }
    true
}

/// The cache that the given bytes decode to.  Total: anything that does
/// not parse back exactly yields the empty cache.
pub fn decode_cache(bytes: &Vec<u8>) -> (r: CacheMap)
    ensures
        r@ == spec_decode(bytes@),
        r.wf(),
{
    proof {
        lemma_auto_spec_u64_to_from_le_bytes();
    }
    if bytes.len() < 8 {
        return CacheMap::new();
    }
    let n = u64_from_le_bytes(slice_subrange(bytes.as_slice(), 0, 8));
    proof {
        assert(bytes@.take(8) =~= bytes@.subrange(0, 8));
    }
    let mut entries: Vec<CacheEntry> = Vec::new();
    let mut pos: usize = 8;
    let mut k: u64 = 0;
    while k < n
        invariant
            8 <= pos <= bytes@.len(),
            k <= n,
            n == spec_u64_from_le_bytes(bytes@.take(8)),
            bytes@.len() >= 8,
            spec_parse_entries(bytes@.skip(8), n as nat) == glue_entries(
                entry_views(entries@),
                spec_parse_entries(bytes@.skip(pos as int), (n - k) as nat),
            ),
            forall|i: int|
                0 <= i < entries@.len() ==> (#[trigger] entries@[i]).digest@.len() == DIGEST_LEN,
        decreases n - k,
    {
        let ghost pre_tail = spec_parse_entries(bytes@.skip(pos as int), (n - k) as nat);
        match parse_entry_at(bytes, pos) {
            Some(parsed) => {
                let (e, pos2) = parsed;
                let ghost old_views = entry_views(entries@);
                entries.push(e);
                pos = pos2;
                k = k + 1;
                proof {
                    let tail = spec_parse_entries(bytes@.skip(pos as int), (n - k) as nat);
                    assert(pre_tail == glue_one_entry(e@, tail));
                    assert(entry_views(entries@) =~= old_views.push(e@));
                    if tail is Some {
                        assert(old_views + (seq![e@] + tail->Some_0.0) =~= old_views.push(e@)
                            + tail->Some_0.0);
                    }
                    assert(glue_entries(old_views, glue_one_entry(e@, tail)) == glue_entries(
                        entry_views(entries@),
                        tail,
                    ));
                }
            },
            None => {
                proof {
                    assert(pre_tail is None);
                }
                return CacheMap::new();
            },
        }
    }
    proof {
        assert(spec_parse_entries(bytes@.skip(pos as int), 0) == Some(
            (Seq::<(Seq<char>, Seq<u8>)>::empty(), bytes@.skip(pos as int)),
        ));
        assert(entry_views(entries@) + Seq::<(Seq<char>, Seq<u8>)>::empty() =~= entry_views(
            entries@,
        ));
    }
    if pos != bytes.len() {
        proof {
            assert(bytes@.skip(pos as int).len() > 0);
        }
        return CacheMap::new();
    }
    proof {
        assert(bytes@.skip(pos as int).len() == 0);
    }
    if !paths_unique_exec(&entries) {
        return CacheMap::new();
    }
    let r = CacheMap { entries };
    proof {
        assert(r@ =~= entry_views(r.entries@));
        assert(r@ == spec_decode(bytes@));
    }
    r
}

/// Prepend one parsed entry to the outcome of parsing the rest.
pub open spec fn glue_one_entry(
    e: (Seq<char>, Seq<u8>),
    tail: Option<(Seq<(Seq<char>, Seq<u8>)>, Seq<u8>)>,
) -> Option<(Seq<(Seq<char>, Seq<u8>)>, Seq<u8>)> {
    match tail {
        Some(pair) => Some((seq![e] + pair.0, pair.1)),
        None => None,
    }
}

/// Parsing the encoding of a path gives the path back, whatever follows.
proof fn lemma_parse_encode_chars(p: Seq<char>, tail: Seq<u8>)
    ensures
        spec_parse_chars(spec_encode_chars(p) + tail, p.len()) == Some((p, tail)),
    decreases p.len(),
{
    lemma_auto_spec_u32_to_from_le_bytes();
    if p.len() == 0 {
        assert(spec_encode_chars(p) + tail =~= tail);
        assert(Seq::<char>::empty() =~= p);
    } else {
        let c = p[0];
        char_is_scalar(c);
        let b = spec_encode_chars(p) + tail;
        assert(spec_u32_to_le_bytes(c as u32).len() == 4);
        assert(b.take(4) =~= spec_u32_to_le_bytes(c as u32));
        assert(b.skip(4) =~= spec_encode_chars(p.drop_first()) + tail);
        char_u32_cast(c, c as u32);
        lemma_parse_encode_chars(p.drop_first(), tail);
        assert(seq![c] + p.drop_first() =~= p);
    }
}

/// Parsing the encoding of one entry gives the entry back, whatever
/// follows.
proof fn lemma_parse_encode_entry(e: (Seq<char>, Seq<u8>), tail: Seq<u8>)
    requires
        e.0.len() <= u64::MAX,
        e.1.len() == DIGEST_LEN,
    ensures
        spec_parse_entry(spec_encode_entry(e) + tail) == Some((e, tail)),
{
    lemma_auto_spec_u64_to_from_le_bytes();
    let b = spec_encode_entry(e) + tail;
    assert(spec_u64_to_le_bytes(e.0.len() as u64).len() == 8);
    assert(b.take(8) =~= spec_u64_to_le_bytes(e.0.len() as u64));
    assert(b.skip(8) =~= spec_encode_chars(e.0) + (e.1 + tail));
    let m = spec_u64_from_le_bytes(b.take(8));
    assert(m == e.0.len() as u64);
    assert(m as nat == e.0.len());
    lemma_parse_encode_chars(e.0, e.1 + tail);
    assert((e.1 + tail).len() >= DIGEST_LEN);
    assert((e.1 + tail).take(DIGEST_LEN as int) =~= e.1);
    assert((e.1 + tail).skip(DIGEST_LEN as int) =~= tail);
}

/// Parsing the encoding of an entry sequence gives the sequence back,
/// whatever follows.
proof fn lemma_parse_encode_entries(s: Seq<(Seq<char>, Seq<u8>)>, tail: Seq<u8>)
    requires
        crate::cache::digests_wf(s),
        forall|i: int| 0 <= i < s.len() ==> (#[trigger] s[i]).0.len() <= u64::MAX,
    ensures
        spec_parse_entries(spec_encode_entries(s) + tail, s.len()) == Some((s, tail)),
    decreases s.len(),
{
    if s.len() == 0 {
        assert(spec_encode_entries(s) + tail =~= tail);
        assert(Seq::<(Seq<char>, Seq<u8>)>::empty() =~= s);
    } else {
        let b = spec_encode_entries(s) + tail;
        assert(b =~= spec_encode_entry(s[0]) + (spec_encode_entries(s.drop_first()) + tail));
        assert(s[0].1.len() == DIGEST_LEN);
        lemma_parse_encode_entry(s[0], spec_encode_entries(s.drop_first()) + tail);
        assert(forall|i: int|
            0 <= i < s.drop_first().len() ==> (#[trigger] s.drop_first()[i]).1.len()
                == DIGEST_LEN);
        assert(forall|i: int|
            0 <= i < s.drop_first().len() ==> (#[trigger] s.drop_first()[i]).0.len()
                <= u64::MAX);
        lemma_parse_encode_entries(s.drop_first(), tail);
        assert(seq![s[0]] + s.drop_first() =~= s);
    }
}

/// The cache round trip: decoding what a well-formed cache was encoded as
/// gives every entry back, in order, unchanged.  In particular the digest
/// read back from the cache file for an unchanged path is exactly the
/// digest that was computed from the file's bytes when it was stored.
pub proof fn lemma_cache_round_trip(s: Seq<(Seq<char>, Seq<u8>)>)
    requires
        unique_paths(s),
        crate::cache::digests_wf(s),
        s.len() <= u64::MAX,
        forall|i: int| 0 <= i < s.len() ==> (#[trigger] s[i]).0.len() <= u64::MAX,
    ensures
        spec_decode(spec_encode(s)) == s,
{
    lemma_auto_spec_u64_to_from_le_bytes();
    let b = spec_encode(s);
    assert(spec_u64_to_le_bytes(s.len() as u64).len() == 8);
    assert(b.take(8) =~= spec_u64_to_le_bytes(s.len() as u64));
    assert(b.skip(8) =~= spec_encode_entries(s) + Seq::<u8>::empty());
    let n = spec_u64_from_le_bytes(b.take(8));
    assert(n == s.len() as u64);
    assert(n as nat == s.len());
    lemma_parse_encode_entries(s, Seq::empty());
}

/// Prepend already-parsed characters to the outcome of parsing the rest.
pub open spec fn glue_chars(done: Seq<char>, tail: Option<(Seq<char>, Seq<u8>)>) -> Option<
    (Seq<char>, Seq<u8>),
> {
    match tail {
        Some(pair) => Some((done + pair.0, pair.1)),
        None => None,
    }
}

/// Prepend one parsed character to the outcome of parsing the rest.
pub open spec fn glue_one_char(c: char, tail: Option<(Seq<char>, Seq<u8>)>) -> Option<
    (Seq<char>, Seq<u8>),
> {
    match tail {
        Some(pair) => Some((seq![c] + pair.0, pair.1)),
        None => None,
    }
}

} // verus!
