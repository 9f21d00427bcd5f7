//! Byte-level path helpers: prefix tests, absoluteness, concatenation.
//!
//! Paths are handled as byte strings, exactly as the operating system hands
//! them over; no encoding is assumed.

use vstd::prelude::*;

verus! {

/// The path separator byte, `/`.
pub const SEPARATOR: u8 = 47;

/// `p` is a textual prefix of `s`.
pub open spec fn is_prefix_of(p: Seq<u8>, s: Seq<u8>) -> bool {
    p.len() <= s.len() && p == s.subrange(0, p.len() as int)
}

/// A path is absolute when it begins with the separator.
pub open spec fn is_absolute(s: Seq<u8>) -> bool {
    s.len() > 0 && s[0] == SEPARATOR
}

/// A base directory joined with a relative path: `base`, a separator, `rel`.
pub open spec fn joined(base: Seq<u8>, rel: Seq<u8>) -> Seq<u8> {
    base + seq![SEPARATOR] + rel
}

/// Two prefixes of the same path with the same length are the same path.
pub proof fn lemma_equal_length_prefixes(q: Seq<u8>, k1: Seq<u8>, k2: Seq<u8>)
    requires
        is_prefix_of(k1, q),
        is_prefix_of(k2, q),
        k1.len() == k2.len(),
    ensures
        k1 == k2,
{
}

/// Does `s` start with the bytes of `p`?
pub fn starts_with(s: &Vec<u8>, p: &Vec<u8>) -> (r: bool)
    ensures
        r == is_prefix_of(p@, s@),
{
    if p.len() > s.len() {
        return false;
    }
    let mut i: usize = 0;
    while i < p.len()
        invariant
            i <= p.len() <= s.len(),
            forall|j: int| 0 <= j < i ==> p@[j] == s@[j],
        decreases p.len() - i,
    {
        if p[i] != s[i] {
            proof {
                assert(s@.subrange(0, p@.len() as int)[i as int] == s@[i as int]);
            }
            return false;
        }
        i += 1;
    }
    proof {
        assert(p@ =~= s@.subrange(0, p@.len() as int));
    }
    true
}

/// Do the two byte strings hold the same bytes?
pub fn bytes_equal(a: &Vec<u8>, b: &Vec<u8>) -> (r: bool)
    ensures
        r == (a@ == b@),
{
    if a.len() != b.len() {
        return false;
    }
    let mut i: usize = 0;
    while i < a.len()
        invariant
            i <= a.len() == b.len(),
            forall|j: int| 0 <= j < i ==> a@[j] == b@[j],
        decreases a.len() - i,
    {
        if a[i] != b[i] {
            return false;
        }
        i += 1;
    }
    proof {
        assert(a@ =~= b@);
    }
    true
}

/// Is the path absolute?
pub fn is_absolute_path(s: &Vec<u8>) -> (r: bool)
    ensures
        r == is_absolute(s@),
{
    s.len() > 0 && s[0] == SEPARATOR
}

/// Append every byte of `src` to `dst`.
pub fn append_bytes(dst: &mut Vec<u8>, src: &Vec<u8>)
    ensures
        final(dst)@ == old(dst)@ + src@,
{
    let mut i: usize = 0;
    while i < src.len()
        invariant
            i <= src.len(),
            dst@ == old(dst)@ + src@.subrange(0, i as int),
        decreases src.len() - i,
    {
        dst.push(src[i]);
        proof {
            assert(old(dst)@ + src@.subrange(0, i as int) + seq![src@[i as int]]
                =~= old(dst)@ + src@.subrange(0, i + 1));
        }
        i += 1;
    }
    proof {
        assert(old(dst)@ + src@.subrange(0, src@.len() as int) =~= old(dst)@ + src@);
    }
}

/// A base directory joined with a relative path by a separator.
pub fn join_paths(base: &Vec<u8>, rel: &Vec<u8>) -> (r: Vec<u8>)
    ensures
        r@ == joined(base@, rel@),
{
    let mut r: Vec<u8> = Vec::new();
    append_bytes(&mut r, base);
    r.push(SEPARATOR);
    append_bytes(&mut r, rel);
    proof {
        assert(seq![] + base@ + seq![SEPARATOR] + rel@ =~= joined(base@, rel@));
    }
    r
}

/// An owned copy of a byte path.
pub fn copy_bytes(s: &Vec<u8>) -> (r: Vec<u8>)
    ensures
        r@ == s@,
{
    let r = suffix_from(s, 0);
    proof {
        assert(s@.subrange(0, s@.len() as int) =~= s@);
    }
    r
}

/// The bytes of `s` from position `start` to the end.
pub fn suffix_from(s: &Vec<u8>, start: usize) -> (r: Vec<u8>)
    requires
        start <= s@.len(),
    ensures
        r@ == s@.subrange(start as int, s@.len() as int),
{
    let mut r: Vec<u8> = Vec::new();
    let mut i: usize = start;
    while i < s.len()
        invariant
            start <= i <= s@.len(),
            r@ == s@.subrange(start as int, i as int),
        decreases s.len() - i,
    {
        r.push(s[i]);
        proof {
            assert(s@.subrange(start as int, i as int) + seq![s@[i as int]]
                =~= s@.subrange(start as int, i + 1));
        }
        i += 1;
    }
    r
}

} // verus!
