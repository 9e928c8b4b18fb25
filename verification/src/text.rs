use vstd::prelude::*;
use vstd::string::StrSliceExecFns;
use vstd::utf8::{decode_utf8, valid_utf8};

verus! {

/// Calls `String::from_utf8` of std.  The contract claims what its
/// documentation says: the call fails exactly when the bytes are not UTF-8
/// (here vstd's `valid_utf8`), and otherwise the string holds the characters
/// that the bytes encode.
#[verifier::external_body]
pub(crate) fn string_from_utf8(bytes: Vec<u8>) -> (r: Option<String>)
    ensures
        r is Some <==> valid_utf8(bytes@),
        r matches Some(s) ==> s@ == decode_utf8(bytes@),
{
    String::from_utf8(bytes).ok()
}

/// A copy of `len` bytes of `buf` from `start` on.
pub(crate) fn copy_bytes(buf: &[u8], start: usize, len: usize) -> (r: Vec<u8>)
    requires
        start + len <= buf@.len(),
    ensures
        r@ == buf@.subrange(start as int, start + len),
{
    let mut out: Vec<u8> = Vec::new();
    let mut i: usize = 0;
    assert(out@ =~= buf@.subrange(start as int, start as int));
    while i < len
        invariant
            i <= len,
            start + len <= buf.len(),
            out@ == buf@.subrange(start as int, start + i),
        decreases len - i,
    {
        out.push(buf[start + i]);
        i = i + 1;
        assert(out@ =~= buf@.subrange(start as int, start + i));
    }
    out
}

/// `p` stands in `s` from `i` on.
pub open spec fn occurs_at(s: Seq<char>, p: Seq<char>, i: int) -> bool {
    0 <= i && i + p.len() <= s.len() && s.subrange(i, i + p.len()) == p
}

/// `s` begins with `p`.
pub open spec fn starts_with(s: Seq<char>, p: Seq<char>) -> bool {
    occurs_at(s, p, 0)
}

/// `p` stands somewhere in `s`.
pub open spec fn contains(s: Seq<char>, p: Seq<char>) -> bool {
    exists|i: int| occurs_at(s, p, i)
}

/// Whether `p` stands in `s` from `i` on.
pub fn str_occurs_at(s: &str, p: &str, i: usize) -> (r: bool)
    ensures
        r == occurs_at(s@, p@, i as int),
{
    let n = s.unicode_len();
    let m = p.unicode_len();
    if m > n || i > n - m {
        return false;
    }
    let mut k: usize = 0;
    while k < m
        invariant
            k <= m,
            m == p@.len(),
            n == s@.len(),
            i + m <= n,
            forall|x: int| 0 <= x < k ==> s@[i + x] == p@[x],
        decreases m - k,
    {
        if s.get_char(i + k) != p.get_char(k) {
            assert(s@.subrange(i as int, i + m)[k as int] != p@[k as int]);
            return false;
        }
        k = k + 1;
    }
    assert(s@.subrange(i as int, i + m) =~= p@);
    true
}

/// Whether `s` begins with `p`.
pub fn str_starts_with(s: &str, p: &str) -> (r: bool)
    ensures
        r == starts_with(s@, p@),
{
    str_occurs_at(s, p, 0)
}

/// Whether `p` stands somewhere in `s`.
pub fn str_contains(s: &str, p: &str) -> (r: bool)
    ensures
        r == contains(s@, p@),
{
    let n = s.unicode_len();
    let m = p.unicode_len();
    if m > n {
        return false;
    }
    if m == 0 {
        assert(s@.subrange(0, 0) =~= p@);
        assert(occurs_at(s@, p@, 0));
        return true;
    }
    let last = n - m;
    let mut i: usize = 0;
    while i <= last
        invariant
            0 < m <= n,
            last == n - m,
            i <= last + 1,
            n == s@.len(),
            m == p@.len(),
            forall|x: int| 0 <= x < i ==> !occurs_at(s@, p@, x),
        decreases last + 1 - i,
    {
        if str_occurs_at(s, p, i) {
            return true;
        }
        i = i + 1;
    }
    false
}

/// Whether `s` and `p` hold the same characters.
pub fn str_equal(s: &str, p: &str) -> (r: bool)
    ensures
        r == (s@ == p@),
{
    if s.unicode_len() != p.unicode_len() {
        return false;
    }
    let r = str_occurs_at(s, p, 0);
    assert(r ==> s@.subrange(0, s@.len() as int) =~= s@);
    assert(s@ == p@ ==> s@.subrange(0, p@.len() as int) =~= p@);
    r
}

} // verus!
