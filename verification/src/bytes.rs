//! Small byte-sequence helpers shared by the protocol, store and dispatch.

use vstd::prelude::*;
use vstd::string::StringSliceAdditionalSpecFns;

verus! {

/// Carriage return.
pub const CR: u8 = 13;
/// Line feed.
pub const LF: u8 = 10;

/// The two-byte line terminator of the wire protocol.
pub open spec fn crlf() -> Seq<u8> {
    seq![CR, LF]
}

/// The UTF-8 bytes of a text literal.
pub open spec fn text(s: &str) -> Seq<u8> {
    s.spec_bytes()
}

/// A fresh vector holding the bytes of `s`.
pub fn copy_bytes(s: &[u8]) -> (v: Vec<u8>)
    ensures
        v@ == s@,
{
    let mut v: Vec<u8> = Vec::new();
    let mut i: usize = 0;
    while i < s.len()
        invariant
            i <= s.len(),
            v@ == s@.subrange(0, i as int),
        decreases s.len() - i,
    {
        v.push(s[i]);
        i += 1;
    }
    assert(v@ =~= s@);
    v
}

/// Appends every byte of `s` to `out`.
pub fn push_all(out: &mut Vec<u8>, s: &[u8])
    ensures
        final(out)@ == old(out)@ + s@,
{
    let ghost start = out@;
    let mut i: usize = 0;
    while i < s.len()
        invariant
            i <= s.len(),
            out@ == start + s@.subrange(0, i as int),
        decreases s.len() - i,
    {
        out.push(s[i]);
        i += 1;
    }
    assert(s@.subrange(0, s.len() as int) =~= s@);
}

/// The bytes of a text literal, as a fresh vector.
pub fn text_bytes(s: &str) -> (v: Vec<u8>)
    ensures
        v@ == text(s),
{
    copy_bytes(s.as_bytes())
}

/// Byte-wise equality of two slices.
pub fn bytes_equal(a: &[u8], b: &[u8]) -> (r: bool)
    ensures
        r == (a@ == b@),
{
    if a.len() != b.len() {
        return false;
    }
    let mut i: usize = 0;
    while i < a.len()
        invariant
            i <= a.len(),
            a.len() == b.len(),
            forall|j: int| 0 <= j < i ==> a@[j] == b@[j],
        decreases a.len() - i,
    {
        if a[i] != b[i] {
            return false;
        }
        i += 1;
    }
    assert(a@ =~= b@);
    true
}

/// A copy of `s[start..end]`.
pub fn copy_range(s: &[u8], start: usize, end: usize) -> (v: Vec<u8>)
    requires
        start <= end <= s.len(),
    ensures
        v@ == s@.subrange(start as int, end as int),
{
    let mut v: Vec<u8> = Vec::new();
    let mut i: usize = start;
    while i < end
        invariant
            start <= i <= end <= s.len(),
            v@ == s@.subrange(start as int, i as int),
        decreases end - i,
    {
        v.push(s[i]);
        i += 1;
    }
    v
}

} // verus!
