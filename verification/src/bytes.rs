//! Small byte-sequence helpers shared by the modules, with their meaning
//! stated over `Seq<u8>`.

use vstd::prelude::*;

verus! {

/// The first `n` bytes of `s`, or all of `s` when it is shorter
/// (`s.get(..n).unwrap_or(s)`).
pub open spec fn prefix(s: Seq<u8>, n: int) -> Seq<u8> {
    if 0 <= n <= s.len() {
        s.take(n)
    } else {
        s
    }
}

/// `n` zero bytes.
pub open spec fn zero_bytes(n: nat) -> Seq<u8> {
    Seq::new(n, |i: int| 0u8)
}

/// `s` extended with zero bytes to `n` bytes; longer values are kept.
pub open spec fn zero_padded(s: Seq<u8>, n: nat) -> Seq<u8> {
    if s.len() < n {
        s + zero_bytes((n - s.len()) as nat)
    } else {
        s
    }
}

/// The little-endian bytes of a 32-bit value.
pub open spec fn le32(x: u32) -> Seq<u8> {
    seq![(x % 256) as u8, ((x / 256) % 256) as u8, ((x / 65536) % 256) as u8, (x / 16777216) as u8]
}

/// The little-endian bytes of a 16-bit value.
pub open spec fn le16(x: u16) -> Seq<u8> {
    seq![(x % 256) as u8, (x / 256) as u8]
}

/// A fresh vector with the bytes of `s`.
pub fn to_vec(s: &[u8]) -> (r: Vec<u8>)
    ensures
        r@ == s@,
{
    vstd::slice::slice_to_vec(s)
}

/// Append the bytes of `src` to `out`.
pub fn extend(out: &mut Vec<u8>, src: &[u8])
    ensures
        final(out)@ == old(out)@ + src@,
{
    let ghost before = out@;
    let mut k: usize = 0;
    while k < src.len()
        invariant
            k <= src@.len(),
            out@ == before + src@.take(k as int),
        decreases src@.len() - k,
    {
        out.push(src[k]);
        assert(src@.take(k + 1) =~= src@.take(k as int).push(src@[k as int]));
        k = k + 1;
    }
    assert(src@.take(src@.len() as int) =~= src@);
}

/// `s.get(..n).unwrap_or(s)`.
pub fn prefix_of(s: &[u8], n: usize) -> (r: &[u8])
    ensures
        r@ == prefix(s@, n as int),
{
    if n <= s.len() {
        vstd::slice::slice_subrange(s, 0, n)
    } else {
        s
    }
}

/// Bytewise equality of two slices.
pub fn bytes_eq(a: &[u8], b: &[u8]) -> (r: bool)
    ensures
        r == (a@ == b@),
{
    if a.len() != b.len() {
        return false;
    }
    let mut k: usize = 0;
    while k < a.len()
        invariant
            k <= a@.len(),
            a@.len() == b@.len(),
            forall|j: int| 0 <= j < k ==> a@[j] == b@[j],
        decreases a@.len() - k,
    {
        if a[k] != b[k] {
            return false;
        }
        k = k + 1;
    }
    assert(a@ =~= b@);
    true
}

/// `s` extended with zero bytes to `n` bytes (`Vec::resize(n, 0)` when
/// shorter).
pub fn zero_padded_vec(s: &[u8], n: usize) -> (r: Vec<u8>)
    ensures
        r@ == zero_padded(s@, n as nat),
{
    let mut v = to_vec(s);
    if v.len() < n {
        while v.len() < n
            invariant
                s@.len() <= v@.len() <= n,
                v@ == s@ + zero_bytes((v@.len() - s@.len()) as nat),
            decreases n - v@.len(),
        {
            let ghost old_v = v@;
            v.push(0u8);
            assert(v@ =~= s@ + zero_bytes((v@.len() - s@.len()) as nat));
        }
    }
    v
}

} // verus!
