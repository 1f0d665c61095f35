//! Ciphers used by the standard security handler: RC4 (revisions 2 to 4)
//! and AES in CBC mode (AES-128 for revision 4, AES-256 for revisions 5
//! and 6). The block and stream ciphers come from the RustCrypto `rc4`,
//! `aes` and `cbc` crates. RC4 is stated in full (key schedule and
//! keystream) and its involution proved; what AES-CBC computes is named,
//! and the one fact the handler relies on, that deciphering undoes
//! ciphering, is stated at each call.

use aes::cipher::block_padding::NoPadding;
use aes::cipher::generic_array::GenericArray;
use aes::cipher::{BlockDecryptMut, BlockEncryptMut, KeyIvInit};
use rc4::consts::{U10, U11, U12, U13, U14, U15, U16, U5, U6, U7, U8, U9};
use rc4::{KeyInit, StreamCipher};
use vstd::prelude::*;

verus! {

/// `s` with the bytes at `a` and `b` exchanged.
pub open spec fn swapped(s: Seq<u8>, a: int, b: int) -> Seq<u8> {
    s.update(a, s[b]).update(b, s[a])
}

/// The RC4 key schedule from step `i` on: `j` grows by `s[i]` and the key
/// byte `key[i mod len]`, then `s[i]` and `s[j]` are exchanged, for every
/// `i` below 256.
pub open spec fn rc4_schedule(key: Seq<u8>, s: Seq<u8>, i: nat, j: u8) -> Seq<u8>
    decreases 256 - i,
{
    if i >= 256 {
        s
    } else {
        let j2 = ((j + s[i as int] + key[(i % key.len()) as int]) % 256) as u8;
        rc4_schedule(key, swapped(s, i as int, j2 as int), i + 1, j2)
    }
}

/// `n` bytes of RC4 keystream from the state `s`, `i`, `j`: `i` steps by
/// one, `j` grows by `s[i]`, the two bytes are exchanged, and the byte at
/// `s[i] + s[j]` is given out.
pub open spec fn rc4_stream(s: Seq<u8>, i: u8, j: u8, n: nat) -> Seq<u8>
    decreases n,
{
    if n == 0 {
        Seq::empty()
    } else {
        let i2 = ((i + 1) % 256) as u8;
        let j2 = ((j + s[i2 as int]) % 256) as u8;
        let t = swapped(s, i2 as int, j2 as int);
        seq![t[((t[i2 as int] + t[j2 as int]) % 256) as int]] + rc4_stream(t, i2, j2, (n - 1) as nat)
    }
}

/// The first `n` bytes of the RC4 keystream of `key`: the key schedule
/// run on the identity permutation, then the stream from `i = j = 0`.
pub open spec fn rc4_keystream(key: Seq<u8>, n: nat) -> Seq<u8> {
    rc4_stream(rc4_schedule(key, Seq::new(256, |k: int| k as u8), 0, 0), 0, 0, n)
}

/// `data` XORed with the RC4 keystream of `key`.
pub open spec fn rc4_of(key: Seq<u8>, data: Seq<u8>) -> Seq<u8> {
    let ks = rc4_keystream(key, data.len());
    Seq::new(data.len(), |k: int| data[k] ^ ks[k])
}

proof fn lemma_rc4_stream_len(s: Seq<u8>, i: u8, j: u8, n: nat)
    ensures
        rc4_stream(s, i, j, n).len() == n,
    decreases n,
{
    if n > 0 {
        let i2 = ((i + 1) % 256) as u8;
        let j2 = ((j + s[i2 as int]) % 256) as u8;
        lemma_rc4_stream_len(swapped(s, i2 as int, j2 as int), i2, j2, (n - 1) as nat);
    }
}

/// RC4 keeps the length of the data, and ciphering twice with the same
/// key gives the data back: the keystream depends on the key alone.
pub proof fn lemma_rc4_involution(key: Seq<u8>, data: Seq<u8>)
    ensures
        rc4_of(key, data).len() == data.len(),
        rc4_of(key, rc4_of(key, data)) == data,
{
    let ks = rc4_keystream(key, data.len());
    lemma_rc4_stream_len(rc4_schedule(key, Seq::new(256, |k: int| k as u8), 0, 0), 0, 0, data.len());
    let once = rc4_of(key, data);
    assert forall|k: int| 0 <= k < data.len() implies #[trigger] rc4_of(key, once)[k] == data[k] by {
        let a = data[k];
        let b = ks[k];
        assert((a ^ b) ^ b == a) by (bit_vector);
    }
    assert(rc4_of(key, once) =~= data);
}

/// AES-128 in CBC mode, no padding: `data` enciphered with `key` and `iv`
/// (`cbc::Encryptor<aes::Aes128>`).
pub uninterp spec fn aes128_cbc_encrypted(key: Seq<u8>, iv: Seq<u8>, data: Seq<u8>) -> Seq<u8>;

/// AES-128 in CBC mode, no padding: `data` deciphered with `key` and `iv`
/// (`cbc::Decryptor<aes::Aes128>`).
pub uninterp spec fn aes128_cbc_decrypted(key: Seq<u8>, iv: Seq<u8>, data: Seq<u8>) -> Seq<u8>;

/// AES-256 in CBC mode, no padding: `data` enciphered with `key` and `iv`
/// (`cbc::Encryptor<aes::Aes256>`).
pub uninterp spec fn aes256_cbc_encrypted(key: Seq<u8>, iv: Seq<u8>, data: Seq<u8>) -> Seq<u8>;

/// AES-256 in CBC mode, no padding: `data` deciphered with `key` and `iv`
/// (`cbc::Decryptor<aes::Aes256>`).
pub uninterp spec fn aes256_cbc_decrypted(key: Seq<u8>, iv: Seq<u8>, data: Seq<u8>) -> Seq<u8>;

/// Calls `rc4::Rc4::<U5>::new(key).apply_keystream` on a copy of
/// `data`. Trusted: the result is [`rc4_of`] of the 5-byte key and the
/// data, the key schedule and keystream of the crate's `Rc4State`.
#[verifier::external_body]
pub(crate) fn rc4_key5(key: &[u8], data: &[u8]) -> (r: Vec<u8>)
    requires
        key@.len() == 5,
    ensures
        r@ == rc4_of(key@, data@),
{
    let mut out = data.to_vec();
    rc4::Rc4::<U5>::new(rc4::Key::<U5>::from_slice(key)).apply_keystream(&mut out);
    out
}

/// Calls `rc4::Rc4::<U6>::new(key).apply_keystream` on a copy of
/// `data`. Trusted: the result is [`rc4_of`] of the 6-byte key and the
/// data, the key schedule and keystream of the crate's `Rc4State`.
#[verifier::external_body]
pub(crate) fn rc4_key6(key: &[u8], data: &[u8]) -> (r: Vec<u8>)
    requires
        key@.len() == 6,
    ensures
        r@ == rc4_of(key@, data@),
{
    let mut out = data.to_vec();
    rc4::Rc4::<U6>::new(rc4::Key::<U6>::from_slice(key)).apply_keystream(&mut out);
    out
}

/// Calls `rc4::Rc4::<U7>::new(key).apply_keystream` on a copy of
/// `data`. Trusted: the result is [`rc4_of`] of the 7-byte key and the
/// data, the key schedule and keystream of the crate's `Rc4State`.
#[verifier::external_body]
pub(crate) fn rc4_key7(key: &[u8], data: &[u8]) -> (r: Vec<u8>)
    requires
        key@.len() == 7,
    ensures
        r@ == rc4_of(key@, data@),
{
    let mut out = data.to_vec();
    rc4::Rc4::<U7>::new(rc4::Key::<U7>::from_slice(key)).apply_keystream(&mut out);
    out
}

/// Calls `rc4::Rc4::<U8>::new(key).apply_keystream` on a copy of
/// `data`. Trusted: the result is [`rc4_of`] of the 8-byte key and the
/// data, the key schedule and keystream of the crate's `Rc4State`.
#[verifier::external_body]
pub(crate) fn rc4_key8(key: &[u8], data: &[u8]) -> (r: Vec<u8>)
    requires
        key@.len() == 8,
    ensures
        r@ == rc4_of(key@, data@),
{
    let mut out = data.to_vec();
    rc4::Rc4::<U8>::new(rc4::Key::<U8>::from_slice(key)).apply_keystream(&mut out);
    out
}

/// Calls `rc4::Rc4::<U9>::new(key).apply_keystream` on a copy of
/// `data`. Trusted: the result is [`rc4_of`] of the 9-byte key and the
/// data, the key schedule and keystream of the crate's `Rc4State`.
#[verifier::external_body]
pub(crate) fn rc4_key9(key: &[u8], data: &[u8]) -> (r: Vec<u8>)
    requires
        key@.len() == 9,
    ensures
        r@ == rc4_of(key@, data@),
{
    let mut out = data.to_vec();
    rc4::Rc4::<U9>::new(rc4::Key::<U9>::from_slice(key)).apply_keystream(&mut out);
    out
}

/// Calls `rc4::Rc4::<U10>::new(key).apply_keystream` on a copy of
/// `data`. Trusted: the result is [`rc4_of`] of the 10-byte key and the
/// data, the key schedule and keystream of the crate's `Rc4State`.
#[verifier::external_body]
pub(crate) fn rc4_key10(key: &[u8], data: &[u8]) -> (r: Vec<u8>)
    requires
        key@.len() == 10,
    ensures
        r@ == rc4_of(key@, data@),
{
    let mut out = data.to_vec();
    rc4::Rc4::<U10>::new(rc4::Key::<U10>::from_slice(key)).apply_keystream(&mut out);
    out
}

/// Calls `rc4::Rc4::<U11>::new(key).apply_keystream` on a copy of
/// `data`. Trusted: the result is [`rc4_of`] of the 11-byte key and the
/// data, the key schedule and keystream of the crate's `Rc4State`.
#[verifier::external_body]
pub(crate) fn rc4_key11(key: &[u8], data: &[u8]) -> (r: Vec<u8>)
    requires
        key@.len() == 11,
    ensures
        r@ == rc4_of(key@, data@),
{
    let mut out = data.to_vec();
    rc4::Rc4::<U11>::new(rc4::Key::<U11>::from_slice(key)).apply_keystream(&mut out);
    out
}

/// Calls `rc4::Rc4::<U12>::new(key).apply_keystream` on a copy of
/// `data`. Trusted: the result is [`rc4_of`] of the 12-byte key and the
/// data, the key schedule and keystream of the crate's `Rc4State`.
#[verifier::external_body]
pub(crate) fn rc4_key12(key: &[u8], data: &[u8]) -> (r: Vec<u8>)
    requires
        key@.len() == 12,
    ensures
        r@ == rc4_of(key@, data@),
{
    let mut out = data.to_vec();
    rc4::Rc4::<U12>::new(rc4::Key::<U12>::from_slice(key)).apply_keystream(&mut out);
    out
}

/// Calls `rc4::Rc4::<U13>::new(key).apply_keystream` on a copy of
/// `data`. Trusted: the result is [`rc4_of`] of the 13-byte key and the
/// data, the key schedule and keystream of the crate's `Rc4State`.
#[verifier::external_body]
pub(crate) fn rc4_key13(key: &[u8], data: &[u8]) -> (r: Vec<u8>)
    requires
        key@.len() == 13,
    ensures
        r@ == rc4_of(key@, data@),
{
    let mut out = data.to_vec();
    rc4::Rc4::<U13>::new(rc4::Key::<U13>::from_slice(key)).apply_keystream(&mut out);
    out
}

/// Calls `rc4::Rc4::<U14>::new(key).apply_keystream` on a copy of
/// `data`. Trusted: the result is [`rc4_of`] of the 14-byte key and the
/// data, the key schedule and keystream of the crate's `Rc4State`.
#[verifier::external_body]
pub(crate) fn rc4_key14(key: &[u8], data: &[u8]) -> (r: Vec<u8>)
    requires
        key@.len() == 14,
    ensures
        r@ == rc4_of(key@, data@),
{
    let mut out = data.to_vec();
    rc4::Rc4::<U14>::new(rc4::Key::<U14>::from_slice(key)).apply_keystream(&mut out);
    out
}

/// Calls `rc4::Rc4::<U15>::new(key).apply_keystream` on a copy of
/// `data`. Trusted: the result is [`rc4_of`] of the 15-byte key and the
/// data, the key schedule and keystream of the crate's `Rc4State`.
#[verifier::external_body]
pub(crate) fn rc4_key15(key: &[u8], data: &[u8]) -> (r: Vec<u8>)
    requires
        key@.len() == 15,
    ensures
        r@ == rc4_of(key@, data@),
{
    let mut out = data.to_vec();
    rc4::Rc4::<U15>::new(rc4::Key::<U15>::from_slice(key)).apply_keystream(&mut out);
    out
}

/// Calls `rc4::Rc4::<U16>::new(key).apply_keystream` on a copy of
/// `data`. Trusted: the result is [`rc4_of`] of the 16-byte key and the
/// data, the key schedule and keystream of the crate's `Rc4State`.
#[verifier::external_body]
pub(crate) fn rc4_key16(key: &[u8], data: &[u8]) -> (r: Vec<u8>)
    requires
        key@.len() == 16,
    ensures
        r@ == rc4_of(key@, data@),
{
    let mut out = data.to_vec();
    rc4::Rc4::<U16>::new(rc4::Key::<U16>::from_slice(key)).apply_keystream(&mut out);
    out
}

/// Calls `cbc::Encryptor::<aes::Aes128>::new(key, iv)` and
/// `encrypt_padded_vec_mut::<NoPadding>`. Trusted: the result is
/// [`aes128_cbc_encrypted`] of the arguments, as long as the data (whole
/// blocks, no padding added), and CBC deciphering with the same key and
/// initialisation vector gives the data back.
#[verifier::external_body]
pub(crate) fn aes128_cbc_encrypt(key: &[u8], iv: &[u8], data: &[u8]) -> (r: Vec<u8>)
    requires
        key@.len() == 16,
        iv@.len() == 16,
        data@.len() % 16 == 0,
    ensures
        r@ == aes128_cbc_encrypted(key@, iv@, data@),
        r@.len() == data@.len(),
        aes128_cbc_decrypted(key@, iv@, r@) == data@,
{
    cbc::Encryptor::<aes::Aes128>::new(GenericArray::from_slice(key), GenericArray::from_slice(iv))
        .encrypt_padded_vec_mut::<NoPadding>(data)
}

/// Calls `cbc::Decryptor::<aes::Aes128>::new(key, iv)` and
/// `decrypt_padded_vec_mut::<NoPadding>`, which cannot fail on whole
/// blocks. Trusted: the result is [`aes128_cbc_decrypted`] of the
/// arguments, as long as the data.
#[verifier::external_body]
pub(crate) fn aes128_cbc_decrypt(key: &[u8], iv: &[u8], data: &[u8]) -> (r: Vec<u8>)
    requires
        key@.len() == 16,
        iv@.len() == 16,
        data@.len() % 16 == 0,
    ensures
        r@ == aes128_cbc_decrypted(key@, iv@, data@),
        r@.len() == data@.len(),
{
    match cbc::Decryptor::<aes::Aes128>::new(GenericArray::from_slice(key), GenericArray::from_slice(iv))
        .decrypt_padded_vec_mut::<NoPadding>(data)
    {
        Ok(out) => out,
        Err(_) => Vec::new(),
    }
}

/// Calls `cbc::Encryptor::<aes::Aes256>::new(key, iv)` and
/// `encrypt_padded_vec_mut::<NoPadding>`. Trusted: the result is
/// [`aes256_cbc_encrypted`] of the arguments, as long as the data (whole
/// blocks, no padding added), and CBC deciphering with the same key and
/// initialisation vector gives the data back.
#[verifier::external_body]
pub(crate) fn aes256_cbc_encrypt(key: &[u8], iv: &[u8], data: &[u8]) -> (r: Vec<u8>)
    requires
        key@.len() == 32,
        iv@.len() == 16,
        data@.len() % 16 == 0,
    ensures
        r@ == aes256_cbc_encrypted(key@, iv@, data@),
        r@.len() == data@.len(),
        aes256_cbc_decrypted(key@, iv@, r@) == data@,
{
    cbc::Encryptor::<aes::Aes256>::new(GenericArray::from_slice(key), GenericArray::from_slice(iv))
        .encrypt_padded_vec_mut::<NoPadding>(data)
}

/// Calls `cbc::Decryptor::<aes::Aes256>::new(key, iv)` and
/// `decrypt_padded_vec_mut::<NoPadding>`, which cannot fail on whole
/// blocks. Trusted: the result is [`aes256_cbc_decrypted`] of the
/// arguments, as long as the data.
#[verifier::external_body]
pub(crate) fn aes256_cbc_decrypt(key: &[u8], iv: &[u8], data: &[u8]) -> (r: Vec<u8>)
    requires
        key@.len() == 32,
        iv@.len() == 16,
        data@.len() % 16 == 0,
    ensures
        r@ == aes256_cbc_decrypted(key@, iv@, data@),
        r@.len() == data@.len(),
{
    match cbc::Decryptor::<aes::Aes256>::new(GenericArray::from_slice(key), GenericArray::from_slice(iv))
        .decrypt_padded_vec_mut::<NoPadding>(data)
    {
        Ok(out) => out,
        Err(_) => Vec::new(),
    }
}

} // verus!
