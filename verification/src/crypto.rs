//! The standard security handler (ISO 32000-2, clause 7.6).
//!
//! The values of an `/Encrypt` dictionary and a password become a
//! [`Decryptor`] that deciphers strings and streams object by object.
//! Supported: revisions 2 and 3 (RC4, 40 to 128 bits), revision 4 (RC4 or
//! AES-128 through crypt filters), revisions 5 and 6 (AES-256). Digests
//! and ciphers come from the RustCrypto crates (see [`crate::hashing`] and
//! [`crate::ciphers`]); this module wires the key derivation of
//! algorithms 1 to 13 of 7.6.4, and its contracts state each of them.
//!
//! Passwords for revisions 5 and 6 are taken as UTF-8 bytes truncated to
//! 127 bytes; the SASLprep normalisation of 7.6.4.3.3 is not applied.

use crate::bytes::{
    bytes_eq, extend, le16, le32, prefix, prefix_of, to_vec, zero_bytes, zero_padded,
    zero_padded_vec,
};
use crate::ciphers::{
    aes128_cbc_decrypt, aes128_cbc_decrypted, aes128_cbc_encrypt, aes128_cbc_encrypted,
    aes256_cbc_decrypt, aes256_cbc_decrypted, aes256_cbc_encrypt, aes256_cbc_encrypted, rc4_key10,
    rc4_key11, rc4_key12, rc4_key13, rc4_key14, rc4_key15, rc4_key16, rc4_key5, rc4_key6,
    rc4_key7, rc4_key8, rc4_key9, rc4_of, lemma_rc4_involution,
};
use crate::hashing::{md5, md5_of, sha256, sha256_of, sha384, sha384_of, sha512, sha512_of};
use crate::text::{decimal, push_decimal, push_str, string_of};
use vstd::prelude::*;

verus! {

/// Security handler revision, the `/R` entry of the `/Encrypt` dictionary
/// (ISO 32000-2, table 21).
#[derive(Debug, Clone, Copy, PartialEq, Eq, Structural, Ord)]
pub enum Revision {
    /// RC4 40-bit (PDF 1.1).
    R2,
    /// RC4 40 to 128-bit (PDF 1.4).
    R3,
    /// RC4 or AES-128 via crypt filters (PDF 1.5).
    R4,
    /// AES-256 as published in Adobe extension level 3, deprecated.
    R5,
    /// AES-256, ISO 32000-2 (PDF 2.0). The only revision new files should use.
    R6,
}

impl Revision {
    /// The integer value of `/R`.
    pub open spec fn value(self) -> u8 {
        match self {
            Revision::R2 => 2,
            Revision::R3 => 3,
            Revision::R4 => 4,
            Revision::R5 => 5,
            Revision::R6 => 6,
        }
    }

    /// Revisions 5 and 6 use SHA-2 and AES-256.
    pub open spec fn is_aes256(self) -> bool {
        self is R5 || self is R6
    }

    /// The revision for the integer value of `/R`, if it is one this
    /// handler knows.
    pub fn from_number(r: i64) -> (out: Option<Revision>)
        ensures
            match out {
                Some(rev) => rev.value() == r,
                None => !(2 <= r <= 6),
            },
    {
        if r == 2 {
            Some(Revision::R2)
        } else if r == 3 {
            Some(Revision::R3)
        } else if r == 4 {
            Some(Revision::R4)
        } else if r == 5 {
            Some(Revision::R5)
        } else if r == 6 {
            Some(Revision::R6)
        } else {
            None
        }
    }

    /// The integer value of `/R`.
    pub fn number(self) -> (n: u8)
        ensures
            n == self.value(),
    {
        match self {
            Revision::R2 => 2,
            Revision::R3 => 3,
            Revision::R4 => 4,
            Revision::R5 => 5,
            Revision::R6 => 6,
        }
    }

    /// Revisions 5 and 6 derive the file key from SHA-2 and use AES-256;
    /// the earlier ones use MD5 and RC4 or AES-128.
    pub fn uses_aes256(self) -> (b: bool)
        ensures
            b == self.is_aes256(),
    {
        match self {
            Revision::R5 | Revision::R6 => true,
            _ => false,
        }
    }
}

/// How one class of data (streams, strings, or a named crypt filter) is
/// ciphered: the `/CFM` of a crypt filter dictionary (ISO 32000-2,
/// table 25), or the whole file's algorithm for revisions 2 and 3.
#[derive(Debug, Clone, Copy, PartialEq, Eq, Structural)]
pub enum Cipher {
    /// `/Identity` crypt filter or `/CFM /None`: data is stored in the clear.
    Identity,
    /// RC4 with a per-object key (`/CFM /V2`, and every revision 2 or 3 file).
    Rc4,
    /// AES-128 in CBC mode with a per-object key (`/CFM /AESV2`).
    Aes128,
    /// AES-256 in CBC mode with the file key itself (`/CFM /AESV3`).
    Aes256,
}

/// Values of an `/Encrypt` dictionary of the standard security handler,
/// already parsed and resolved by the caller. Sizes are checked by
/// [`Decryptor::open`].
#[derive(Debug, Clone, PartialEq, Eq)]
pub struct Params {
    /// `/R`.
    pub revision: Revision,
    /// Key length in bits: 40 for revision 2, `/Length` (40 to 128) for
    /// revisions 3 and 4, 256 for revisions 5 and 6.
    pub key_bits: u32,
    /// `/O`: 32 bytes up to revision 4, 48 from revision 5.
    pub owner: Vec<u8>,
    /// `/U`: 32 bytes up to revision 4, 48 from revision 5.
    pub user: Vec<u8>,
    /// `/OE` (revisions 5 and 6): 32 bytes.
    pub owner_key: Vec<u8>,
    /// `/UE` (revisions 5 and 6): 32 bytes.
    pub user_key: Vec<u8>,
    /// `/P` as an unsigned 32-bit value (the low 32 bits of the integer).
    pub permissions: u32,
    /// `/EncryptMetadata`, `true` when absent.
    pub encrypt_metadata: bool,
    /// Cipher of streams: `/StmF` resolved through `/CF` for revision 4
    /// and later, RC4 before.
    pub streams: Cipher,
    /// Cipher of strings: `/StrF` resolved through `/CF` for revision 4
    /// and later, RC4 before.
    pub strings: Cipher,
    /// First string of the trailer's `/ID` array; empty when absent.
    pub file_id: Vec<u8>,
}

/// The values of [`Params`], with the byte strings as sequences.
pub struct ParamsModel {
    pub revision: Revision,
    pub key_bits: u32,
    pub owner: Seq<u8>,
    pub user: Seq<u8>,
    pub owner_key: Seq<u8>,
    pub user_key: Seq<u8>,
    pub permissions: u32,
    pub encrypt_metadata: bool,
    pub streams: Cipher,
    pub strings: Cipher,
    pub file_id: Seq<u8>,
}

impl View for Params {
    type V = ParamsModel;

    open spec fn view(&self) -> ParamsModel {
        ParamsModel {
            revision: self.revision,
            key_bits: self.key_bits,
            owner: self.owner@,
            user: self.user@,
            owner_key: self.owner_key@,
            user_key: self.user_key@,
            permissions: self.permissions,
            encrypt_metadata: self.encrypt_metadata,
            streams: self.streams,
            strings: self.strings,
            file_id: self.file_id@,
        }
    }
}

/// Why a [`Decryptor`] could not be built.
#[derive(Debug, Clone, PartialEq, Eq)]
pub enum Error {
    /// Neither the user nor the owner password matches.
    WrongPassword,
    /// The parameters contradict each other or the standard: wrong key
    /// length, `/O` or `/U` too short, a cipher the revision cannot use.
    BadParameters(String),
}

// ---------------------------------------------------------------------------
// Parameter checks (tables 20 and 21)
// ---------------------------------------------------------------------------

/// The key length suits the revision.
pub open spec fn key_bits_ok(m: ParamsModel) -> bool {
    match m.revision {
        Revision::R2 => m.key_bits == 40,
        Revision::R3 | Revision::R4 => m.key_bits % 8 == 0 && 40 <= m.key_bits <= 128,
        _ => m.key_bits == 256,
    }
}

/// A cipher the revision can use.
pub open spec fn cipher_allowed(m: ParamsModel, c: Cipher) -> bool {
    match c {
        Cipher::Identity => true,
        Cipher::Rc4 => !m.revision.is_aes256(),
        Cipher::Aes128 => m.revision is R4 && m.key_bits == 128,
        Cipher::Aes256 => m.revision.is_aes256(),
    }
}

/// Everything [`Decryptor::open`] checks before trying the password.
pub open spec fn params_ok(m: ParamsModel) -> bool {
    &&& key_bits_ok(m)
    &&& m.owner.len() > 0
    &&& m.user.len() > 0
    &&& m.revision.is_aes256() ==> m.owner_key.len() > 0 && m.user_key.len() > 0
    &&& cipher_allowed(m, m.streams)
    &&& cipher_allowed(m, m.strings)
}

/// The `Debug` name of a cipher.
pub open spec fn cipher_name(c: Cipher) -> Seq<char> {
    match c {
        Cipher::Identity => "Identity"@,
        Cipher::Rc4 => "Rc4"@,
        Cipher::Aes128 => "Aes128"@,
        Cipher::Aes256 => "Aes256"@,
    }
}

/// The message of the first failed check, in the order they are made.
pub open spec fn check_message(m: ParamsModel) -> Seq<char> {
    let bits = decimal(m.key_bits as nat);
    let rev = decimal(m.revision.value() as nat);
    if !key_bits_ok(m) {
        match m.revision {
            Revision::R2 => "revision 2 uses a 40-bit key"@,
            Revision::R3 | Revision::R4 => "key length "@ + bits
                + " is not a multiple of 8 between 40 and 128"@,
            _ => "revision "@ + rev + " uses a 256-bit key, not "@ + bits,
        }
    } else if m.owner.len() == 0 {
        "/O is empty"@
    } else if m.user.len() == 0 {
        "/U is empty"@
    } else if m.revision.is_aes256() && m.owner_key.len() == 0 {
        "/OE is missing or empty"@
    } else if m.revision.is_aes256() && m.user_key.len() == 0 {
        "/UE is missing or empty"@
    } else if !cipher_allowed(m, m.streams) {
        "cipher "@ + cipher_name(m.streams) + " cannot be used with revision "@ + rev
    } else {
        "cipher "@ + cipher_name(m.strings) + " cannot be used with revision "@ + rev
    }
}

fn cipher_text(c: Cipher) -> (s: &'static str)
    ensures
        s@ == cipher_name(c),
{
    match c {
        Cipher::Identity => "Identity",
        Cipher::Rc4 => "Rc4",
        Cipher::Aes128 => "Aes128",
        Cipher::Aes256 => "Aes256",
    }
}

fn cipher_allowed_exec(params: &Params, c: Cipher) -> (b: bool)
    ensures
        b == cipher_allowed(params@, c),
{
    match c {
        Cipher::Identity => true,
        Cipher::Rc4 => !params.revision.uses_aes256(),
        Cipher::Aes128 => params.revision == Revision::R4 && params.key_bits == 128,
        Cipher::Aes256 => params.revision.uses_aes256(),
    }
}

fn cipher_refusal(c: Cipher, revision: Revision) -> (e: Error)
    ensures
        e matches Error::BadParameters(msg) && msg@ == "cipher "@ + cipher_name(c)
            + " cannot be used with revision "@ + decimal(revision.value() as nat),
{
    let mut msg = string_of("cipher ");
    push_str(&mut msg, cipher_text(c));
    push_str(&mut msg, " cannot be used with revision ");
    push_decimal(&mut msg, revision.number() as u64);
    Error::BadParameters(msg)
}

/// Sizes and coherence of the parameters (tables 20 and 21).
fn check(params: &Params) -> (r: Result<(), Error>)
    ensures
        r is Ok <==> params_ok(params@),
        r matches Err(e) ==> e matches Error::BadParameters(msg) && msg@ == check_message(
            params@,
        ),
{
    let bits = params.key_bits;
    match params.revision {
        Revision::R2 => {
            if bits != 40 {
                return Err(Error::BadParameters(string_of("revision 2 uses a 40-bit key")));
            }
        },
        Revision::R3 | Revision::R4 => {
            if bits % 8 != 0 || bits < 40 || bits > 128 {
                let mut msg = string_of("key length ");
                push_decimal(&mut msg, bits as u64);
                push_str(&mut msg, " is not a multiple of 8 between 40 and 128");
                return Err(Error::BadParameters(msg));
            }
        },
        _ => {
            if bits != 256 {
                let mut msg = string_of("revision ");
                push_decimal(&mut msg, params.revision.number() as u64);
                push_str(&mut msg, " uses a 256-bit key, not ");
                push_decimal(&mut msg, bits as u64);
                return Err(Error::BadParameters(msg));
            }
        },
    }
    if params.owner.len() == 0 {
        return Err(Error::BadParameters(string_of("/O is empty")));
    }
    if params.user.len() == 0 {
        return Err(Error::BadParameters(string_of("/U is empty")));
    }
    if params.revision.uses_aes256() {
        if params.owner_key.len() == 0 {
            return Err(Error::BadParameters(string_of("/OE is missing or empty")));
        }
        if params.user_key.len() == 0 {
            return Err(Error::BadParameters(string_of("/UE is missing or empty")));
        }
    }
    if !cipher_allowed_exec(params, params.streams) {
        return Err(cipher_refusal(params.streams, params.revision));
    }
    if !cipher_allowed_exec(params, params.strings) {
        return Err(cipher_refusal(params.strings, params.revision));
    }
    Ok(())
}

/// Nominal size of `/O` and `/U` for the revision.
pub open spec fn nominal_len(revision: Revision) -> nat {
    if revision.is_aes256() {
        48
    } else {
        32
    }
}

/// `/O`, `/U`, `/OE` and `/UE` brought to their nominal size.
pub open spec fn padded_model(m: ParamsModel) -> ParamsModel {
    ParamsModel {
        owner: zero_padded(m.owner, nominal_len(m.revision)),
        user: zero_padded(m.user, nominal_len(m.revision)),
        owner_key: zero_padded(m.owner_key, 32),
        user_key: zero_padded(m.user_key, 32),
        ..m
    }
}

/// `/O`, `/U`, `/OE` and `/UE` brought to their nominal size: longer
/// values are used as they are (the algorithms read a prefix), shorter
/// ones are padded with zero bytes, as qpdf does for writers that drop
/// trailing bytes. Only the first 16 bytes of `/U` matter for revisions 3
/// and 4 (algorithm 5), so such files still open.
fn padded(params: &Params) -> (r: Params)
    ensures
        r@ == padded_model(params@),
{
    let nominal: usize = if params.revision.uses_aes256() {
        48
    } else {
        32
    };
    Params {
        revision: params.revision,
        key_bits: params.key_bits,
        owner: zero_padded_vec(params.owner.as_slice(), nominal),
        user: zero_padded_vec(params.user.as_slice(), nominal),
        owner_key: zero_padded_vec(params.owner_key.as_slice(), 32),
        user_key: zero_padded_vec(params.user_key.as_slice(), 32),
        permissions: params.permissions,
        encrypt_metadata: params.encrypt_metadata,
        streams: params.streams,
        strings: params.strings,
        file_id: to_vec(params.file_id.as_slice()),
    }
}


// ---------------------------------------------------------------------------
// Revisions 2 to 4: MD5 and RC4 (7.6.4.3.2, algorithms 2 to 7)
// ---------------------------------------------------------------------------

/// Padding string of algorithm 2 (ISO 32000-2, 7.6.4.3.2).
pub open spec fn pad_seq() -> Seq<u8> {
    seq![
        0x28u8, 0xBF, 0x4E, 0x5E, 0x4E, 0x75, 0x8A, 0x41, 0x64, 0x00, 0x4E, 0x56, 0xFF, 0xFA,
        0x01, 0x08, 0x2E, 0x2E, 0x00, 0xB6, 0xD0, 0x68, 0x3E, 0x80, 0x2F, 0x0C, 0xA9, 0xFE,
        0x64, 0x53, 0x69, 0x7A,
    ]
}

fn pad_bytes() -> (r: [u8; 32])
    ensures
        r@ == pad_seq(),
{
    let r: [u8; 32] = [
        0x28, 0xBF, 0x4E, 0x5E, 0x4E, 0x75, 0x8A, 0x41, 0x64, 0x00, 0x4E, 0x56, 0xFF, 0xFA, 0x01,
        0x08, 0x2E, 0x2E, 0x00, 0xB6, 0xD0, 0x68, 0x3E, 0x80, 0x2F, 0x0C, 0xA9, 0xFE, 0x64, 0x53,
        0x69, 0x7A,
    ];
    assert(r@ =~= pad_seq());
    r
}

/// Password padded or truncated to 32 bytes (algorithm 2, step a).
pub open spec fn padded_password(p: Seq<u8>) -> Seq<u8> {
    if p.len() >= 32 {
        p.take(32)
    } else {
        p + pad_seq().take(32 - p.len())
    }
}

/// Password padded or truncated to 32 bytes (algorithm 2, step a).
pub fn pad_password(password: &[u8]) -> (r: [u8; 32])
    ensures
        r@ == padded_password(password@),
{
    let pad = pad_bytes();
    let mut out = [0u8; 32];
    let n: usize = if password.len() < 32 {
        password.len()
    } else {
        32
    };
    let mut i: usize = 0;
    while i < 32
        invariant
            i <= 32,
            n <= 32,
            n <= password@.len(),
            n == 32 || n == password@.len(),
            pad@ == pad_seq(),
            out@.len() == 32,
            forall|j: int|
                0 <= j < i ==> out@[j] == (if j < n {
                    password@[j]
                } else {
                    pad_seq()[j - n]
                }),
        decreases 32 - i,
    {
        if i < n {
            out[i] = password[i];
        } else {
            out[i] = pad[i - n];
        }
        i = i + 1;
    }
    assert(out@ =~= padded_password(password@));
    out
}

/// RC4 as the handler applies it: keys of 5 to 16 bytes (the sizes the
/// standard allows); any other key leaves the data unchanged.
pub open spec fn rc4_spec(key: Seq<u8>, data: Seq<u8>) -> Seq<u8> {
    if 5 <= key.len() <= 16 {
        rc4_of(key, data)
    } else {
        data
    }
}

/// RC4 keystream applied to `data`. The `rc4` crate types the key length,
/// so each of the 5 to 16 byte sizes the standard allows gets its own
/// instantiation; any other length (impossible after `check`) leaves the
/// data unchanged rather than guessing.
pub fn rc4_apply(key: &[u8], data: &[u8]) -> (r: Vec<u8>)
    ensures
        r@ == rc4_spec(key@, data@),
        r@.len() == data@.len(),
        rc4_spec(key@, r@) == data@,
{
    proof {
        lemma_rc4_involution(key@, data@);
    }
    let n = key.len();
    if n == 5 {
        rc4_key5(key, data)
    } else if n == 6 {
        rc4_key6(key, data)
    } else if n == 7 {
        rc4_key7(key, data)
    } else if n == 8 {
        rc4_key8(key, data)
    } else if n == 9 {
        rc4_key9(key, data)
    } else if n == 10 {
        rc4_key10(key, data)
    } else if n == 11 {
        rc4_key11(key, data)
    } else if n == 12 {
        rc4_key12(key, data)
    } else if n == 13 {
        rc4_key13(key, data)
    } else if n == 14 {
        rc4_key14(key, data)
    } else if n == 15 {
        rc4_key15(key, data)
    } else if n == 16 {
        rc4_key16(key, data)
    } else {
        to_vec(data)
    }
}

/// Key length in bytes for revisions 2 to 4.
/// The length of a file key: 32 bytes for revisions 5 and 6, else the
/// length algorithm 2 gives (see [`legacy_key_len`]).
pub open spec fn file_key_len(m: ParamsModel) -> nat {
    if m.revision.is_aes256() {
        32
    } else {
        legacy_key_len(m)
    }
}

pub open spec fn legacy_key_len(m: ParamsModel) -> nat {
    match m.revision {
        Revision::R2 => 5,
        _ => if m.key_bits / 8 < 5 {
            5
        } else if m.key_bits / 8 > 16 {
            16
        } else {
            (m.key_bits / 8) as nat
        },
    }
}

fn legacy_key_len_exec(params: &Params) -> (n: usize)
    ensures
        n == legacy_key_len(params@),
        5 <= n <= 16,
{
    match params.revision {
        Revision::R2 => 5,
        _ => {
            let b = params.key_bits / 8;
            if b < 5 {
                5
            } else if b > 16 {
                16
            } else {
                b as usize
            }
        },
    }
}

/// `d` hashed again `k` times, each time its first `n` bytes.
pub open spec fn md5_rounds(d: Seq<u8>, n: nat, k: nat) -> Seq<u8>
    decreases k,
{
    if k == 0 {
        d
    } else {
        md5_of(prefix(md5_rounds(d, n, (k - 1) as nat), n as int))
    }
}

/// The digest of algorithms 2 and 3 after step f: hashed 50 more times
/// from revision 3 on, then cut to `n` bytes.
pub open spec fn strengthened(revision: Revision, d: Seq<u8>, n: nat) -> Seq<u8> {
    prefix(
        if revision.value() >= 3 {
            md5_rounds(d, n, 50)
        } else {
            d
        },
        n as int,
    )
}

fn strengthen(revision: Revision, d: Vec<u8>, n: usize) -> (r: Vec<u8>)
    requires
        d@.len() == 16,
        n <= 16,
    ensures
        r@ == strengthened(revision, d@, n as nat),
        r@.len() == n,
{
    let ghost d0 = d@;
    let mut digest = d;
    if revision.number() >= 3 {
        let mut i: usize = 0;
        while i < 50
            invariant
                i <= 50,
                n <= 16,
                digest@.len() == 16,
                digest@ == md5_rounds(d0, n as nat, i as nat),
            decreases 50 - i,
        {
            digest = md5(prefix_of(digest.as_slice(), n));
            i = i + 1;
        }
    }
    let mut out = digest;
    out.truncate(n);
    out
}

/// What algorithm 2 hashes: the padded password, `/O`, `/P`, the file
/// identifier and, for revision 4 with `/EncryptMetadata false`, four
/// `0xff` bytes.
pub open spec fn legacy_key_input(m: ParamsModel, padded: Seq<u8>) -> Seq<u8> {
    padded + prefix(m.owner, 32) + le32(m.permissions) + m.file_id + (if m.revision.value() >= 4
        && !m.encrypt_metadata {
        seq![0xffu8, 0xff, 0xff, 0xff]
    } else {
        Seq::empty()
    })
}

/// Algorithm 2: the file key computed from a padded user password.
pub open spec fn legacy_key(m: ParamsModel, padded: Seq<u8>) -> Seq<u8> {
    strengthened(m.revision, md5_of(legacy_key_input(m, padded)), legacy_key_len(m))
}

fn push_le32(out: &mut Vec<u8>, x: u32)
    ensures
        final(out)@ == old(out)@ + le32(x),
{
    out.push((x % 256) as u8);
    out.push(((x / 256) % 256) as u8);
    out.push(((x / 65536) % 256) as u8);
    out.push((x / 16777216) as u8);
    assert(final(out)@ =~= old(out)@ + le32(x));
}

/// Algorithm 2: the file key computed from a padded user password.
fn compute_legacy_key(params: &Params, padded: &[u8]) -> (r: Vec<u8>)
    ensures
        r@ == legacy_key(params@, padded@),
        r@.len() == legacy_key_len(params@),
{
    let n = legacy_key_len_exec(params);
    let mut input = to_vec(padded);
    extend(&mut input, prefix_of(params.owner.as_slice(), 32));
    push_le32(&mut input, params.permissions);
    extend(&mut input, params.file_id.as_slice());
    if params.revision.number() >= 4 && !params.encrypt_metadata {
        let ghost before = input@;
        input.push(0xff);
        input.push(0xff);
        input.push(0xff);
        input.push(0xff);
        assert(input@ =~= before + seq![0xffu8, 0xff, 0xff, 0xff]);
    } else {
        assert(input@ =~= input@ + Seq::<u8>::empty());
    }
    assert(input@ =~= legacy_key_input(params@, padded@));
    strengthen(params.revision, md5(input.as_slice()), n)
}

/// `key` with every byte XORed with `i`.
pub open spec fn xor_each(key: Seq<u8>, i: u8) -> Seq<u8> {
    Seq::new(key.len(), |j: int| key[j] ^ i)
}

fn xor_key(key: &[u8], i: u8) -> (r: Vec<u8>)
    ensures
        r@ == xor_each(key@, i),
{
    let mut out: Vec<u8> = Vec::new();
    let mut j: usize = 0;
    while j < key.len()
        invariant
            j <= key@.len(),
            out@ =~= xor_each(key@, i).take(j as int),
        decreases key@.len() - j,
    {
        out.push(key[j] ^ i);
        j = j + 1;
    }
    assert(out@ =~= xor_each(key@, i));
    out
}

proof fn lemma_xor_zero(key: Seq<u8>)
    ensures
        xor_each(key, 0) == key,
{
    assert forall|j: int| 0 <= j < key.len() implies xor_each(key, 0)[j] == key[j] by {
        let b = key[j];
        assert(b ^ 0u8 == b) by (bit_vector);
    }
    assert(xor_each(key, 0) =~= key);
}

/// RC4 with the keys `key ^ 1` to `key ^ k`, in that order (algorithms 3
/// and 5, step e).
pub open spec fn rc4_up(key: Seq<u8>, v: Seq<u8>, k: nat) -> Seq<u8>
    decreases k,
{
    if k == 0 {
        v
    } else {
        rc4_spec(xor_each(key, k as u8), rc4_up(key, v, (k - 1) as nat))
    }
}

/// RC4 with the keys `key ^ (k - 1)` down to `key ^ 0` (algorithm 7).
pub open spec fn rc4_down(key: Seq<u8>, v: Seq<u8>, k: nat) -> Seq<u8>
    decreases k,
{
    if k == 0 {
        v
    } else {
        rc4_down(key, rc4_spec(xor_each(key, (k - 1) as u8), v), (k - 1) as nat)
    }
}

/// Algorithms 4 and 5: the `/U` value for a file key. Revision 2 gives
/// 32 significant bytes; revisions 3 and 4 give 16, padded to 32.
pub open spec fn user_value(m: ParamsModel, key: Seq<u8>) -> Seq<u8> {
    match m.revision {
        Revision::R2 => rc4_spec(key, pad_seq()),
        _ => rc4_up(key, rc4_spec(key, md5_of(pad_seq() + m.file_id)), 19) + pad_seq().take(16),
    }
}

/// Algorithms 4 and 5: the `/U` value for a file key.
fn compute_user_value(params: &Params, key: &[u8]) -> (r: Vec<u8>)
    ensures
        r@ == user_value(params@, key@),
        r@.len() == 32,
{
    let pad = pad_bytes();
    match params.revision {
        Revision::R2 => rc4_apply(key, pad.as_slice()),
        _ => {
            let mut input = to_vec(pad.as_slice());
            extend(&mut input, params.file_id.as_slice());
            let h = md5(input.as_slice());
            let ghost v0 = rc4_spec(key@, md5_of(pad_seq() + params.file_id@));
            let mut value = rc4_apply(key, h.as_slice());
            let mut i: u8 = 1;
            while i <= 19
                invariant
                    1 <= i <= 20,
                    value@ == rc4_up(key@, v0, (i - 1) as nat),
                    value@.len() == 16,
                decreases 20 - i,
            {
                let xored = xor_key(key, i);
                value = rc4_apply(xored.as_slice(), value.as_slice());
                i = i + 1;
            }
            let ghost before = value@;
            extend(&mut value, vstd::slice::slice_subrange(pad.as_slice(), 0, 16));
            assert(pad@.subrange(0, 16) =~= pad_seq().take(16));
            value
        },
    }
}

/// How many leading bytes of `/U` algorithm 6 compares.
pub open spec fn significant_len(revision: Revision) -> int {
    match revision {
        Revision::R2 => 32,
        _ => 16,
    }
}

/// `s.get(..n)`.
pub open spec fn get_prefix(s: Seq<u8>, n: int) -> Option<Seq<u8>> {
    if 0 <= n <= s.len() {
        Some(s.take(n))
    } else {
        None
    }
}

/// Algorithm 6: the file key when `padded` is the user password.
pub open spec fn try_user(m: ParamsModel, padded: Seq<u8>) -> Option<Seq<u8>> {
    let key = legacy_key(m, padded);
    if get_prefix(user_value(m, key), significant_len(m.revision)) == get_prefix(
        m.user,
        significant_len(m.revision),
    ) {
        Some(key)
    } else {
        None
    }
}

/// Algorithm 6: does `padded` (a user password) open the file? Returns
/// the file key when it does.
fn try_user_password(params: &Params, padded: &[u8]) -> (r: Option<Vec<u8>>)
    ensures
        r matches Some(k) ==> k@.len() == legacy_key_len(params@),
        match r {
            Some(k) => try_user(params@, padded@) == Some(k@),
            None => try_user(params@, padded@) is None,
        },
{
    let key = compute_legacy_key(params, padded);
    let computed = compute_user_value(params, key.as_slice());
    let significant: usize = match params.revision {
        Revision::R2 => 32,
        _ => 16,
    };
    let a_ok = significant <= computed.len();
    let b_ok = significant <= params.user.len();
    let same = if a_ok && b_ok {
        bytes_eq(
            vstd::slice::slice_subrange(computed.as_slice(), 0, significant),
            vstd::slice::slice_subrange(params.user.as_slice(), 0, significant),
        )
    } else {
        a_ok == b_ok
    };
    if same {
        Some(key)
    } else {
        None
    }
}

/// Algorithm 3, steps a to d: the RC4 key derived from the owner password.
pub open spec fn owner_key_of(m: ParamsModel, owner_password: Seq<u8>) -> Seq<u8> {
    strengthened(m.revision, md5_of(padded_password(owner_password)), legacy_key_len(m))
}

fn owner_rc4_key(params: &Params, owner_password: &[u8]) -> (r: Vec<u8>)
    ensures
        r@ == owner_key_of(params@, owner_password@),
{
    let n = legacy_key_len_exec(params);
    let padded = pad_password(owner_password);
    strengthen(params.revision, md5(padded.as_slice()), n)
}

/// Algorithm 7: the padded user password recovered from `/O` with the
/// owner password.
pub open spec fn recovered_user_password(m: ParamsModel, owner_password: Seq<u8>) -> Seq<u8> {
    let key = owner_key_of(m, owner_password);
    let owner = prefix(m.owner, 32);
    let recovered = match m.revision {
        Revision::R2 => rc4_spec(key, owner),
        _ => rc4_down(key, owner, 20),
    };
    zero_padded(prefix(recovered, 32), 32)
}

/// Algorithm 7: the padded user password recovered from `/O` with the
/// owner password.
fn user_password_from_owner(params: &Params, owner_password: &[u8]) -> (r: Vec<u8>)
    ensures
        r@ == recovered_user_password(params@, owner_password@),
{
    let key = owner_rc4_key(params, owner_password);
    let owner = prefix_of(params.owner.as_slice(), 32);
    let recovered = match params.revision {
        Revision::R2 => rc4_apply(key.as_slice(), owner),
        _ => {
            let mut value = to_vec(owner);
            let mut k: u8 = 20;
            while k > 0
                invariant
                    k <= 20,
                    rc4_down(key@, value@, k as nat) == rc4_down(key@, owner@, 20),
                decreases k,
            {
                k = k - 1;
                let xored = xor_key(key.as_slice(), k);
                value = rc4_apply(xored.as_slice(), value.as_slice());
            }
            value
        },
    };
    zero_padded_vec(prefix_of(recovered.as_slice(), 32), 32)
}

/// The file key of a revision 2 to 4 file, and whether the password was
/// the owner one (algorithms 6 and 7).
pub open spec fn legacy_file_key_of(m: ParamsModel, password: Seq<u8>) -> Option<(Seq<u8>, bool)> {
    match try_user(m, padded_password(password)) {
        Some(key) => Some((key, false)),
        None => match try_user(m, recovered_user_password(m, password)) {
            Some(key) => Some((key, true)),
            None => None,
        },
    }
}

fn legacy_file_key(params: &Params, password: &[u8]) -> (r: Option<(Vec<u8>, bool)>)
    ensures
        r matches Some((k, _)) ==> k@.len() == legacy_key_len(params@),
        match r {
            Some((k, owner)) => legacy_file_key_of(params@, password@) == Some((k@, owner)),
            None => legacy_file_key_of(params@, password@) is None,
        },
{
    let padded = pad_password(password);
    if let Some(key) = try_user_password(params, padded.as_slice()) {
        return Some((key, false));
    }
    let recovered = user_password_from_owner(params, password);
    match try_user_password(params, recovered.as_slice()) {
        Some(key) => Some((key, true)),
        None => None,
    }
}

/// Algorithm 3: the `/O` value for a pair of passwords.
pub open spec fn owner_value(m: ParamsModel, owner_password: Seq<u8>, user_password: Seq<u8>) -> Seq<u8> {
    let key = owner_key_of(m, effective_owner_password(owner_password, user_password));
    let v = rc4_spec(key, padded_password(user_password));
    if m.revision.value() >= 3 {
        rc4_up(key, v, 19)
    } else {
        v
    }
}

/// An empty owner password is replaced by the user password.
pub open spec fn effective_owner_password(owner_password: Seq<u8>, user_password: Seq<u8>) -> Seq<u8> {
    if owner_password.len() == 0 {
        user_password
    } else {
        owner_password
    }
}

/// What algorithm 7 reads back from an `/O` value with the key of
/// algorithm 3.
pub open spec fn unwound(m: ParamsModel, key: Seq<u8>, owner: Seq<u8>) -> Seq<u8> {
    match m.revision {
        Revision::R2 => rc4_spec(key, owner),
        _ => rc4_down(key, owner, 20),
    }
}

proof fn lemma_padded_password_len(p: Seq<u8>)
    ensures
        padded_password(p).len() == 32,
{
}

/// Algorithm 3: the `/O` value for a pair of passwords. An empty owner
/// password is replaced by the user password.
pub fn legacy_owner_value(params: &Params, owner_password: &[u8], user_password: &[u8]) -> (r: Vec<u8>)
    ensures
        r@ == owner_value(params@, owner_password@, user_password@),
        r@.len() == 32,
        unwound(
            params@,
            owner_key_of(params@, effective_owner_password(owner_password@, user_password@)),
            r@,
        ) == padded_password(user_password@),
{
    let owner_password = if owner_password.len() == 0 {
        user_password
    } else {
        owner_password
    };
    let key = owner_rc4_key(params, owner_password);
    let padded = pad_password(user_password);
    let mut value = rc4_apply(key.as_slice(), padded.as_slice());
    if params.revision.number() >= 3 {
        let ghost v0 = value@;
        proof {
            lemma_xor_zero(key@);
            assert(rc4_down(key@, v0, 1) == rc4_down(key@, rc4_spec(xor_each(key@, 0), v0), 0));
        }
        let mut i: u8 = 1;
        while i <= 19
            invariant
                1 <= i <= 20,
                value@ == rc4_up(key@, v0, (i - 1) as nat),
                value@.len() == 32,
                rc4_down(key@, value@, i as nat) == padded@,
            decreases 20 - i,
        {
            let xored = xor_key(key.as_slice(), i);
            let next = rc4_apply(xored.as_slice(), value.as_slice());
            assert(rc4_down(key@, next@, (i + 1) as nat) == rc4_down(
                key@,
                rc4_spec(xor_each(key@, i), next@),
                i as nat,
            ));
            value = next;
            i = i + 1;
        }
    }
    value
}

/// `m` with other `/O` and `/U` values.
pub open spec fn with_owner_user(m: ParamsModel, owner: Seq<u8>, user: Seq<u8>) -> ParamsModel {
    ParamsModel { owner, user, ..m }
}

/// The file key, and whether the password was the owner one, once the
/// parameters have passed [`params_ok`] (algorithms 2 to 7, 11, 12).
pub open spec fn file_key_of(m: ParamsModel, password: Seq<u8>) -> Option<(Seq<u8>, bool)> {
    if m.revision.is_aes256() {
        aes256_file_key_of(padded_model(m), password)
    } else {
        legacy_file_key_of(padded_model(m), password)
    }
}

/// The `/O` and `/U` values of a revision 2 to 4 file for a pair of
/// passwords (algorithms 3 to 5). `params.owner` and `params.user` are
/// ignored; the other fields describe the file. Building block for
/// fixtures and for an encrypting writer.
///
/// The values it gives open the file: with the user password as the user,
/// and with a non-empty owner password.
pub fn legacy_owner_user(params: &Params, owner_password: &[u8], user_password: &[u8]) -> (r: Result<(Vec<u8>, Vec<u8>), Error>)
    ensures
        match r {
            Err(e) => params.revision.is_aes256() && (e matches Error::BadParameters(msg) && msg@
                == "revisions 5 and 6 use `aes256_entries`"@),
            Ok((owner, user)) => {
                let m = with_owner_user(params@, owner@, user@);
                &&& !params.revision.is_aes256()
                &&& owner@ == owner_value(params@, owner_password@, user_password@)
                &&& user@ == user_value(m, legacy_key(m, padded_password(user_password@)))
                &&& owner@.len() == 32 && user@.len() == 32
                &&& params_ok(m) <==> (key_bits_ok(params@) && cipher_allowed(params@, params.streams)
                    && cipher_allowed(params@, params.strings))
                &&& file_key_of(m, user_password@) == Some(
                    (legacy_key(m, padded_password(user_password@)), false),
                )
                &&& owner_password@.len() > 0 ==> file_key_of(m, owner_password@) is Some
                &&& owner_password@.len() > 0 && try_user(padded_model(m), padded_password(owner_password@)) is None
                    ==> file_key_of(m, owner_password@) == Some(
                    (legacy_key(m, padded_password(user_password@)), true),
                )
            },
        },
{
    if params.revision.uses_aes256() {
        return Err(Error::BadParameters(string_of("revisions 5 and 6 use `aes256_entries`")));
    }
    let owner = legacy_owner_value(params, owner_password, user_password);
    let with_owner = Params {
        revision: params.revision,
        key_bits: params.key_bits,
        owner: to_vec(owner.as_slice()),
        user: to_vec(params.user.as_slice()),
        owner_key: to_vec(params.owner_key.as_slice()),
        user_key: to_vec(params.user_key.as_slice()),
        permissions: params.permissions,
        encrypt_metadata: params.encrypt_metadata,
        streams: params.streams,
        strings: params.strings,
        file_id: to_vec(params.file_id.as_slice()),
    };
    let padded = pad_password(user_password);
    let key = compute_legacy_key(&with_owner, padded.as_slice());
    let user = compute_user_value(&with_owner, key.as_slice());
    proof {
        let m = with_owner_user(params@, owner@, user@);
        let pm = padded_model(m);
        assert(pm.owner =~= m.owner);
        assert(pm.user =~= m.user);
        assert(legacy_key(pm, padded@) == legacy_key(with_owner@, padded@)) by {
            assert(prefix(pm.owner, 32) =~= prefix(with_owner@.owner, 32));
            assert(legacy_key_input(pm, padded@) =~= legacy_key_input(with_owner@, padded@));
        }
        assert(user_value(pm, key@) == user_value(with_owner@, key@));
        assert(try_user(pm, padded@) == Some(key@));
        assert(legacy_key(m, padded@) == legacy_key(with_owner@, padded@)) by {
            assert(legacy_key_input(m, padded@) =~= legacy_key_input(with_owner@, padded@));
        }
        if owner_password@.len() > 0 {
            assert(owner_key_of(pm, owner_password@) == owner_key_of(params@, owner_password@));
            assert(prefix(pm.owner, 32) =~= owner@);
            lemma_padded_password_len(user_password@);
            assert(prefix(padded@, 32) =~= padded@);
            assert(zero_padded(padded@, 32) =~= padded@);
            assert(recovered_user_password(pm, owner_password@) == padded@);
        }
    }
    Ok((owner, user))
}

// ---------------------------------------------------------------------------
// Revisions 5 and 6: SHA-2 and AES-256 (7.6.4.3.3, algorithms 2.A, 2.B, 8 to 13)
// ---------------------------------------------------------------------------

/// Password as used by revisions 5 and 6: at most 127 bytes.
pub open spec fn utf8_password_of(password: Seq<u8>) -> Seq<u8> {
    prefix(password, 127)
}

fn utf8_password(password: &[u8]) -> (r: &[u8])
    ensures
        r@ == utf8_password_of(password@),
{
    prefix_of(password, 127)
}

/// `unit` repeated `n` times.
pub open spec fn repeated(unit: Seq<u8>, n: nat) -> Seq<u8>
    decreases n,
{
    if n == 0 {
        Seq::empty()
    } else {
        repeated(unit, (n - 1) as nat) + unit
    }
}

proof fn lemma_repeated_len(unit: Seq<u8>, n: nat)
    ensures
        repeated(unit, n).len() == n * unit.len(),
    decreases n,
{
    let l = unit.len() as int;
    if n == 0 {
        assert(repeated(unit, n).len() == 0);
        assert(n * l == 0) by (nonlinear_arith)
            requires
                n == 0,
        ;
    } else {
        let m = (n - 1) as nat;
        lemma_repeated_len(unit, m);
        assert(repeated(unit, n).len() == repeated(unit, m).len() + l);
        assert(n * l == m * l + l) by (nonlinear_arith)
            requires
                m == n - 1,
        ;
    }
}

/// The sum of the bytes of `s`.
pub open spec fn byte_sum(s: Seq<u8>) -> nat
    decreases s.len(),
{
    if s.len() == 0 {
        0
    } else {
        byte_sum(s.drop_last()) + s.last() as nat
    }
}

/// One round of algorithm 2.B, step c to e: `E` is the AES-128-CBC of
/// `(password, K, udata)` repeated 64 times, keyed by the first 16 bytes
/// of `K` with the next 16 as initialisation vector.
pub open spec fn h2b_block(password: Seq<u8>, k: Seq<u8>, udata: Seq<u8>) -> Seq<u8> {
    aes128_cbc_encrypted(k.take(16), k.subrange(16, 32), repeated(password + k + udata, 64))
}

/// Algorithm 2.B, step e: the next `K`, a SHA-2 of `E` chosen by the sum
/// of its first 16 bytes modulo 3.
pub open spec fn h2b_next(e: Seq<u8>) -> Seq<u8> {
    let m = byte_sum(prefix(e, 16)) % 3;
    if m == 0 {
        sha256_of(e)
    } else if m == 1 {
        sha384_of(e)
    } else {
        sha512_of(e)
    }
}

/// The rounds of algorithm 2.B from round `round` on: at least 64, then
/// until the last byte of `E` is at most the round number minus 32.
pub open spec fn h2b_rounds(password: Seq<u8>, udata: Seq<u8>, k: Seq<u8>, round: nat) -> Seq<u8>
    decreases 300 - round,
{
    let e = h2b_block(password, k, udata);
    let next = h2b_next(e);
    let r = round + 1;
    let last: nat = if e.len() > 0 {
        e.last() as nat
    } else {
        0
    };
    if r >= 64 && last + 32 <= r {
        next
    } else {
        h2b_rounds(password, udata, next, r)
    }
}

/// The first 32 bytes of `k`, zero-filled when shorter.
pub open spec fn first_32_of(k: Seq<u8>) -> Seq<u8> {
    zero_padded(prefix(k, 32), 32)
}

/// Algorithm 2.B (revision 6), or a plain SHA-256 for revision 5: the
/// 32-byte hash of a password, a salt, and, for the owner password, the
/// 48 bytes of `/U`.
pub open spec fn hash_2b_of(revision: Revision, password: Seq<u8>, salt: Seq<u8>, udata: Seq<u8>) -> Seq<u8> {
    let k = sha256_of(password + salt + udata);
    if revision is R5 {
        first_32_of(k)
    } else {
        first_32_of(h2b_rounds(password, udata, k, 0))
    }
}

fn first_32(bytes: &[u8]) -> (r: Vec<u8>)
    ensures
        r@ == first_32_of(bytes@),
        r@.len() == 32,
{
    zero_padded_vec(prefix_of(bytes, 32), 32)
}

fn byte_sum16(e: &[u8]) -> (r: u32)
    ensures
        r == byte_sum(prefix(e@, 16)),
{
    let n: usize = if e.len() < 16 {
        e.len()
    } else {
        16
    };
    let mut sum: u32 = 0;
    let mut j: usize = 0;
    while j < n
        invariant
            j <= n <= 16,
            n <= e@.len(),
            n == 16 || n == e@.len(),
            sum == byte_sum(e@.take(j as int)),
            sum <= 255 * j,
        decreases n - j,
    {
        assert(e@.take(j + 1).drop_last() =~= e@.take(j as int));
        sum = sum + e[j] as u32;
        j = j + 1;
    }
    assert(prefix(e@, 16) =~= e@.take(n as int));
    sum
}

/// Algorithm 2.B (revision 6), or a plain SHA-256 for revision 5: the
/// 32-byte hash of a password, a salt, and, for the owner password, the
/// 48 bytes of `/U`.
pub fn hash_2b(revision: Revision, password: &[u8], salt: &[u8], udata: &[u8]) -> (r: Vec<u8>)
    ensures
        r@ == hash_2b_of(revision, password@, salt@, udata@),
        r@.len() == 32,
{
    let mut input = to_vec(password);
    extend(&mut input, salt);
    extend(&mut input, udata);
    let k0 = sha256(input.as_slice());
    if revision == Revision::R5 {
        return first_32(k0.as_slice());
    }
    let ghost target = h2b_rounds(password@, udata@, k0@, 0);
    let mut k = k0;
    let mut round: usize = 0;
    loop
        invariant_except_break
            round < 288,
            h2b_rounds(password@, udata@, k@, round as nat) == target,
        invariant
            k@.len() == 32 || k@.len() == 48 || k@.len() == 64,
        ensures
            k@ == target,
        decreases 300 - round,
    {
        let ghost unit = password@ + k@ + udata@;
        let mut k1: Vec<u8> = Vec::new();
        let mut j: usize = 0;
        while j < 64
            invariant
                j <= 64,
                unit == password@ + k@ + udata@,
                k1@ == repeated(unit, j as nat),
            decreases 64 - j,
        {
            let ghost before = k1@;
            extend(&mut k1, password);
            extend(&mut k1, k.as_slice());
            extend(&mut k1, udata);
            assert(k1@ =~= before + unit);
            j = j + 1;
        }
        proof {
            lemma_repeated_len(unit, 64);
            let l = unit.len();
            assert((64 * l) % 16 == 0) by (nonlinear_arith);
            assert(64 * l >= 16) by (nonlinear_arith)
                requires
                    l >= 32,
            ;
        }
        let key = vstd::slice::slice_subrange(k.as_slice(), 0, 16);
        let iv = vstd::slice::slice_subrange(k.as_slice(), 16, 32);
        let e = aes128_cbc_encrypt(key, iv, k1.as_slice());
        assert(e@ == h2b_block(password@, k@, udata@));
        let modulo = byte_sum16(e.as_slice()) % 3;
        let next = if modulo == 0 {
            sha256(e.as_slice())
        } else if modulo == 1 {
            sha384(e.as_slice())
        } else {
            sha512(e.as_slice())
        };
        assert(next@ == h2b_next(e@));
        let last = e[e.len() - 1] as usize;
        let r = round + 1;
        if r >= 64 && last + 32 <= r {
            k = next;
            break;
        }
        k = next;
        round = r;
    }
    first_32(k.as_slice())
}

/// The whole 16-byte blocks at the start of `s`.
pub open spec fn whole_blocks(s: Seq<u8>) -> Seq<u8> {
    s.take(s.len() - s.len() % 16)
}

/// AES-256 CBC with a zero IV and no padding: the unwrapping of the file
/// key from `/UE` or `/OE` (algorithms 11 and 12).
pub open spec fn unwrapped_key(key: Seq<u8>, wrapped: Seq<u8>) -> Seq<u8> {
    aes256_cbc_decrypted(key, zero_bytes(16), whole_blocks(prefix(wrapped, 32)))
}

fn zero_iv() -> (r: Vec<u8>)
    ensures
        r@ == zero_bytes(16),
{
    zero_padded_vec(&[], 16)
}

fn whole_blocks_of(s: &[u8]) -> (r: &[u8])
    ensures
        r@ == whole_blocks(s@),
        r@.len() % 16 == 0,
{
    vstd::slice::slice_subrange(s, 0, s.len() - s.len() % 16)
}

fn aes256_cbc_no_iv_decrypt(key: &[u8], wrapped: &[u8]) -> (r: Vec<u8>)
    requires
        key@.len() == 32,
    ensures
        r@ == unwrapped_key(key@, wrapped@),
        wrapped@.len() >= 32 ==> r@.len() == 32,
{
    let iv = zero_iv();
    aes256_cbc_decrypt(key, iv.as_slice(), whole_blocks_of(prefix_of(wrapped, 32)))
}

/// The file key of a revision 5 or 6 file (algorithms 11, 12 and 2.A),
/// and whether the password was the owner one. `/U` and `/O` are read
/// from their first 48 bytes.
pub open spec fn aes256_file_key_of(m: ParamsModel, password: Seq<u8>) -> Option<(Seq<u8>, bool)> {
    let p = utf8_password_of(password);
    let user = prefix(m.user, 48);
    let owner = prefix(m.owner, 48);
    if hash_2b_of(m.revision, p, user.subrange(32, 40), Seq::empty()) == user.subrange(0, 32) {
        Some(
            (
                unwrapped_key(
                    hash_2b_of(m.revision, p, user.subrange(40, 48), Seq::empty()),
                    m.user_key,
                ),
                false,
            ),
        )
    } else if hash_2b_of(m.revision, p, owner.subrange(32, 40), user) == owner.subrange(0, 32) {
        Some(
            (
                unwrapped_key(hash_2b_of(m.revision, p, owner.subrange(40, 48), user), m.owner_key),
                true,
            ),
        )
    } else {
        None
    }
}

fn aes256_file_key(params: &Params, password: &[u8]) -> (r: Option<(Vec<u8>, bool)>)
    requires
        params.user@.len() >= 48,
        params.owner@.len() >= 48,
    ensures
        params.user_key@.len() >= 32 && params.owner_key@.len() >= 32 ==> (r matches Some((k, _)) ==> k@.len() == 32),
        match r {
            Some((k, owner)) => aes256_file_key_of(params@, password@) == Some((k@, owner)),
            None => aes256_file_key_of(params@, password@) is None,
        },
{
    let password = utf8_password(password);
    let user = prefix_of(params.user.as_slice(), 48);
    let owner = prefix_of(params.owner.as_slice(), 48);
    let empty: &[u8] = &[];
    assert(empty@ =~= Seq::<u8>::empty());
    let u_check = hash_2b(params.revision, password, vstd::slice::slice_subrange(user, 32, 40), empty);
    if bytes_eq(u_check.as_slice(), vstd::slice::slice_subrange(user, 0, 32)) {
        let intermediate = hash_2b(
            params.revision,
            password,
            vstd::slice::slice_subrange(user, 40, 48),
            empty,
        );
        let key = aes256_cbc_no_iv_decrypt(intermediate.as_slice(), params.user_key.as_slice());
        return Some((key, false));
    }
    let o_check = hash_2b(params.revision, password, vstd::slice::slice_subrange(owner, 32, 40), user);
    if bytes_eq(o_check.as_slice(), vstd::slice::slice_subrange(owner, 0, 32)) {
        let intermediate = hash_2b(
            params.revision,
            password,
            vstd::slice::slice_subrange(owner, 40, 48),
            user,
        );
        let key = aes256_cbc_no_iv_decrypt(intermediate.as_slice(), params.owner_key.as_slice());
        return Some((key, true));
    }
    None
}

/// The `/U`, `/UE`, `/O`, `/OE` and `/Perms` values of a revision 5 or 6
/// file (algorithms 8, 9 and 10). Building block for fixtures and for an
/// encrypting writer.
#[derive(Debug, Clone, PartialEq, Eq)]
pub struct Aes256Entries {
    /// `/U`, 48 bytes.
    pub user: Vec<u8>,
    /// `/UE`, 32 bytes.
    pub user_key: Vec<u8>,
    /// `/O`, 48 bytes.
    pub owner: Vec<u8>,
    /// `/OE`, 32 bytes.
    pub owner_key: Vec<u8>,
    /// `/Perms`, 16 bytes.
    pub perms: Vec<u8>,
}

/// The 16 bytes enciphered into `/Perms` (algorithm 10): `/P`, four
/// `0xff`, `T` or `F` for `/EncryptMetadata`, `adb`, four zero bytes.
pub open spec fn perms_block(permissions: u32, encrypt_metadata: bool) -> Seq<u8> {
    le32(permissions) + seq![0xffu8, 0xff, 0xff, 0xff] + seq![
        if encrypt_metadata {
            0x54u8
        } else {
            0x46u8
        },
        0x61u8,
        0x64,
        0x62,
    ] + zero_bytes(4)
}

/// `/U` of algorithm 8: the validation hash, then both user salts.
pub open spec fn aes256_user_entry(revision: Revision, user_password: Seq<u8>, salts: Seq<Seq<u8>>) -> Seq<u8> {
    hash_2b_of(revision, utf8_password_of(user_password), salts[0], Seq::empty()) + salts[0]
        + salts[1]
}

/// `/O` of algorithm 9: the validation hash over `/U`, then both owner salts.
pub open spec fn aes256_owner_entry(revision: Revision, owner_password: Seq<u8>, salts: Seq<Seq<u8>>, user: Seq<u8>) -> Seq<u8> {
    hash_2b_of(revision, utf8_password_of(owner_password), salts[2], user) + salts[2] + salts[3]
}

fn aes256_cbc_no_iv_encrypt(key: &[u8], data: &[u8]) -> (r: Vec<u8>)
    requires
        key@.len() == 32,
        data@.len() == 16 || data@.len() == 32,
    ensures
        r@ == aes256_cbc_encrypted(key@, zero_bytes(16), data@),
        r@.len() == data@.len(),
        aes256_cbc_decrypted(key@, zero_bytes(16), r@) == data@,
{
    let iv = zero_iv();
    aes256_cbc_encrypt(key, iv.as_slice(), data)
}

/// Compute [`Aes256Entries`] for a file key and a pair of passwords. The
/// four salts (user validation, user key, owner validation, owner key)
/// are the caller's: random in a writer, fixed in a fixture.
///
/// The entries open the file with the file key: as the user with the user
/// password, and as the owner with an owner password that does not pass
/// as the user one.
#[verifier::spinoff_prover]
#[verifier::rlimit(40)]
pub fn aes256_entries(
    revision: Revision,
    file_key: &[u8; 32],
    user_password: &[u8],
    owner_password: &[u8],
    salts: &[[u8; 8]; 4],
    permissions: u32,
    encrypt_metadata: bool,
) -> (r: Aes256Entries)
    ensures
        ({
            let s = seq![salts[0]@, salts[1]@, salts[2]@, salts[3]@];
            let up = utf8_password_of(user_password@);
            let op = utf8_password_of(owner_password@);
            &&& r.user@ == aes256_user_entry(revision, user_password@, s)
            &&& r.user_key@ == aes256_cbc_encrypted(
                hash_2b_of(revision, up, s[1], Seq::empty()),
                zero_bytes(16),
                file_key@,
            )
            &&& r.owner@ == aes256_owner_entry(revision, owner_password@, s, r.user@)
            &&& r.owner_key@ == aes256_cbc_encrypted(
                hash_2b_of(revision, op, s[3], r.user@),
                zero_bytes(16),
                file_key@,
            )
            &&& r.perms@ == aes256_cbc_encrypted(
                file_key@,
                zero_bytes(16),
                perms_block(permissions, encrypt_metadata),
            )
            &&& r.user@.len() == 48 && r.owner@.len() == 48
            &&& r.user_key@.len() == 32 && r.owner_key@.len() == 32
            &&& r.perms@.len() == 16
            &&& revision.is_aes256() ==> forall|m: ParamsModel|
                m.revision == revision && m.user == r.user@ && m.owner == r.owner@ && m.user_key
                    == r.user_key@ && m.owner_key == r.owner_key@ ==> {
                    &&& #[trigger] file_key_of(m, user_password@) == Some((file_key@, false))
                    &&& hash_2b_of(revision, op, s[0], Seq::empty()) != r.user@.take(32)
                        ==> file_key_of(m, owner_password@) == Some((file_key@, true))
                }
        }),
{
    let ghost s = seq![salts[0]@, salts[1]@, salts[2]@, salts[3]@];
    let upw = utf8_password(user_password);
    let opw = utf8_password(owner_password);
    let empty: &[u8] = &[];
    assert(empty@ =~= Seq::<u8>::empty());
    let s0 = salts[0].as_slice();
    let s1 = salts[1].as_slice();
    let s2 = salts[2].as_slice();
    let s3 = salts[3].as_slice();
    // Algorithm 8.
    let mut user = hash_2b(revision, upw, s0, empty);
    extend(&mut user, s0);
    extend(&mut user, s1);
    let u_intermediate = hash_2b(revision, upw, s1, empty);
    let user_key = aes256_cbc_no_iv_encrypt(u_intermediate.as_slice(), file_key.as_slice());
    // Algorithm 9.
    let mut owner = hash_2b(revision, opw, s2, user.as_slice());
    extend(&mut owner, s2);
    extend(&mut owner, s3);
    let o_intermediate = hash_2b(revision, opw, s3, user.as_slice());
    let owner_key = aes256_cbc_no_iv_encrypt(o_intermediate.as_slice(), file_key.as_slice());
    // Algorithm 10.
    let mut block: Vec<u8> = Vec::new();
    push_le32(&mut block, permissions);
    block.push(0xff);
    block.push(0xff);
    block.push(0xff);
    block.push(0xff);
    block.push(if encrypt_metadata {
        0x54u8
    } else {
        0x46u8
    });
    block.push(0x61);
    block.push(0x64);
    block.push(0x62);
    block.push(0);
    block.push(0);
    block.push(0);
    block.push(0);
    assert(block@ =~= perms_block(permissions, encrypt_metadata));
    let perms = aes256_cbc_no_iv_encrypt(file_key.as_slice(), block.as_slice());
    proof {
        assert(user@ =~= aes256_user_entry(revision, user_password@, s));
        assert(owner@ =~= aes256_owner_entry(revision, owner_password@, s, user@));
        if revision.is_aes256() {
            assert forall|m: ParamsModel|
                m.revision == revision && m.user == user@ && m.owner == owner@ && m.user_key
                    == user_key@ && m.owner_key == owner_key@ implies {
                &&& #[trigger] file_key_of(m, user_password@) == Some((file_key@, false))
                &&& hash_2b_of(revision, utf8_password_of(owner_password@), s[0], Seq::empty())
                    != user@.take(32) ==> file_key_of(m, owner_password@) == Some(
                    (file_key@, true),
                )
            } by {
                let pm = padded_model(m);
                assert(pm.user =~= user@);
                assert(pm.owner =~= owner@);
                assert(pm.user_key =~= user_key@);
                assert(pm.owner_key =~= owner_key@);
                assert(prefix(pm.user, 48) =~= user@);
                assert(prefix(pm.owner, 48) =~= owner@);
                assert(user@.subrange(32, 40) =~= salts[0]@);
                assert(user@.subrange(40, 48) =~= salts[1]@);
                assert(user@.subrange(0, 32) =~= hash_2b_of(revision, utf8_password_of(user_password@), salts[0]@, Seq::empty()));
                assert(owner@.subrange(32, 40) =~= salts[2]@);
                assert(owner@.subrange(40, 48) =~= salts[3]@);
                assert(owner@.subrange(0, 32) =~= hash_2b_of(revision, utf8_password_of(owner_password@), salts[2]@, user@));
                assert(whole_blocks(prefix(user_key@, 32)) =~= user_key@);
                assert(whole_blocks(prefix(owner_key@, 32)) =~= owner_key@);
            }
        }
    }
    Aes256Entries { user, user_key, owner, owner_key, perms }
}

// ---------------------------------------------------------------------------
// Object keys and the ciphers applied to objects (7.6.2, 7.6.3)
// ---------------------------------------------------------------------------

/// Length of an object key for a file key of `n` bytes: `n + 5`, 16 at most.
pub open spec fn object_key_len(n: nat) -> int {
    if n + 5 < 16 {
        (n + 5) as int
    } else {
        16
    }
}

/// Algorithm 1: the object key is the MD5 of the file key, the low three
/// bytes of the object number, the low two bytes of the generation, and
/// `sAlT` for AES-128, cut to `n + 5` bytes, 16 at most.
pub open spec fn object_key_of(key: Seq<u8>, num: u32, gen: u16, aes: bool) -> Seq<u8> {
    let input = key + le32(num).take(3) + le16(gen) + (if aes {
        seq![0x73u8, 0x41, 0x6C, 0x54]
    } else {
        Seq::empty()
    });
    prefix(md5_of(input), object_key_len(key.len()))
}

/// `d` without its PKCS#5 padding when that padding is well formed (last
/// byte 1 to 16, that many bytes available); `d` itself otherwise.
pub open spec fn pkcs5_stripped(d: Seq<u8>) -> Seq<u8> {
    if d.len() > 0 && 1 <= d.last() <= 16 && d.last() <= d.len() {
        d.take(d.len() - d.last())
    } else {
        d
    }
}

/// `d` with PKCS#5 padding: 1 to 16 bytes, each holding their count.
pub open spec fn pkcs5_padded(d: Seq<u8>) -> Seq<u8> {
    let pad = 16 - d.len() % 16;
    d + Seq::new(pad as nat, |i: int| pad as u8)
}

/// AES-CBC decryption as PDF stores it (7.6.3.1): a 16-byte
/// initialisation vector in front, PKCS#5 padding at the end, the key
/// selecting AES-128 or AES-256. No IV gives nothing, a trailing partial
/// block is dropped, invalid padding is kept.
pub open spec fn cbc_deciphered(key: Seq<u8>, data: Seq<u8>) -> Seq<u8> {
    if data.len() < 16 {
        Seq::empty()
    } else {
        let iv = data.take(16);
        let body = whole_blocks(data.skip(16));
        if key.len() == 16 {
            pkcs5_stripped(aes128_cbc_decrypted(key, iv, body))
        } else if key.len() == 32 {
            pkcs5_stripped(aes256_cbc_decrypted(key, iv, body))
        } else {
            Seq::empty()
        }
    }
}

/// AES-CBC encryption as PDF stores it: `iv` written first, PKCS#5
/// padding added, the key selecting AES-128 or AES-256 (nothing follows
/// the IV for another key size).
pub open spec fn cbc_enciphered(key: Seq<u8>, iv: Seq<u8>, data: Seq<u8>) -> Seq<u8> {
    iv + if key.len() == 16 {
        aes128_cbc_encrypted(key, iv, pkcs5_padded(data))
    } else if key.len() == 32 {
        aes256_cbc_encrypted(key, iv, pkcs5_padded(data))
    } else {
        Seq::empty()
    }
}

/// Data of object `num gen` deciphered with the file key `key`.
pub open spec fn deciphered(key: Seq<u8>, cipher: Cipher, num: u32, gen: u16, data: Seq<u8>) -> Seq<u8> {
    match cipher {
        Cipher::Identity => data,
        Cipher::Rc4 => rc4_spec(object_key_of(key, num, gen, false), data),
        Cipher::Aes128 => cbc_deciphered(object_key_of(key, num, gen, true), data),
        Cipher::Aes256 => cbc_deciphered(key, data),
    }
}

/// Data of object `num gen` enciphered with the file key `key`.
pub open spec fn enciphered(key: Seq<u8>, cipher: Cipher, num: u32, gen: u16, iv: Seq<u8>, data: Seq<u8>) -> Seq<u8> {
    match cipher {
        Cipher::Identity => data,
        Cipher::Rc4 => rc4_spec(object_key_of(key, num, gen, false), data),
        Cipher::Aes128 => cbc_enciphered(object_key_of(key, num, gen, true), iv, data),
        Cipher::Aes256 => cbc_enciphered(key, iv, data),
    }
}

/// A cipher whose key the file key provides: AES-128 needs an object key
/// of 16 bytes (a file key of 11 bytes or more), AES-256 a 32-byte file
/// key.
/// The key of an opened file suits every cipher its revision allows: an
/// AES-128 file has a 16-byte key, an AES-256 one a 32-byte key, so what
/// [`Decryptor::encrypt_with`] ciphers with them deciphers back.
pub proof fn law_opened_key_suits(m: ParamsModel, key: Seq<u8>, c: Cipher)
    requires
        params_ok(m),
        key.len() == file_key_len(m),
        cipher_allowed(m, c),
    ensures
        key_suits(key, c),
{
}

/// Revisions 5 and 6 read at most 127 bytes of a password: a longer one
/// opens the file exactly as its first 127 bytes do.
pub proof fn law_aes256_password_cut(m: ParamsModel, password: Seq<u8>)
    requires
        m.revision.is_aes256(),
        password.len() > 127,
    ensures
        file_key_of(m, password) == file_key_of(m, password.take(127)),
{
    assert(utf8_password_of(password) =~= utf8_password_of(password.take(127)));
}

/// Algorithm 1: the key that ciphers object `num gen` is the MD5 of the
/// file key, the three low bytes of `num` and the two low bytes of `gen`
/// (least significant first), followed for AES-128 by the four bytes
/// `sAlT` (0x73 0x41 0x6C 0x54), cut to the file key's length plus 5, 16
/// at most. RC4 deciphers with that key without the salt, AES-128 with the
/// salted one, AES-256 with the file key itself; ciphering uses the same
/// keys.
pub proof fn law_object_keys(key: Seq<u8>, num: u32, gen: u16, iv: Seq<u8>, data: Seq<u8>)
    ensures
        ({
            let id = key + seq![
                (num % 256) as u8,
                ((num / 256) % 256) as u8,
                ((num / 65536) % 256) as u8,
                (gen % 256) as u8,
                (gen / 256) as u8,
            ];
            let n: int = if key.len() + 5 < 16 {
                (key.len() + 5) as int
            } else {
                16
            };
            let rc4_key = prefix(md5_of(id), n);
            let aes_key = prefix(md5_of(id + seq![0x73u8, 0x41u8, 0x6Cu8, 0x54u8]), n);
            &&& object_key_of(key, num, gen, false) == rc4_key
            &&& object_key_of(key, num, gen, true) == aes_key
            &&& deciphered(key, Cipher::Rc4, num, gen, data) == rc4_spec(rc4_key, data)
            &&& deciphered(key, Cipher::Aes128, num, gen, data) == cbc_deciphered(aes_key, data)
            &&& deciphered(key, Cipher::Aes256, num, gen, data) == cbc_deciphered(key, data)
            &&& deciphered(key, Cipher::Identity, num, gen, data) == data
            &&& enciphered(key, Cipher::Rc4, num, gen, iv, data) == rc4_spec(rc4_key, data)
            &&& enciphered(key, Cipher::Aes128, num, gen, iv, data) == cbc_enciphered(aes_key, iv, data)
            &&& enciphered(key, Cipher::Aes256, num, gen, iv, data) == cbc_enciphered(key, iv, data)
        }),
{
    let id = key + seq![
        (num % 256) as u8,
        ((num / 256) % 256) as u8,
        ((num / 65536) % 256) as u8,
        (gen % 256) as u8,
        (gen / 256) as u8,
    ];
    assert(key + le32(num).take(3) + le16(gen) + Seq::<u8>::empty() =~= id);
    assert(key + le32(num).take(3) + le16(gen) + seq![0x73u8, 0x41, 0x6C, 0x54] =~= id + seq![
        0x73u8,
        0x41u8,
        0x6Cu8,
        0x54u8,
    ]);
}

/// Algorithm 2: the file key of revisions 2 to 4 is the MD5 of the padded
/// password, the first 32 bytes of `/O`, `/P` as four bytes (least
/// significant first), the whole file identifier, and `FF FF FF FF` when
/// revision 4 or later leaves the metadata in the clear, strengthened for
/// revision 3 and later, cut to the key length.
pub proof fn law_legacy_file_key(m: ParamsModel, padded: Seq<u8>)
    ensures
        legacy_key(m, padded) == strengthened(
            m.revision,
            md5_of(
                padded + prefix(m.owner, 32) + seq![
                    (m.permissions % 256) as u8,
                    ((m.permissions / 256) % 256) as u8,
                    ((m.permissions / 65536) % 256) as u8,
                    (m.permissions / 16777216) as u8,
                ] + m.file_id + (if m.revision.value() >= 4 && !m.encrypt_metadata {
                    seq![0xffu8, 0xffu8, 0xffu8, 0xffu8]
                } else {
                    Seq::<u8>::empty()
                }),
            ),
            legacy_key_len(m),
        ),
{
    let p = seq![
        (m.permissions % 256) as u8,
        ((m.permissions / 256) % 256) as u8,
        ((m.permissions / 65536) % 256) as u8,
        (m.permissions / 16777216) as u8,
    ];
    assert(le32(m.permissions) =~= p);
}

/// The steps of algorithm 2 around the digest: a password is cut to 32
/// bytes or completed with the first bytes of the standard padding string;
/// the key is 5 bytes long for revision 2 and `/Length` / 8 bytes (5 to 16)
/// otherwise; revision 2 keeps the first bytes of the digest, later ones
/// hash the first key-length bytes 50 more times first.
pub proof fn law_legacy_key_steps(m: ParamsModel, p: Seq<u8>, d: Seq<u8>, n: nat, k: nat)
    ensures
        p.len() >= 32 ==> padded_password(p) == p.take(32),
        p.len() < 32 ==> padded_password(p) == p + seq![
            0x28u8, 0xBFu8, 0x4Eu8, 0x5Eu8, 0x4Eu8, 0x75u8, 0x8Au8, 0x41u8, 0x64u8, 0x00u8, 0x4Eu8, 0x56u8,
            0xFFu8, 0xFAu8, 0x01u8, 0x08u8, 0x2Eu8, 0x2Eu8, 0x00u8, 0xB6u8, 0xD0u8, 0x68u8, 0x3Eu8, 0x80u8,
            0x2Fu8, 0x0Cu8, 0xA9u8, 0xFEu8, 0x64u8, 0x53u8, 0x69u8, 0x7Au8,
        ].take(32 - p.len()),
        m.revision == Revision::R2 ==> legacy_key_len(m) == 5,
        m.revision != Revision::R2 ==> legacy_key_len(m) == if m.key_bits / 8 < 5 {
            5
        } else if m.key_bits / 8 > 16 {
            16
        } else {
            m.key_bits / 8
        },
        strengthened(Revision::R2, d, n) == prefix(d, n as int),
        m.revision != Revision::R2 ==> strengthened(m.revision, d, n) == prefix(md5_rounds(d, n, 50), n as int),
        md5_rounds(d, n, 0) == d,
        md5_rounds(d, n, k + 1) == md5_of(prefix(md5_rounds(d, n, k), n as int)),
{
}

/// How PDF lays out AES data (7.6.3.1): the 16-byte initialisation vector
/// first, then the data in CBC mode with PKCS#5 padding, 1 to 16 bytes each
/// holding their count, so that the ciphered body is a whole number of
/// blocks. Deciphering reads the vector from the front, deciphers the
/// whole blocks after it and takes off well-formed padding.
pub proof fn law_aes_layout(key: Seq<u8>, iv: Seq<u8>, data: Seq<u8>)
    requires
        key.len() == 16 || key.len() == 32,
        iv.len() == 16,
    ensures
        ({
            let pad: int = 16 - data.len() % 16;
            let padded = data + Seq::new(pad as nat, |i: int| pad as u8);
            &&& 1 <= pad <= 16
            &&& padded.len() % 16 == 0
            &&& cbc_enciphered(key, iv, data) == iv + if key.len() == 16 {
                aes128_cbc_encrypted(key, iv, padded)
            } else {
                aes256_cbc_encrypted(key, iv, padded)
            }
        }),
        data.len() < 16 ==> cbc_deciphered(key, data) == Seq::<u8>::empty(),
        data.len() >= 16 ==> ({
            let body = data.skip(16).take(data.len() - 16 - (data.len() - 16) % 16);
            let plain = if key.len() == 16 {
                aes128_cbc_decrypted(key, data.take(16), body)
            } else {
                aes256_cbc_decrypted(key, data.take(16), body)
            };
            cbc_deciphered(key, data) == if plain.len() > 0 && 1 <= plain.last() <= 16 && plain.last() <= plain.len() {
                plain.take(plain.len() - plain.last())
            } else {
                plain
            }
        }),
{
}

pub open spec fn key_suits(key: Seq<u8>, cipher: Cipher) -> bool {
    match cipher {
        Cipher::Aes128 => key.len() >= 11,
        Cipher::Aes256 => key.len() == 32,
        _ => true,
    }
}

/// Remove PKCS#5 padding when it is well formed (last byte 1 to 16, that
/// many bytes available). Anything else is left as is.
pub fn strip_pkcs5(data: &mut Vec<u8>)
    ensures
        final(data)@ == pkcs5_stripped(old(data)@),
{
    let len = data.len();
    if len > 0 {
        let n = data[len - 1] as usize;
        if 1 <= n && n <= 16 && n <= len {
            data.truncate(len - n);
        }
    }
}

fn aes_cbc_decrypt(key: &[u8], data: &[u8]) -> (r: Vec<u8>)
    ensures
        r@ == cbc_deciphered(key@, data@),
        data@.len() < 32 ==> r@.len() == 0,
        data@.len() >= 16 ==> r@.len() <= data@.len() - 16,
{
    if data.len() < 16 {
        return Vec::new();
    }
    let iv = vstd::slice::slice_subrange(data, 0, 16);
    let body = vstd::slice::slice_subrange(data, 16, data.len());
    assert(body@ =~= data@.skip(16));
    let blocks = whole_blocks_of(body);
    let mut out = if key.len() == 16 {
        aes128_cbc_decrypt(key, iv, blocks)
    } else if key.len() == 32 {
        aes256_cbc_decrypt(key, iv, blocks)
    } else {
        return Vec::new();
    };
    strip_pkcs5(&mut out);
    out
}

fn aes_cbc_encrypt(key: &[u8], iv: &[u8], data: &[u8]) -> (r: Vec<u8>)
    requires
        iv@.len() == 16,
    ensures
        r@ == cbc_enciphered(key@, iv@, data@),
        (key@.len() == 16 || key@.len() == 32) ==> cbc_deciphered(key@, r@) == data@,
        r@.take(16) == iv@,
        (key@.len() == 16 || key@.len() == 32) ==> r@.len() == 16 * (data@.len() / 16 + 2),
{
    let pad: usize = 16 - data.len() % 16;
    let mut padded = to_vec(data);
    let mut k: usize = 0;
    while k < pad
        invariant
            k <= pad,
            1 <= pad <= 16,
            pad == 16 - data@.len() % 16,
            padded@ == data@ + Seq::new(k as nat, |i: int| pad as u8),
        decreases pad - k,
    {
        padded.push(pad as u8);
        assert(padded@ =~= data@ + Seq::new((k + 1) as nat, |i: int| pad as u8));
        k = k + 1;
    }
    assert(padded@ =~= pkcs5_padded(data@));
    assert(padded@.len() % 16 == 0);
    let mut out = to_vec(iv);
    if key.len() == 16 {
        let body = aes128_cbc_encrypt(key, iv, padded.as_slice());
        extend(&mut out, body.as_slice());
        proof {
            assert(out@.take(16) =~= iv@);
            assert(out@.skip(16) =~= body@);
            assert(whole_blocks(out@.skip(16)) =~= body@);
            assert(padded@.last() == pad as u8);
            assert(padded@.take(padded@.len() - pad) =~= data@);
        }
    } else if key.len() == 32 {
        let body = aes256_cbc_encrypt(key, iv, padded.as_slice());
        extend(&mut out, body.as_slice());
        proof {
            assert(out@.take(16) =~= iv@);
            assert(out@.skip(16) =~= body@);
            assert(whole_blocks(out@.skip(16)) =~= body@);
            assert(padded@.last() == pad as u8);
            assert(padded@.take(padded@.len() - pad) =~= data@);
        }
    } else {
        assert(out@ =~= iv@ + Seq::<u8>::empty());
    }
    out
}

/// The file key of an opened document, ready to decipher objects. It has
/// no `Debug` form: the key is never printed.
#[derive(Clone, PartialEq, Eq)]
pub struct Decryptor {
    key: Vec<u8>,
    revision: Revision,
    streams: Cipher,
    strings: Cipher,
    encrypt_metadata: bool,
    owner: bool,
}

impl Decryptor {
    /// The file key.
    pub closed spec fn key_seq(&self) -> Seq<u8> {
        self.key@
    }

    /// The revision of the file.
    pub closed spec fn revision_of(&self) -> Revision {
        self.revision
    }

    /// Cipher of streams.
    pub closed spec fn streams_of(&self) -> Cipher {
        self.streams
    }

    /// Cipher of strings.
    pub closed spec fn strings_of(&self) -> Cipher {
        self.strings
    }

    /// `/EncryptMetadata`.
    pub closed spec fn metadata_of(&self) -> bool {
        self.encrypt_metadata
    }

    /// Opened with the owner password.
    pub closed spec fn owner_of(&self) -> bool {
        self.owner
    }

    /// Check the parameters, try `password` as the user password then as
    /// the owner password (algorithms 6, 7, 11 and 12), and derive the
    /// file key. The empty password is the usual one: most encrypted files
    /// only restrict what readers may do, not who may read.
    pub fn open(params: &Params, password: &[u8]) -> (r: Result<Decryptor, Error>)
        ensures
            match r {
                Ok(d) => {
                    &&& params_ok(params@)
                    &&& file_key_of(params@, password@) == Some((d.key_seq(), d.owner_of()))
                    &&& d.key_seq().len() == file_key_len(params@)
                    &&& key_suits(d.key_seq(), d.streams_of())
                    &&& key_suits(d.key_seq(), d.strings_of())
                    &&& d.revision_of() == params.revision
                    &&& d.streams_of() == params.streams
                    &&& d.strings_of() == params.strings
                    &&& d.metadata_of() == params.encrypt_metadata
                },
                Err(Error::WrongPassword) => params_ok(params@) && file_key_of(params@, password@) is None,
                Err(Error::BadParameters(msg)) => !params_ok(params@) && msg@ == check_message(params@),
            },
    {
        match check(params) {
            Err(e) => {
                return Err(e);
            },
            Ok(()) => {},
        }
        let p = padded(params);
        let found = if p.revision.uses_aes256() {
            aes256_file_key(&p, password)
        } else {
            legacy_file_key(&p, password)
        };
        match found {
            None => Err(Error::WrongPassword),
            Some((key, owner)) => {
                proof {
                    law_opened_key_suits(params@, key@, params.streams);
                    law_opened_key_suits(params@, key@, params.strings);
                }
                Ok(
                Decryptor {
                    key,
                    revision: p.revision,
                    streams: p.streams,
                    strings: p.strings,
                    encrypt_metadata: p.encrypt_metadata,
                    owner,
                },
            )
            },
        }
    }

    /// Security handler revision of the file.
    pub fn revision(&self) -> (r: Revision)
        ensures
            r == self.revision_of(),
    {
        self.revision
    }

    /// Length of the file key in bits.
    pub fn key_bits(&self) -> (b: u32)
        ensures
            b as int == if self.key_seq().len() * 8 <= u32::MAX {
                (self.key_seq().len() * 8) as int
            } else {
                u32::MAX as int
            },
    {
        if self.key.len() > 536870911 {
            u32::MAX
        } else {
            (self.key.len() * 8) as u32
        }
    }

    /// The file key itself.
    pub fn file_key(&self) -> (k: &[u8])
        ensures
            k@ == self.key_seq(),
    {
        self.key.as_slice()
    }

    /// Cipher applied to streams that name no crypt filter of their own.
    pub fn stream_cipher(&self) -> (c: Cipher)
        ensures
            c == self.streams_of(),
    {
        self.streams
    }

    /// Cipher applied to strings.
    pub fn string_cipher(&self) -> (c: Cipher)
        ensures
            c == self.strings_of(),
    {
        self.strings
    }

    /// `false` when the document's metadata stream is stored in the clear
    /// (`/EncryptMetadata false`, 7.6.4.2).
    pub fn encrypt_metadata(&self) -> (b: bool)
        ensures
            b == self.metadata_of(),
    {
        self.encrypt_metadata
    }

    /// Whether the password that opened the file was the owner password.
    pub fn opened_as_owner(&self) -> (b: bool)
        ensures
            b == self.owner_of(),
    {
        self.owner
    }

    /// Decipher the data of a stream that belongs to object `num gen`
    /// (algorithm 1), with the document's stream cipher.
    pub fn decrypt_stream(&self, num: u32, gen: u16, data: &[u8]) -> (r: Vec<u8>)
        ensures
            r@ == deciphered(self.key_seq(), self.streams_of(), num, gen, data@),
    {
        self.decrypt_with(self.streams, num, gen, data)
    }

    /// Decipher a string that belongs to object `num gen` (algorithm 1),
    /// with the document's string cipher.
    pub fn decrypt_string(&self, num: u32, gen: u16, data: &[u8]) -> (r: Vec<u8>)
        ensures
            r@ == deciphered(self.key_seq(), self.strings_of(), num, gen, data@),
    {
        self.decrypt_with(self.strings, num, gen, data)
    }

    /// Decipher data of object `num gen` with an explicit cipher: the one
    /// of a crypt filter the stream names itself (7.4.10).
    ///
    /// Tolerant with broken ciphertext, as readers are: AES data shorter
    /// than its initialisation vector gives nothing, a trailing partial
    /// block is dropped, and padding that is not PKCS#5 is kept.
    pub fn decrypt_with(&self, cipher: Cipher, num: u32, gen: u16, data: &[u8]) -> (r: Vec<u8>)
        ensures
            r@ == deciphered(self.key_seq(), cipher, num, gen, data@),
            cipher is Rc4 ==> r@.len() == data@.len(),
            (cipher is Aes128 || cipher is Aes256) && data@.len() < 32 ==> r@.len() == 0,
            (cipher is Aes128 || cipher is Aes256) && data@.len() >= 16 ==> r@.len() <= data@.len() - 16,
    {
        match cipher {
            Cipher::Identity => to_vec(data),
            Cipher::Rc4 => {
                let k = self.object_key(num, gen, false);
                rc4_apply(k.as_slice(), data)
            },
            Cipher::Aes128 => {
                let k = self.object_key(num, gen, true);
                aes_cbc_decrypt(k.as_slice(), data)
            },
            Cipher::Aes256 => aes_cbc_decrypt(self.key.as_slice(), data),
        }
    }

    /// Cipher data of object `num gen`, the inverse of
    /// [`Decryptor::decrypt_with`]: deciphering the result with the same
    /// cipher and object gives `data` back whenever the file key suits the
    /// cipher. `iv` is the initialisation vector written in front of AES
    /// data; it is ignored by RC4.
    pub fn encrypt_with(&self, cipher: Cipher, num: u32, gen: u16, iv: &[u8; 16], data: &[u8]) -> (r: Vec<u8>)
        ensures
            r@ == enciphered(self.key_seq(), cipher, num, gen, iv@, data@),
            key_suits(self.key_seq(), cipher) ==> deciphered(self.key_seq(), cipher, num, gen, r@)
                == data@,
            cipher is Rc4 ==> r@.len() == data@.len(),
            (cipher is Aes128 || cipher is Aes256) ==> r@.take(16) == iv@,
            (cipher is Aes128 || cipher is Aes256) && key_suits(self.key_seq(), cipher) ==> r@.len()
                == 16 * (data@.len() / 16 + 2),
    {
        match cipher {
            Cipher::Identity => to_vec(data),
            Cipher::Rc4 => {
                let k = self.object_key(num, gen, false);
                rc4_apply(k.as_slice(), data)
            },
            Cipher::Aes128 => {
                let k = self.object_key(num, gen, true);
                aes_cbc_encrypt(k.as_slice(), iv.as_slice(), data)
            },
            Cipher::Aes256 => aes_cbc_encrypt(self.key.as_slice(), iv.as_slice(), data),
        }
    }

    /// Algorithm 1: the object key is the MD5 of the file key, the low
    /// three bytes of the object number, the low two bytes of the
    /// generation, and `sAlT` for AES-128, truncated to `n + 5` bytes,
    /// 16 at most.
    fn object_key(&self, num: u32, gen: u16, aes: bool) -> (r: Vec<u8>)
        ensures
            r@ == object_key_of(self.key@, num, gen, aes),
            r@.len() == object_key_len(self.key@.len()),
    {
        let mut input = to_vec(self.key.as_slice());
        let ghost before = input@;
        input.push((num % 256) as u8);
        input.push(((num / 256) % 256) as u8);
        input.push(((num / 65536) % 256) as u8);
        input.push((gen % 256) as u8);
        input.push((gen / 256) as u8);
        let ghost mid = input@;
        assert(mid =~= before + le32(num).take(3) + le16(gen));
        if aes {
            input.push(0x73);
            input.push(0x41);
            input.push(0x6C);
            input.push(0x54);
            assert(input@ =~= mid + seq![0x73u8, 0x41, 0x6C, 0x54]);
        } else {
            assert(input@ =~= mid + Seq::<u8>::empty());
        }
        let digest = md5(input.as_slice());
        let n: usize = if self.key.len() < 11 {
            self.key.len() + 5
        } else {
            16
        };
        let mut out = digest;
        out.truncate(n);
        out
    }
}

} // verus!
