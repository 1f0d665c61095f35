//! How an opened file was encrypted, in the terms a caller reports it:
//! the facts of [`crate::crypto::Decryptor`], the reading of `/Length` as
//! a key size, the errors of the security handler as errors of the engine,
//! and the one-line description the command line and the window show.

use crate::bytes::{bytes_eq, to_vec};
use crate::crypto::{check_message, deciphered, file_key_of, params_ok, Cipher, Decryptor, Params, ParamsModel, Revision};
use crate::decode::Resolve;
use crate::lexer::{digit_value, lemma_digit_value_grows, real_accepted, real_ok};
use crate::object::{
    copy_dict, copy_object, dict_get, dict_insert, dict_remove, items_view, lemma_entry_decreases,
    lemma_entry_seq, lemma_items_view, utf8_lossy, Dict, Name, ObjRef, Object, ObjectView,
};
use crate::text::{decimal, push_decimal, push_signed, push_str, signed_decimal, string_of};
use crate::Error;
use vstd::prelude::*;
use vstd::string::StringSliceAdditionalSpecFns;

verus! {

/// How an opened file was encrypted.
#[derive(Debug, Clone, Copy, PartialEq, Eq, Structural)]
pub struct Encryption {
    /// Security handler revision (`/R`).
    pub revision: Revision,
    /// Length of the file key in bits.
    pub key_bits: u32,
    /// Cipher of streams that name no crypt filter of their own.
    pub streams: Cipher,
    /// Cipher of strings.
    pub strings: Cipher,
    /// `false` when the metadata stream is stored in the clear.
    pub encrypt_metadata: bool,
    /// Whether the password that opened the file was the owner password.
    /// With the empty password this is normally `false`.
    pub owner: bool,
}

/// What a decryptor says of the file it opened.
pub fn info(decryptor: &Decryptor) -> (e: Encryption)
    ensures
        e.revision == decryptor.revision_of(),
        e.key_bits as int == if decryptor.key_seq().len() * 8 <= u32::MAX {
            (decryptor.key_seq().len() * 8) as int
        } else {
            u32::MAX as int
        },
        e.streams == decryptor.streams_of(),
        e.strings == decryptor.strings_of(),
        e.encrypt_metadata == decryptor.metadata_of(),
        e.owner == decryptor.owner_of(),
{
    Encryption {
        revision: decryptor.revision(),
        key_bits: decryptor.key_bits(),
        streams: decryptor.stream_cipher(),
        strings: decryptor.string_cipher(),
        encrypt_metadata: decryptor.encrypt_metadata(),
        owner: decryptor.opened_as_owner(),
    }
}

/// The error of a malformed `/Encrypt` dictionary.
fn bad(message: String) -> (e: Error)
    ensures
        e == (Error::BadEncryption { message }),
{
    Error::BadEncryption { message }
}

/// What the security handler's refusal means to the engine: a wrong
/// password stays one, bad parameters become a malformed `/Encrypt`.
pub fn handler_error(e: crate::crypto::Error) -> (r: Error)
    ensures
        match e {
            crate::crypto::Error::WrongPassword => r == Error::WrongPassword,
            crate::crypto::Error::BadParameters(message) => r == (Error::BadEncryption { message }),
        },
{
    match e {
        crate::crypto::Error::WrongPassword => Error::WrongPassword,
        crate::crypto::Error::BadParameters(message) => bad(message),
    }
}

/// `/Length` as a key size in bits: a multiple of 8 between 40 and 128.
pub fn bits_from(length: i64) -> (r: Result<u32, Error>)
    ensures
        (length % 8 == 0 && 40 <= length <= 128) ==> r == Ok::<u32, Error>(length as u32),
        !(length % 8 == 0 && 40 <= length <= 128) ==> (r matches Err(Error::BadEncryption { message })
            && message@ == "/Length "@ + signed_decimal(length as int)
            + " is not a multiple of 8 between 40 and 128"@),
{
    if 40 <= length && length <= 128 && length % 8 == 0 {
        Ok(length as u32)
    } else {
        let mut message = string_of("/Length ");
        push_signed(&mut message, length);
        push_str(&mut message, " is not a multiple of 8 between 40 and 128");
        Err(bad(message))
    }
}

/// How a cipher is named to users.
pub open spec fn cipher_words(c: Cipher) -> Seq<char> {
    match c {
        Cipher::Identity => "en clair"@,
        Cipher::Rc4 => "RC4"@,
        Cipher::Aes128 => "AES-128"@,
        Cipher::Aes256 => "AES-256"@,
    }
}

fn cipher_text(c: Cipher) -> (s: &'static str)
    ensures
        s@ == cipher_words(c),
{
    match c {
        Cipher::Identity => "en clair",
        Cipher::Rc4 => "RC4",
        Cipher::Aes128 => "AES-128",
        Cipher::Aes256 => "AES-256",
    }
}

/// One line about how a file is protected, e.g.
/// `révision 4, AES-128, clé 128 bits`.
pub open spec fn encryption_words(e: Encryption) -> Seq<char> {
    let ciphers = if e.streams == e.strings {
        cipher_words(e.streams)
    } else {
        "flux "@ + cipher_words(e.streams) + ", chaînes "@ + cipher_words(e.strings)
    };
    "révision "@ + decimal(e.revision.value() as nat) + ", "@ + ciphers + ", clé "@ + decimal(
        e.key_bits as nat,
    ) + " bits"@ + (if !e.encrypt_metadata {
        ", métadonnées en clair"@
    } else {
        Seq::empty()
    }) + (if e.owner {
        ", ouvert avec le mot de passe propriétaire"@
    } else {
        Seq::empty()
    })
}

/// One line about how a file is protected, e.g.
/// `révision 4, AES-128, clé 128 bits`.
#[verifier::spinoff_prover]
#[verifier::rlimit(30)]
pub fn describe_encryption(e: &Encryption) -> (text: String)
    ensures
        text@ == encryption_words(*e),
{
    let mut text = string_of("révision ");
    push_decimal(&mut text, e.revision.number() as u64);
    push_str(&mut text, ", ");
    if e.streams == e.strings {
        push_str(&mut text, cipher_text(e.streams));
    } else {
        push_str(&mut text, "flux ");
        push_str(&mut text, cipher_text(e.streams));
        push_str(&mut text, ", chaînes ");
        push_str(&mut text, cipher_text(e.strings));
    }
    push_str(&mut text, ", clé ");
    push_decimal(&mut text, e.key_bits as u64);
    push_str(&mut text, " bits");
    let ghost before_flags = text@;
    if !e.encrypt_metadata {
        push_str(&mut text, ", métadonnées en clair");
    }
    let ghost mid = text@;
    if e.owner {
        push_str(&mut text, ", ouvert avec le mot de passe propriétaire");
    }
    proof {
        let tail1: Seq<char> = if !e.encrypt_metadata {
            ", métadonnées en clair"@
        } else {
            Seq::empty()
        };
        let tail2: Seq<char> = if e.owner {
            ", ouvert avec le mot de passe propriétaire"@
        } else {
            Seq::empty()
        };
        assert(mid =~= before_flags + tail1);
        assert(text@ =~= before_flags + tail1 + tail2);
    }
    text
}


// ---------------------------------------------------------------------------
// The `/Encrypt` dictionary (ISO 32000-2, 7.6.4 tables 20 and 21)
// ---------------------------------------------------------------------------

/// Why an `/Encrypt` dictionary could not be read.
pub enum EncryptFailure {
    /// Following a reference failed (the resolver's error is passed on).
    Unresolved,
    /// [`Error::BadEncryption`] with this message.
    Bad(Seq<char>),
    /// [`Error::Unsupported`] naming this feature.
    Unsupported(Seq<char>),
}

/// `e` is the error reported for `f`.
pub open spec fn encrypt_failure_is(e: Error, f: EncryptFailure) -> bool {
    match f {
        EncryptFailure::Unresolved => true,
        EncryptFailure::Bad(m) => e matches Error::BadEncryption { message } && message@ == m,
        EncryptFailure::Unsupported(w) => e matches Error::Unsupported { feature } && feature@ == w,
    }
}

/// Where the first `.` of `t` stands; the length when there is none.
pub open spec fn dot_position(t: Seq<u8>) -> int
    decreases t.len(),
{
    if t.len() == 0 {
        0
    } else if t[0] == 46u8 {
        0
    } else {
        1 + dot_position(t.drop_first())
    }
}

/// A real whose value is a whole number below 9 000 000 000 000 000 in
/// magnitude, as an integer: its text has only zeros after the `.`. Some
/// writers store integers as reals.
pub open spec fn real_integer(t: Seq<u8>) -> Option<i64> {
    let body = unsigned_part(t);
    let int_part = body.take(dot_position(body));
    if real_accepted(t) && all_zeros(fraction_part(body)) && digit_value(int_part) < 9000000000000000 {
        Some(
            if t.len() > 0 && t[0] == 45u8 {
                (-digit_value(int_part)) as i64
            } else {
                digit_value(int_part) as i64
            },
        )
    } else {
        None
    }
}

/// `t` without its leading `-`.
pub open spec fn unsigned_part(t: Seq<u8>) -> Seq<u8> {
    if t.len() > 0 && t[0] == 45u8 {
        t.skip(1)
    } else {
        t
    }
}

/// What follows the `.` of `body`; nothing when it has none.
pub open spec fn fraction_part(body: Seq<u8>) -> Seq<u8> {
    if dot_position(body) < body.len() {
        body.skip(dot_position(body) + 1)
    } else {
        Seq::empty()
    }
}

/// Every byte of `s` is `0`.
pub open spec fn all_zeros(s: Seq<u8>) -> bool {
    forall|i: int| 0 <= i < s.len() ==> #[trigger] s[i] == 48u8
}

/// An entry of the dictionary, followed: missing or `null` is none.
pub open spec fn entry_of<R: Resolve>(d: Seq<(Seq<u8>, ObjectView)>, key: &str, res: &R) -> Result<Option<ObjectView>, EncryptFailure> {
    match dict_get(d, key.spec_bytes()) {
        None => Ok(None),
        Some(ObjectView::Null) => Ok(None),
        Some(v) => match res.resolved(v) {
            None => Err(EncryptFailure::Unresolved),
            Some(x) => Ok(Some(x)),
        },
    }
}

/// An integer entry; an integral real is taken as an integer.
pub open spec fn int_of<R: Resolve>(d: Seq<(Seq<u8>, ObjectView)>, key: &str, res: &R) -> Result<Option<i64>, EncryptFailure> {
    match entry_of(d, key, res) {
        Err(f) => Err(f),
        Ok(None) => Ok(None),
        Ok(Some(ObjectView::Integer(i))) => Ok(Some(i)),
        Ok(Some(ObjectView::Real(t))) => match real_integer(t) {
            Some(i) => Ok(Some(i)),
            None => Err(EncryptFailure::Bad("/"@ + key@ + " is not an integer"@)),
        },
        Ok(Some(_)) => Err(EncryptFailure::Bad("/"@ + key@ + " is not an integer"@)),
    }
}

/// A string entry.
pub open spec fn string_of_entry<R: Resolve>(d: Seq<(Seq<u8>, ObjectView)>, key: &str, res: &R) -> Result<Option<Seq<u8>>, EncryptFailure> {
    match entry_of(d, key, res) {
        Err(f) => Err(f),
        Ok(None) => Ok(None),
        Ok(Some(ObjectView::String(s))) => Ok(Some(s)),
        Ok(Some(_)) => Err(EncryptFailure::Bad("/"@ + key@ + " is not a string"@)),
    }
}

/// `/P` as 32 bits: an unsigned value, or a negative one that fits an
/// `i32` (the signed 32-bit value of the standard).
pub open spec fn permission_bits(p: i64) -> Option<u32> {
    if 0 <= p <= u32::MAX {
        Some(p as u32)
    } else if i32::MIN <= p < 0 {
        Some((p + 4294967296) as u32)
    } else {
        None
    }
}

/// The cipher a crypt filter method names (`/CFM`, table 25).
pub open spec fn method_cipher(m: Seq<u8>) -> Option<Cipher> {
    if m == "None".spec_bytes() {
        Some(Cipher::Identity)
    } else if m == "V2".spec_bytes() {
        Some(Cipher::Rc4)
    } else if m == "AESV2".spec_bytes() {
        Some(Cipher::Aes128)
    } else if m == "AESV3".spec_bytes() {
        Some(Cipher::Aes256)
    } else {
        None
    }
}

/// The value under `key` in a list of named values: the last one.
pub open spec fn named_value<T>(l: Seq<(Seq<u8>, T)>, key: Seq<u8>) -> Option<T>
    decreases l.len(),
{
    if l.len() == 0 {
        None
    } else if l.last().0 == key {
        Some(l.last().1)
    } else {
        named_value(l.drop_last(), key)
    }
}

/// The crypt filters of `/CF` from entry `i` on (7.6.6): each name with
/// its cipher, and with its `/Length` where that is an integer.
pub open spec fn crypt_filters<R: Resolve>(cf: Seq<(Seq<u8>, ObjectView)>, i: int, filters: Seq<(Seq<u8>, Cipher)>, lengths: Seq<(Seq<u8>, i64)>, res: &R) -> Result<(Seq<(Seq<u8>, Cipher)>, Seq<(Seq<u8>, i64)>), EncryptFailure>
    decreases cf.len() - i,
{
    if i < 0 || i >= cf.len() {
        Ok((filters, lengths))
    } else {
        let name = cf[i].0;
        match res.resolved(cf[i].1) {
            None => Err(EncryptFailure::Unresolved),
            Some(ObjectView::Dict(entry)) => {
                let cfm: Result<Cipher, EncryptFailure> = match dict_get(entry, "CFM".spec_bytes()) {
                    None => Ok(Cipher::Identity),
                    Some(v) => match res.resolved(v) {
                        None => Err(EncryptFailure::Unresolved),
                        Some(ObjectView::Name(m)) => match method_cipher(m) {
                            Some(c) => Ok(c),
                            None => Err(
                                EncryptFailure::Bad(
                                    "crypt filter /"@ + utf8_lossy(name) + " uses the unknown method /"@
                                        + utf8_lossy(m),
                                ),
                            ),
                        },
                        Some(_) => Err(EncryptFailure::Bad("/CFM is not a name"@)),
                    },
                };
                match cfm {
                    Err(f) => Err(f),
                    Ok(c) => {
                        let len: Result<Option<i64>, EncryptFailure> = match dict_get(entry, "Length".spec_bytes()) {
                            None => Ok(None),
                            Some(v) => match res.resolved(v) {
                                None => Err(EncryptFailure::Unresolved),
                                Some(ObjectView::Integer(bits)) => Ok(Some(bits)),
                                Some(_) => Ok(None),
                            },
                        };
                        match len {
                            Err(f) => Err(f),
                            Ok(l) => crypt_filters(
                                cf,
                                i + 1,
                                filters.push((name, c)),
                                match l {
                                    Some(bits) => lengths.push((name, bits)),
                                    None => lengths,
                                },
                                res,
                            ),
                        }
                    },
                }
            },
            Some(_) => Err(EncryptFailure::Bad("crypt filter /"@ + utf8_lossy(name) + " is not a dictionary"@)),
        }
    }
}

/// The cipher `/StmF` or `/StrF` selects, with the `/Length` of its crypt
/// filter; `/Identity` and a missing entry mean no encryption.
pub open spec fn selected<R: Resolve>(d: Seq<(Seq<u8>, ObjectView)>, key: &str, filters: Seq<(Seq<u8>, Cipher)>, lengths: Seq<(Seq<u8>, i64)>, res: &R) -> Result<(Cipher, Option<i64>), EncryptFailure> {
    match entry_of(d, key, res) {
        Err(f) => Err(f),
        Ok(None) => Ok((Cipher::Identity, None)),
        Ok(Some(ObjectView::Name(n))) => if n == "Identity".spec_bytes() {
            Ok((Cipher::Identity, None))
        } else {
            match named_value(filters, n) {
                Some(c) => Ok((c, named_value(lengths, n))),
                None => Err(
                    EncryptFailure::Bad(
                        "/"@ + key@ + " names the crypt filter /"@ + utf8_lossy(n)
                            + ", which /CF does not define"@,
                    ),
                ),
            }
        },
        Ok(Some(_)) => Err(EncryptFailure::Bad("/"@ + key@ + " is not a name"@)),
    }
}

/// A crypt filter's `/Length` is in bits, but a value below 40 can only be
/// bytes: Acrobat writes `/Length 16`.
pub open spec fn length_in_bits(n: i64) -> i64 {
    if n < 40 {
        if n * 8 < i64::MIN {
            i64::MIN
        } else {
            (n * 8) as i64
        }
    } else {
        n
    }
}

/// `/Length` as a key size: a multiple of 8 from 40 to 128, or the error.
pub open spec fn key_bits_of(length: i64) -> Result<u32, EncryptFailure> {
    if length % 8 == 0 && 40 <= length <= 128 {
        Ok(length as u32)
    } else {
        Err(
            EncryptFailure::Bad(
                "/Length "@ + signed_decimal(length as int) + " is not a multiple of 8 between 40 and 128"@,
            ),
        )
    }
}

/// The ciphers, the key size and the named crypt filters of a revision 4
/// or later dictionary, or of one with `/V` 4 or more (7.6.6).
pub open spec fn crypt_filter_setup<R: Resolve>(d: Seq<(Seq<u8>, ObjectView)>, revision: Revision, r: i64, length: Option<i64>, res: &R) -> Result<(Cipher, Cipher, u32, Seq<(Seq<u8>, Cipher)>), EncryptFailure> {
    let cf: Result<(Seq<(Seq<u8>, Cipher)>, Seq<(Seq<u8>, i64)>), EncryptFailure> = match entry_of(d, "CF", res) {
        Err(f) => Err(f),
        Ok(None) => Ok((Seq::empty(), Seq::empty())),
        Ok(Some(ObjectView::Dict(entries))) => crypt_filters(entries, 0, Seq::empty(), Seq::empty(), res),
        Ok(Some(_)) => Err(EncryptFailure::Bad("/CF is not a dictionary"@)),
    };
    match cf {
        Err(f) => Err(f),
        Ok((filters, lengths)) => match selected(d, "StmF", filters, lengths, res) {
            Err(f) => Err(f),
            Ok((streams, stream_length)) => match selected(d, "StrF", filters, lengths, res) {
                Err(f) => Err(f),
                Ok((strings, string_length)) => {
                    let bits: Result<u32, EncryptFailure> = if revision.is_aes256() {
                        match length {
                            None => Ok(256u32),
                            Some(n) => if n == 256 {
                                Ok(256u32)
                            } else {
                                Err(
                                    EncryptFailure::Bad(
                                        "/Length "@ + signed_decimal(n as int) + " with revision "@
                                            + signed_decimal(r as int),
                                    ),
                                )
                            },
                        }
                    } else if streams == Cipher::Aes128 || strings == Cipher::Aes128 {
                        Ok(128u32)
                    } else {
                        let declared = match stream_length {
                            Some(n) => Some(length_in_bits(n)),
                            None => match string_length {
                                Some(n) => Some(length_in_bits(n)),
                                None => length,
                            },
                        };
                        key_bits_of(
                            match declared {
                                Some(n) => n,
                                None => 40,
                            },
                        )
                    };
                    match bits {
                        Err(f) => Err(f),
                        Ok(b) => Ok((streams, strings, b, filters)),
                    }
                },
            },
        },
    }
}

/// The `/Encrypt` dictionary read into the handler's parameters and the
/// named crypt filters of `/CF` (tables 20 and 21).
pub open spec fn encrypt_params<R: Resolve>(d: Seq<(Seq<u8>, ObjectView)>, res: &R, file_id: Seq<u8>) -> Result<(ParamsModel, Seq<(Seq<u8>, Cipher)>), EncryptFailure> {
    let handler: Result<(), EncryptFailure> = match entry_of(d, "Filter", res) {
        Err(f) => Err(f),
        Ok(None) => Ok(()),
        Ok(Some(ObjectView::Name(n))) => if n == "Standard".spec_bytes() {
            Ok(())
        } else {
            Err(EncryptFailure::Unsupported("security handlers other than /Standard (ISO 32000-2, 7.6.5)"@))
        },
        Ok(Some(_)) => Err(EncryptFailure::Bad("/Filter is not a name"@)),
    };
    match handler {
        Err(f) => Err(f),
        Ok(()) => match int_of(d, "R", res) {
            Err(f) => Err(f),
            Ok(None) => Err(EncryptFailure::Bad("no /R"@)),
            Ok(Some(r)) => if !(2 <= r <= 6) {
                Err(EncryptFailure::Bad("security handler revision "@ + signed_decimal(r as int) + " is unknown"@))
            } else {
                let revision = if r == 2 {
                    Revision::R2
                } else if r == 3 {
                    Revision::R3
                } else if r == 4 {
                    Revision::R4
                } else if r == 5 {
                    Revision::R5
                } else {
                    Revision::R6
                };
                match int_of(d, "V", res) {
                    Err(f) => Err(f),
                    Ok(vo) => match int_of(d, "Length", res) {
                        Err(f) => Err(f),
                        Ok(length) => match string_of_entry(d, "O", res) {
                            Err(f) => Err(f),
                            Ok(None) => Err(EncryptFailure::Bad("no /O"@)),
                            Ok(Some(owner)) => match string_of_entry(d, "U", res) {
                                Err(f) => Err(f),
                                Ok(None) => Err(EncryptFailure::Bad("no /U"@)),
                                Ok(Some(user)) => match int_of(d, "P", res) {
                                    Err(f) => Err(f),
                                    Ok(None) => Err(EncryptFailure::Bad("no /P"@)),
                                    Ok(Some(p)) => match permission_bits(p) {
                                        None => Err(EncryptFailure::Bad("/P "@ + signed_decimal(p as int) + " does not fit in 32 bits"@)),
                                        Some(permissions) => match entry_of(d, "EncryptMetadata", res) {
                                            Err(f) => Err(f),
                                            Ok(em) => if em matches Some(x) && !(x is Bool) {
                                                Err(EncryptFailure::Bad("/EncryptMetadata is not a boolean"@))
                                            } else {
                                                let encrypt_metadata = match em {
                                                    Some(ObjectView::Bool(b)) => b,
                                                    _ => true,
                                                };
                                                let v = match vo {
                                                    Some(x) => x,
                                                    None => 0,
                                                };
                                                let setup: Result<(Cipher, Cipher, u32, Seq<(Seq<u8>, Cipher)>), EncryptFailure> = if r >= 4 || v >= 4 {
                                                    crypt_filter_setup(d, revision, r, length, res)
                                                } else if r == 2 {
                                                    Ok((Cipher::Rc4, Cipher::Rc4, 40u32, Seq::empty()))
                                                } else {
                                                    match key_bits_of(match length { Some(n) => n, None => 40 }) {
                                                        Err(f) => Err(f),
                                                        Ok(b) => Ok((Cipher::Rc4, Cipher::Rc4, b, Seq::empty())),
                                                    }
                                                };
                                                match setup {
                                                    Err(f) => Err(f),
                                                    Ok((streams, strings, key_bits, filters)) => match string_of_entry(d, "OE", res) {
                                                        Err(f) => Err(f),
                                                        Ok(oe) => match string_of_entry(d, "UE", res) {
                                                            Err(f) => Err(f),
                                                            Ok(ue) => Ok(
                                                                (
                                                                    ParamsModel {
                                                                        revision,
                                                                        key_bits,
                                                                        owner,
                                                                        user,
                                                                        owner_key: match oe { Some(x) => x, None => Seq::empty() },
                                                                        user_key: match ue { Some(x) => x, None => Seq::empty() },
                                                                        permissions,
                                                                        encrypt_metadata,
                                                                        streams,
                                                                        strings,
                                                                        file_id,
                                                                    },
                                                                    filters,
                                                                ),
                                                            ),
                                                        },
                                                    },
                                                }
                                            },
                                        },
                                    },
                                },
                            },
                        },
                    },
                }
            },
        },
    }
}


/// Every byte from `i` on of an accepted real body is a digit or a `.`.
proof fn lemma_real_body_bytes(body: Seq<u8>, i: int, seen_dot: bool, seen_digit: bool)
    requires
        0 <= i,
        crate::lexer::real_body_ok(body, i, seen_dot, seen_digit),
    ensures
        forall|j: int| i <= j < body.len() ==> (48u8 <= body[j] <= 57u8 || body[j] == 46u8),
    decreases body.len() - i,
{
    if i < body.len() {
        if 48u8 <= body[i] <= 57u8 {
            lemma_real_body_bytes(body, i + 1, seen_dot, true);
        } else {
            lemma_real_body_bytes(body, i + 1, true, seen_digit);
        }
    }
}

proof fn lemma_dot_position(t: Seq<u8>)
    ensures
        0 <= dot_position(t) <= t.len(),
        dot_position(t) < t.len() ==> t[dot_position(t)] == 46u8,
        forall|j: int| 0 <= j < dot_position(t) ==> t[j] != 46u8,
    decreases t.len(),
{
    if t.len() > 0 && t[0] != 46u8 {
        lemma_dot_position(t.drop_first());
        assert forall|j: int| 0 <= j < dot_position(t) implies t[j] != 46u8 by {
            if j > 0 {
                assert(t[j] == t.drop_first()[j - 1]);
            }
        }
    }
}

proof fn lemma_dot_position_found(t: Seq<u8>, i: int)
    requires
        0 <= i <= t.len(),
        forall|j: int| 0 <= j < i ==> t[j] != 46u8,
        i < t.len() ==> t[i] == 46u8,
    ensures
        dot_position(t) == i,
    decreases i,
{
    if i > 0 {
        lemma_dot_position_found(t.drop_first(), i - 1);
    }
}

/// A real whose value is a whole number, as an integer (see
/// [`real_integer`]).
fn real_as_integer(t: &[u8]) -> (r: Option<i64>)
    ensures
        r == real_integer(t@),
{
    if !real_ok(t) {
        return None;
    }
    let n = t.len();
    let neg = n > 0 && t[0] == 45;
    let start: usize = if neg {
        1
    } else {
        0
    };
    let ghost body = t@.skip(start as int);
    proof {
        assert(body =~= (if neg { t@.skip(1) } else { t@ }));
        lemma_real_body_bytes(body, 0, false, false);
        lemma_dot_position(body);
    }
    let mut d = start;
    while d < n && t[d] != 46
        invariant
            start <= d <= n == t@.len(),
            body == t@.skip(start as int),
            forall|j: int| 0 <= j < d - start ==> body[j] != 46u8,
        decreases n - d,
    {
        assert(body[d - start] == t@[d as int]);
        d = d + 1;
    }
    proof {
        if d < n {
            assert(body[d - start] == t@[d as int]);
        }
        lemma_dot_position_found(body, d - start);
    }
    let ghost frac = if d - start < body.len() {
        body.skip(d - start + 1)
    } else {
        Seq::<u8>::empty()
    };
    if d < n {
        let mut k = d + 1;
        while k < n
            invariant
                start <= d < k <= n == t@.len(),
                start == (if t@.len() > 0 && t@[0] == 45u8 { 1int } else { 0int }),
                real_accepted(t@),
                dot_position(body) == d - start,
                body == t@.skip(start as int),
                frac == body.skip(d - start + 1),
                forall|j: int| 0 <= j < k - d - 1 ==> frac[j] == 48u8,
            decreases n - k,
        {
            assert(body[k - start] == t@[k as int]);
            assert(frac[k - d - 1] == body[k - start]);
            if t[k] != 48 {
                proof {
                    assert(unsigned_part(t@) == body);
                    assert(fraction_part(body) == frac);
                    assert(frac[k - d - 1] != 48u8);
                    assert(!all_zeros(fraction_part(unsigned_part(t@))));
                }
                return None;
            }
            k = k + 1;
        }
    }
    let ghost int_part = body.take(d - start);
    assert forall|j: int| 0 <= j < int_part.len() implies 48u8 <= #[trigger] int_part[j] <= 57u8 by {
        assert(int_part[j] == body[j]);
    }
    let mut v: u64 = 0;
    let mut k = start;
    while k < d
        invariant
            start <= k <= d <= n == t@.len(),
            start == (if t@.len() > 0 && t@[0] == 45u8 { 1int } else { 0int }),
            real_accepted(t@),
            dot_position(body) == d - start,
            body == t@.skip(start as int),
            int_part == body.take(d - start),
            forall|j: int| 0 <= j < int_part.len() ==> 48u8 <= #[trigger] int_part[j] <= 57u8,
            v == digit_value(int_part.take(k - start)),
            v < 9000000000000000,
        decreases d - k,
    {
        assert(int_part[k - start] == body[k - start]);
        assert(body[k - start] == t@[k as int]);
        assert(int_part.take(k - start + 1).drop_last() =~= int_part.take(k - start));
        assert(int_part.take(k - start + 1).last() == t@[k as int]);
        v = v * 10 + (t[k] - 48) as u64;
        assert(v == digit_value(int_part.take(k - start + 1)));
        if v >= 9000000000000000 {
            proof {
                assert forall|m: int| 0 <= m < int_part.len() implies crate::lexer::is_ascii_digit(#[trigger] int_part[m]) by {}
                lemma_digit_value_grows(int_part, k - start + 1);
                assert(unsigned_part(t@) == body);
                assert(body.take(dot_position(body)) == int_part);
                assert(digit_value(int_part) >= 9000000000000000);
            }
            return None;
        }
        k = k + 1;
    }
    assert(int_part.take(d - start) =~= int_part);
    if neg {
        Some(-(v as i64))
    } else {
        Some(v as i64)
    }
}

/// `"/" + key + suffix`.
fn keyed_message(key: &str, suffix: &str) -> (m: String)
    ensures
        m@ == "/"@ + key@ + suffix@,
{
    let mut m = string_of("/");
    push_str(&mut m, key);
    push_str(&mut m, suffix);
    m
}

fn bad_text(message: &str) -> (e: Error)
    ensures
        e matches Error::BadEncryption { message: m } && m@ == message@,
{
    Error::BadEncryption { message: string_of(message) }
}

/// An entry of the dictionary, followed (see [`entry_of`]).
fn entry<R: Resolve>(dict: &Dict, key: &str, res: &R) -> (r: Result<Option<Object>, Error>)
    ensures
        match entry_of(dict@, key, res) {
            Ok(Some(v)) => r matches Ok(Some(o)) && o@ == v,
            Ok(None) => r matches Ok(None),
            Err(f) => r matches Err(e) && encrypt_failure_is(e, f),
        },
{
    match dict.get(&Name::new(key)) {
        None => Ok(None),
        Some(Object::Null) => Ok(None),
        Some(obj) => match res.resolve(obj) {
            Ok(x) => Ok(Some(x)),
            Err(e) => Err(e),
        },
    }
}

/// An integer entry (see [`int_of`]).
fn int_entry<R: Resolve>(dict: &Dict, key: &str, res: &R) -> (r: Result<Option<i64>, Error>)
    ensures
        match int_of(dict@, key, res) {
            Ok(v) => r == Ok::<Option<i64>, Error>(v),
            Err(f) => r matches Err(e) && encrypt_failure_is(e, f),
        },
{
    match entry(dict, key, res) {
        Err(e) => Err(e),
        Ok(None) => Ok(None),
        Ok(Some(Object::Integer(i))) => Ok(Some(i)),
        Ok(Some(Object::Real(t))) => match real_as_integer(t.as_slice()) {
            Some(i) => Ok(Some(i)),
            None => Err(bad(keyed_message(key, " is not an integer"))),
        },
        Ok(Some(_)) => Err(bad(keyed_message(key, " is not an integer"))),
    }
}

/// A string entry (see [`string_of_entry`]).
fn string_entry<R: Resolve>(dict: &Dict, key: &str, res: &R) -> (r: Result<Option<Vec<u8>>, Error>)
    ensures
        match string_of_entry(dict@, key, res) {
            Ok(Some(v)) => r matches Ok(Some(x)) && x@ == v,
            Ok(None) => r matches Ok(None),
            Err(f) => r matches Err(e) && encrypt_failure_is(e, f),
        },
{
    match entry(dict, key, res) {
        Err(e) => Err(e),
        Ok(None) => Ok(None),
        Ok(Some(Object::String(v))) => Ok(Some(v)),
        Ok(Some(_)) => Err(bad(keyed_message(key, " is not a string"))),
    }
}


/// A list of named values as sequences.
pub open spec fn named_view<T>(l: Seq<(Name, T)>) -> Seq<(Seq<u8>, T)> {
    l.map_values(|e: (Name, T)| (e.0.0@, e.1))
}

fn named_name_copy(n: &Name) -> (c: Name)
    ensures
        c.0@ == n.0@,
{
    Name(to_vec(n.0.as_slice()))
}

/// The value under `key` in a list of named values: the last one.
fn lookup_named<T: Copy>(l: &Vec<(Name, T)>, key: &Name) -> (r: Option<T>)
    ensures
        r == named_value(named_view(l@), key.0@),
{
    let mut k = l.len();
    let ghost v = named_view(l@);
    assert(v.take(k as int) =~= v);
    while k > 0
        invariant
            k <= l@.len(),
            v == named_view(l@),
            named_value(v, key.0@) == named_value(v.take(k as int), key.0@),
        decreases k,
    {
        assert(v.take(k as int).drop_last() =~= v.take(k - 1));
        if bytes_eq(l[k - 1].0.0.as_slice(), key.0.as_slice()) {
            return Some(l[k - 1].1);
        }
        k = k - 1;
    }
    None
}

/// No name comes twice in `l`.
pub open spec fn names_distinct<T>(l: Seq<(Seq<u8>, T)>) -> bool {
    forall|i: int, j: int| 0 <= i < j < l.len() ==> (#[trigger] l[i]).0 != (#[trigger] l[j]).0
}

/// The crypt filters of `/CF` (see [`crypt_filters`]).
fn crypt_filter_list<R: Resolve>(cf: &Dict, res: &R) -> (r: Result<(Vec<(Name, Cipher)>, Vec<(Name, i64)>), Error>)
    ensures
        match crypt_filters(cf@, 0, Seq::empty(), Seq::empty(), res) {
            Ok((f, l)) => r matches Ok((x, y)) && named_view(x@) == f && named_view(y@) == l,
            Err(e) => r matches Err(err) && encrypt_failure_is(err, e),
        },
        r matches Ok((x, _)) ==> names_distinct(named_view(x@)),
{
    let entries = cf.entries();
    proof {
        crate::object::lemma_entries_view(entries@);
        use_type_invariant(cf);
        Dict::lemma_keys_in_order(*cf);
    }
    let ghost cv = cf@;
    let mut filters: Vec<(Name, Cipher)> = Vec::new();
    let mut lengths: Vec<(Name, i64)> = Vec::new();
    let mut k: usize = 0;
    assert(named_view(filters@) =~= Seq::<(Seq<u8>, Cipher)>::empty());
    assert(named_view(lengths@) =~= Seq::<(Seq<u8>, i64)>::empty());
    while k < entries.len()
        invariant
            k <= entries@.len(),
            cv == cf@,
            cv == crate::object::entries_view(entries@),
            cv.len() == entries@.len(),
            forall|j: int| 0 <= j < entries@.len() ==> #[trigger] cv[j] == (entries@[j].0.0@, entries@[j].1@),
            crypt_filters(cv, 0, Seq::empty(), Seq::empty(), res) == crypt_filters(
                cv,
                k as int,
                named_view(filters@),
                named_view(lengths@),
                res,
            ),
            crate::object::keys_sorted(cv),
            filters@.len() == k,
            forall|j: int| 0 <= j < k ==> (#[trigger] named_view(filters@)[j]).0 == cv[j].0,
        decreases entries@.len() - k,
    {
        let name = &entries[k].0;
        assert(cv[k as int] == (entries@[k as int].0.0@, entries@[k as int].1@));
        let entry = match res.resolve(&entries[k].1) {
            Ok(Object::Dict(d)) => d,
            Ok(_) => {
                let mut m = string_of("crypt filter /");
                push_str(&mut m, name.as_str_lossy().as_str());
                push_str(&mut m, " is not a dictionary");
                return Err(bad(m));
            },
            Err(e) => return Err(e),
        };
        let cfm = match entry.get(&Name::new("CFM")) {
            None => Cipher::Identity,
            Some(v) => match res.resolve(v) {
                Err(e) => return Err(e),
                Ok(Object::Name(m)) => {
                    if bytes_eq(m.0.as_slice(), "None".as_bytes()) {
                        Cipher::Identity
                    } else if bytes_eq(m.0.as_slice(), "V2".as_bytes()) {
                        Cipher::Rc4
                    } else if bytes_eq(m.0.as_slice(), "AESV2".as_bytes()) {
                        Cipher::Aes128
                    } else if bytes_eq(m.0.as_slice(), "AESV3".as_bytes()) {
                        Cipher::Aes256
                    } else {
                        let mut msg = string_of("crypt filter /");
                        push_str(&mut msg, name.as_str_lossy().as_str());
                        push_str(&mut msg, " uses the unknown method /");
                        push_str(&mut msg, m.as_str_lossy().as_str());
                        return Err(bad(msg));
                    }
                },
                Ok(_) => return Err(bad_text("/CFM is not a name")),
            },
        };
        let length = match entry.get(&Name::new("Length")) {
            None => None,
            Some(v) => match res.resolve(v) {
                Err(e) => return Err(e),
                Ok(Object::Integer(bits)) => Some(bits),
                Ok(_) => None,
            },
        };
        let ghost f0 = filters@;
        let ghost l0 = lengths@;
        filters.push((named_name_copy(name), cfm));
        assert(named_view(filters@) =~= named_view(f0).push((name.0@, cfm)));
        if let Some(bits) = length {
            lengths.push((named_name_copy(name), bits));
            assert(named_view(lengths@) =~= named_view(l0).push((name.0@, bits)));
        }
        k = k + 1;
    }
    proof {
        assert forall|i: int, j: int| 0 <= i < j < named_view(filters@).len() implies (#[trigger] named_view(filters@)[i]).0
            != (#[trigger] named_view(filters@)[j]).0 by {
            crate::object::lemma_bytes_lt_irreflexive(cv[i].0);
            assert(crate::object::bytes_lt(cv[i].0, cv[j].0));
        }
    }
    Ok((filters, lengths))
}

/// The cipher `/StmF` or `/StrF` selects (see [`selected`]).
fn select<R: Resolve>(dict: &Dict, key: &str, filters: &Vec<(Name, Cipher)>, lengths: &Vec<(Name, i64)>, res: &R) -> (r: Result<(Cipher, Option<i64>), Error>)
    ensures
        match selected(dict@, key, named_view(filters@), named_view(lengths@), res) {
            Ok(x) => r == Ok::<(Cipher, Option<i64>), Error>(x),
            Err(f) => r matches Err(e) && encrypt_failure_is(e, f),
        },
{
    match entry(dict, key, res) {
        Err(e) => Err(e),
        Ok(None) => Ok((Cipher::Identity, None)),
        Ok(Some(Object::Name(n))) => {
            if bytes_eq(n.0.as_slice(), "Identity".as_bytes()) {
                return Ok((Cipher::Identity, None));
            }
            match lookup_named(filters, &n) {
                Some(c) => Ok((c, lookup_named(lengths, &n))),
                None => {
                    let mut m = keyed_message(key, " names the crypt filter /");
                    push_str(&mut m, n.as_str_lossy().as_str());
                    push_str(&mut m, ", which /CF does not define");
                    Err(bad(m))
                },
            }
        },
        Ok(Some(_)) => Err(bad(keyed_message(key, " is not a name"))),
    }
}

/// `/Length` as a key size in bits (see [`key_bits_of`]).
fn key_bits_from(length: i64) -> (r: Result<u32, Error>)
    ensures
        match key_bits_of(length) {
            Ok(b) => r == Ok::<u32, Error>(b),
            Err(f) => r matches Err(e) && encrypt_failure_is(e, f),
        },
{
    bits_from(length)
}

fn in_bits(n: i64) -> (r: i64)
    ensures
        r == length_in_bits(n),
{
    if n < 40 {
        if n < -1152921504606846976 {
            i64::MIN
        } else {
            n * 8
        }
    } else {
        n
    }
}


/// The ciphers, key size and named crypt filters of a dictionary that uses
/// crypt filters (see [`crypt_filter_setup`]).
fn crypt_setup<R: Resolve>(dict: &Dict, revision: Revision, r: i64, length: Option<i64>, res: &R) -> (out: Result<(Cipher, Cipher, u32, Vec<(Name, Cipher)>), Error>)
    ensures
        match crypt_filter_setup(dict@, revision, r, length, res) {
            Ok((a, b, c, f)) => out matches Ok((x, y, z, w)) && x == a && y == b && z == c && named_view(w@) == f,
            Err(f) => out matches Err(e) && encrypt_failure_is(e, f),
        },
        out matches Ok((_, _, _, w)) ==> names_distinct(named_view(w@)),
{
    let (filters, lengths) = match entry(dict, "CF", res) {
        Err(e) => return Err(e),
        Ok(None) => {
            let f: Vec<(Name, Cipher)> = Vec::new();
            let l: Vec<(Name, i64)> = Vec::new();
            assert(named_view(f@) =~= Seq::<(Seq<u8>, Cipher)>::empty());
            assert(named_view(l@) =~= Seq::<(Seq<u8>, i64)>::empty());
            (f, l)
        },
        Ok(Some(Object::Dict(cf))) => match crypt_filter_list(&cf, res) {
            Ok(x) => x,
            Err(e) => return Err(e),
        },
        Ok(Some(_)) => return Err(bad_text("/CF is not a dictionary")),
    };
    let (streams, stream_length) = match select(dict, "StmF", &filters, &lengths, res) {
        Ok(x) => x,
        Err(e) => return Err(e),
    };
    let (strings, string_length) = match select(dict, "StrF", &filters, &lengths, res) {
        Ok(x) => x,
        Err(e) => return Err(e),
    };
    let key_bits: u32 = if revision.uses_aes256() {
        match length {
            None => 256,
            Some(n) => {
                if n == 256 {
                    256
                } else {
                    let mut m = string_of("/Length ");
                    push_signed(&mut m, n);
                    push_str(&mut m, " with revision ");
                    push_signed(&mut m, r);
                    return Err(bad(m));
                }
            },
        }
    } else if streams == Cipher::Aes128 || strings == Cipher::Aes128 {
        128
    } else {
        let declared = match stream_length {
            Some(n) => Some(in_bits(n)),
            None => match string_length {
                Some(n) => Some(in_bits(n)),
                None => length,
            },
        };
        match key_bits_from(
            match declared {
                Some(n) => n,
                None => 40,
            },
        ) {
            Ok(b) => b,
            Err(e) => return Err(e),
        }
    };
    Ok((streams, strings, key_bits, filters))
}

/// Parse the `/Encrypt` dictionary (tables 20 and 21) into the handler's
/// parameters and the named crypt filters of `/CF` (see
/// [`encrypt_params`]), each name once. `res` follows references.
pub fn parse<R: Resolve>(dict: &Dict, res: &R, file_id: Vec<u8>) -> (r: Result<(Params, Vec<(Name, Cipher)>), Error>)
    ensures
        match encrypt_params(dict@, res, file_id@) {
            Ok((p, f)) => r matches Ok((x, y)) && x@ == p && named_view(y@) == f,
            Err(f) => r matches Err(e) && encrypt_failure_is(e, f),
        },
        r matches Ok((_, y)) ==> names_distinct(named_view(y@)),
{
    match entry(dict, "Filter", res) {
        Err(e) => return Err(e),
        Ok(None) => {},
        Ok(Some(Object::Name(n))) => {
            if !bytes_eq(n.0.as_slice(), "Standard".as_bytes()) {
                return Err(Error::Unsupported {
                    feature: "security handlers other than /Standard (ISO 32000-2, 7.6.5)",
                });
            }
        },
        Ok(Some(_)) => return Err(bad_text("/Filter is not a name")),
    }
    let r = match int_entry(dict, "R", res) {
        Err(e) => return Err(e),
        Ok(None) => return Err(bad_text("no /R")),
        Ok(Some(r)) => r,
    };
    let revision = match Revision::from_number(r) {
        Some(rev) => rev,
        None => {
            let mut m = string_of("security handler revision ");
            push_signed(&mut m, r);
            push_str(&mut m, " is unknown");
            return Err(bad(m));
        },
    };
    let v = match int_entry(dict, "V", res) {
        Err(e) => return Err(e),
        Ok(x) => x,
    };
    let length = match int_entry(dict, "Length", res) {
        Err(e) => return Err(e),
        Ok(x) => x,
    };
    let owner = match string_entry(dict, "O", res) {
        Err(e) => return Err(e),
        Ok(None) => return Err(bad_text("no /O")),
        Ok(Some(x)) => x,
    };
    let user = match string_entry(dict, "U", res) {
        Err(e) => return Err(e),
        Ok(None) => return Err(bad_text("no /U")),
        Ok(Some(x)) => x,
    };
    let p = match int_entry(dict, "P", res) {
        Err(e) => return Err(e),
        Ok(None) => return Err(bad_text("no /P")),
        Ok(Some(x)) => x,
    };
    let permissions: u32 = if 0 <= p && p <= 0xFFFF_FFFF {
        p as u32
    } else if -2147483648 <= p && p < 0 {
        (p + 4294967296) as u32
    } else {
        let mut m = string_of("/P ");
        push_signed(&mut m, p);
        push_str(&mut m, " does not fit in 32 bits");
        return Err(bad(m));
    };
    let encrypt_metadata = match entry(dict, "EncryptMetadata", res) {
        Err(e) => return Err(e),
        Ok(None) => true,
        Ok(Some(Object::Bool(b))) => b,
        Ok(Some(_)) => return Err(bad_text("/EncryptMetadata is not a boolean")),
    };
    let v = match v {
        Some(x) => x,
        None => 0,
    };
    let (streams, strings, key_bits, filters) = if r >= 4 || v >= 4 {
        match crypt_setup(dict, revision, r, length, res) {
            Ok(x) => x,
            Err(e) => return Err(e),
        }
    } else if r == 2 {
        let f: Vec<(Name, Cipher)> = Vec::new();
        assert(named_view(f@) =~= Seq::<(Seq<u8>, Cipher)>::empty());
        (Cipher::Rc4, Cipher::Rc4, 40, f)
    } else {
        let b = match key_bits_from(
            match length {
                Some(n) => n,
                None => 40,
            },
        ) {
            Ok(b) => b,
            Err(e) => return Err(e),
        };
        let f: Vec<(Name, Cipher)> = Vec::new();
        assert(named_view(f@) =~= Seq::<(Seq<u8>, Cipher)>::empty());
        (Cipher::Rc4, Cipher::Rc4, b, f)
    };
    let owner_key = match string_entry(dict, "OE", res) {
        Err(e) => return Err(e),
        Ok(None) => Vec::new(),
        Ok(Some(x)) => x,
    };
    let user_key = match string_entry(dict, "UE", res) {
        Err(e) => return Err(e),
        Ok(None) => Vec::new(),
        Ok(Some(x)) => x,
    };
    let params = Params {
        revision,
        key_bits,
        owner,
        user,
        owner_key,
        user_key,
        permissions,
        encrypt_metadata,
        streams,
        strings,
        file_id,
    };
    Ok((params, filters))
}

/// The name a crypt filter stage's parameters give (`/Name`, 7.4.10):
/// `/Identity` when they give none.
pub open spec fn parms_name(p: Option<ObjectView>) -> Seq<u8> {
    match p {
        Some(ObjectView::Dict(d)) => match dict_get(d, "Name".spec_bytes()) {
            Some(ObjectView::Name(n)) => n,
            _ => "Identity".spec_bytes(),
        },
        _ => "Identity".spec_bytes(),
    }
}

/// The filter name `/Crypt`.
pub open spec fn is_crypt_name(o: ObjectView) -> bool {
    o matches ObjectView::Name(n) && n == "Crypt".spec_bytes()
}

/// Where the first `/Crypt` stands in a filter array; its length when
/// there is none.
pub open spec fn crypt_position(filters: Seq<ObjectView>) -> int
    decreases filters.len(),
{
    if filters.len() == 0 {
        0
    } else if is_crypt_name(filters[0]) {
        0
    } else {
        1 + crypt_position(filters.drop_first())
    }
}

/// Some parameter of the list is not `null`.
pub open spec fn has_parms(items: Seq<ObjectView>) -> bool {
    exists|i: int| 0 <= i < items.len() && !(#[trigger] items[i] is Null)
}

/// The crypt filter's name, and the parameters left to the other stages,
/// when the crypt stage stands at `index` of `count` filters.
pub open spec fn stage_parms(parms: Option<ObjectView>, index: int, count: int) -> (Seq<u8>, Option<Seq<ObjectView>>) {
    match parms {
        Some(ObjectView::Array(items)) => (
            parms_name(if index < items.len() { Some(items[index]) } else { None }),
            Some(if index < items.len() { items.remove(index) } else { items }),
        ),
        Some(ObjectView::Dict(d)) => if count == 1 {
            (parms_name(parms), None)
        } else {
            ("Identity".spec_bytes(), Some(seq![ObjectView::Dict(d)]))
        },
        Some(p) => ("Identity".spec_bytes(), Some(seq![p])),
        None => ("Identity".spec_bytes(), None),
    }
}

/// `d` with `/DecodeParms` set to what is left of the parameters: one
/// dictionary alone, several as an array, none when all are `null`.
pub open spec fn parms_after(d: Seq<(Seq<u8>, ObjectView)>, remaining: Option<Seq<ObjectView>>) -> Seq<(Seq<u8>, ObjectView)> {
    let key = "DecodeParms".spec_bytes();
    match remaining {
        Some(items) => if has_parms(items) {
            if items.len() == 1 {
                dict_insert(d, key, items[0])
            } else {
                dict_insert(d, key, ObjectView::Array(items))
            }
        } else {
            dict_remove(d, key)
        },
        None => dict_remove(d, key),
    }
}

/// The crypt filter a stream dictionary selects with `/Filter /Crypt` and
/// `/DecodeParms /Name` (7.4.10), and the dictionary with that stage
/// removed. `None` when no stage is `/Crypt`, or when `/Filter` is neither
/// a name nor an array (an indirect one cannot be looked into here).
pub open spec fn crypt_filter_of(d: Seq<(Seq<u8>, ObjectView)>) -> Option<(Seq<u8>, Seq<(Seq<u8>, ObjectView)>)> {
    let fk = "Filter".spec_bytes();
    let pk = "DecodeParms".spec_bytes();
    let parms = dict_get(d, pk);
    let bare = dict_remove(dict_remove(d, fk), pk);
    match dict_get(d, fk) {
        Some(ObjectView::Name(n)) => if n == "Crypt".spec_bytes() {
            Some((parms_name(parms), bare))
        } else {
            None
        },
        Some(ObjectView::Array(filters)) => {
            let index = crypt_position(filters);
            if index >= filters.len() {
                None
            } else {
                let (name, remaining) = stage_parms(parms, index, filters.len() as int);
                let rest = filters.remove(index);
                if rest.len() == 0 {
                    Some((name, bare))
                } else {
                    Some((name, parms_after(dict_insert(d, fk, ObjectView::Array(rest)), remaining)))
                }
            }
        },
        _ => None,
    }
}

proof fn lemma_crypt_position(f: Seq<ObjectView>, i: int)
    requires
        0 <= i <= f.len(),
        forall|j: int| 0 <= j < i ==> !is_crypt_name(#[trigger] f[j]),
        i < f.len() ==> is_crypt_name(f[i]),
    ensures
        crypt_position(f) == i,
    decreases i,
{
    if i > 0 {
        assert(!is_crypt_name(f[0]));
        assert forall|j: int| 0 <= j < i - 1 implies !is_crypt_name(#[trigger] f.drop_first()[j]) by {
            assert(f.drop_first()[j] == f[j + 1]);
        }
        lemma_crypt_position(f.drop_first(), i - 1);
    }
}

/// The name of [`parms_name`].
fn parms_name_of(p: Option<&Object>) -> (n: Name)
    ensures
        n.0@ == parms_name(
            match p {
                Some(o) => Some(o@),
                None => None,
            },
        ),
{
    match p {
        Some(Object::Dict(d)) => match d.get(&Name::new("Name")) {
            Some(Object::Name(n)) => named_name_copy(n),
            _ => Name::new("Identity"),
        },
        _ => Name::new("Identity"),
    }
}

/// The index of [`crypt_position`].
fn crypt_index(filters: &Vec<Object>) -> (i: usize)
    ensures
        i == crypt_position(items_view(filters@)),
{
    let crypt = Name::new("Crypt");
    let ghost f = items_view(filters@);
    proof { lemma_items_view(filters@); }
    let mut i: usize = 0;
    while i < filters.len()
        invariant
            i <= filters@.len(),
            f == items_view(filters@),
            f.len() == filters@.len(),
            crypt.0@ == "Crypt".spec_bytes(),
            forall|j: int| 0 <= j < filters@.len() ==> #[trigger] f[j] == filters@[j]@,
            forall|j: int| 0 <= j < i ==> !is_crypt_name(#[trigger] f[j]),
        decreases filters@.len() - i,
    {
        assert(f[i as int] == filters@[i as int]@);
        match &filters[i] {
            Object::Name(n) => {
                if bytes_eq(n.0.as_slice(), crypt.0.as_slice()) {
                    proof { lemma_crypt_position(f, i as int); }
                    return i;
                }
            },
            _ => {},
        }
        i = i + 1;
    }
    proof { lemma_crypt_position(f, i as int); }
    i
}

/// A copy of `items` without the one at `skip` (all of them when `skip`
/// is past the end).
fn copy_without(items: &Vec<Object>, skip: usize) -> (r: Vec<Object>)
    ensures
        items_view(r@) == if skip < items@.len() {
            items_view(items@).remove(skip as int)
        } else {
            items_view(items@)
        },
{
    let ghost target = if skip < items@.len() {
        items_view(items@).remove(skip as int)
    } else {
        items_view(items@)
    };
    proof { lemma_items_view(items@); }
    let mut out: Vec<Object> = Vec::new();
    let mut k: usize = 0;
    while k < items.len()
        invariant
            k <= items@.len(),
            items_view(items@).len() == items@.len(),
            forall|j: int| 0 <= j < items@.len() ==> #[trigger] items_view(items@)[j] == items@[j]@,
            target == if skip < items@.len() {
                items_view(items@).remove(skip as int)
            } else {
                items_view(items@)
            },
            out@.len() == if k > skip { k - 1 } else { k as int },
            forall|j: int| 0 <= j < out@.len() ==> #[trigger] out@[j]@ == target[j],
        decreases items@.len() - k,
    {
        if k != skip {
            let c = copy_object(&items[k]);
            out.push(c);
        }
        k = k + 1;
    }
    proof {
        lemma_items_view(out@);
        assert(out@.len() == target.len());
        assert forall|j: int| 0 <= j < out@.len() implies items_view(out@)[j] == target[j] by {
            assert(out@[j]@ == target[j]);
        }
        assert(items_view(out@) =~= target);
    }
    out
}

/// Whether some parameter is not `null` (see [`has_parms`]).
fn any_parms(items: &Vec<Object>) -> (b: bool)
    ensures
        b == has_parms(items_view(items@)),
{
    proof { lemma_items_view(items@); }
    let mut k: usize = 0;
    while k < items.len()
        invariant
            k <= items@.len(),
            items_view(items@).len() == items@.len(),
            forall|j: int| 0 <= j < items@.len() ==> #[trigger] items_view(items@)[j] == items@[j]@,
            forall|j: int| 0 <= j < k ==> items_view(items@)[j] is Null,
        decreases items@.len() - k,
    {
        match &items[k] {
            Object::Null => {},
            _ => {
                assert(!(items_view(items@)[k as int] is Null));
                return true;
            },
        }
        k = k + 1;
    }
    false
}

/// The crypt filter a stream selects and its dictionary without that
/// stage (see [`crypt_filter_of`]).
pub fn named_crypt_filter(dict: &Dict) -> (r: Option<(Name, Dict)>)
    ensures
        match crypt_filter_of(dict@) {
            Some((n, s)) => r matches Some((name, stripped)) && name.0@ == n && stripped@ == s,
            None => r is None,
        },
{
    let filter_key = Name::new("Filter");
    let parms_key = Name::new("DecodeParms");
    let filter = match dict.get(&filter_key) {
        Some(f) => f,
        None => return None,
    };
    let parms = dict.get(&parms_key);
    let mut stripped = copy_dict(dict);
    match filter {
        Object::Name(n) => {
            let crypt = Name::new("Crypt");
            if !bytes_eq(n.0.as_slice(), crypt.0.as_slice()) {
                return None;
            }
            let _ = stripped.remove(&filter_key);
            let _ = stripped.remove(&parms_key);
            Some((parms_name_of(parms), stripped))
        },
        Object::Array(filters) => {
            let ghost fv = items_view(filters@);
            assert(dict_get(dict@, "Filter".spec_bytes()) == Some(ObjectView::Array(fv)));
            let index = crypt_index(filters);
            proof { lemma_items_view(filters@); }
            if index >= filters.len() {
                assert(crypt_filter_of(dict@) is None);
                return None;
            }
            let (name, remaining): (Name, Option<Vec<Object>>) = match parms {
                Some(Object::Array(items)) => {
                    proof { lemma_items_view(items@); }
                    let name = parms_name_of(if index < items.len() { Some(&items[index]) } else { None });
                    (name, Some(copy_without(items, index)))
                },
                Some(Object::Dict(d)) => {
                    if filters.len() == 1 {
                        (parms_name_of(parms), None)
                    } else {
                        let mut one: Vec<Object> = Vec::new();
                        one.push(Object::Dict(copy_dict(d)));
                        proof {
                            lemma_items_view(one@);
                            assert(items_view(one@) =~= seq![ObjectView::Dict(d@)]);
                        }
                        (Name::new("Identity"), Some(one))
                    }
                },
                Some(p) => {
                    let mut one: Vec<Object> = Vec::new();
                    one.push(copy_object(p));
                    proof {
                        lemma_items_view(one@);
                        assert(items_view(one@) =~= seq![p@]);
                    }
                    (Name::new("Identity"), Some(one))
                },
                None => (Name::new("Identity"), None),
            };
            let rest = copy_without(filters, index);
            proof { lemma_items_view(rest@); }
            if rest.len() == 0 {
                let _ = stripped.remove(&filter_key);
                let _ = stripped.remove(&parms_key);
            } else {
                stripped.insert(filter_key, Object::Array(rest));
                match remaining {
                    Some(mut items) => {
                        if any_parms(&items) {
                            proof { lemma_items_view(items@); }
                            if items.len() == 1 {
                                let p = items.remove(0);
                                stripped.insert(parms_key, p);
                            } else {
                                stripped.insert(parms_key, Object::Array(items));
                            }
                        } else {
                            let _ = stripped.remove(&parms_key);
                        }
                    },
                    None => {
                        let _ = stripped.remove(&parms_key);
                    },
                }
            }
            Some((name, stripped))
        },
        _ => None,
    }
}

// ---------------------------------------------------------------------------
// Deciphering the objects of an open file (ISO 32000-2, 7.6.3)
// ---------------------------------------------------------------------------

/// `o` with every string deciphered with `strings` under the key of
/// object `r` (algorithm 1), at any depth.
pub open spec fn deciphered_view(key: Seq<u8>, strings: Cipher, r: ObjRef, o: ObjectView) -> ObjectView
    decreases o,
{
    match o {
        ObjectView::String(s) => ObjectView::String(deciphered(key, strings, r.num, r.gen, s)),
        ObjectView::Array(items) => ObjectView::Array(deciphered_items(key, strings, r, items)),
        ObjectView::Dict(d) => ObjectView::Dict(deciphered_entries(key, strings, r, d)),
        _ => o,
    }
}

/// Each item deciphered (see [`deciphered_view`]).
pub open spec fn deciphered_items(key: Seq<u8>, strings: Cipher, r: ObjRef, s: Seq<ObjectView>) -> Seq<ObjectView>
    decreases s,
{
    if s.len() == 0 {
        Seq::empty()
    } else {
        deciphered_items(key, strings, r, s.subrange(0, s.len() - 1)).push(
            deciphered_view(key, strings, r, s[s.len() - 1]),
        )
    }
}

/// Each value deciphered, keys kept (see [`deciphered_view`]).
pub open spec fn deciphered_entries(key: Seq<u8>, strings: Cipher, r: ObjRef, s: Seq<(Seq<u8>, ObjectView)>) -> Seq<(Seq<u8>, ObjectView)>
    decreases s,
{
    if s.len() == 0 {
        Seq::empty()
    } else {
        deciphered_entries(key, strings, r, s.subrange(0, s.len() - 1)).push(
            (s[s.len() - 1].0, deciphered_view(key, strings, r, s[s.len() - 1].1)),
        )
    }
}

pub proof fn lemma_deciphered_items(key: Seq<u8>, strings: Cipher, r: ObjRef, s: Seq<ObjectView>)
    ensures
        deciphered_items(key, strings, r, s).len() == s.len(),
        forall|i: int| 0 <= i < s.len() ==> #[trigger] deciphered_items(key, strings, r, s)[i] == deciphered_view(key, strings, r, s[i]),
    decreases s.len(),
{
    if s.len() > 0 {
        lemma_deciphered_items(key, strings, r, s.subrange(0, s.len() - 1));
    }
}

pub proof fn lemma_deciphered_entries(key: Seq<u8>, strings: Cipher, r: ObjRef, s: Seq<(Seq<u8>, ObjectView)>)
    ensures
        deciphered_entries(key, strings, r, s).len() == s.len(),
        forall|i: int| 0 <= i < s.len() ==> #[trigger] deciphered_entries(key, strings, r, s)[i] == (s[i].0, deciphered_view(key, strings, r, s[i].1)),
    decreases s.len(),
{
    if s.len() > 0 {
        lemma_deciphered_entries(key, strings, r, s.subrange(0, s.len() - 1));
    }
}

/// `/Type` of a dictionary is the name `what`.
pub open spec fn type_is(d: Seq<(Seq<u8>, ObjectView)>, what: Seq<u8>) -> bool {
    dict_get(d, "Type".spec_bytes()) == Some(ObjectView::Name(what))
}

/// The security handler of an open document.
pub struct Crypt {
    /// The opened handler.
    pub decryptor: Decryptor,
    /// Named crypt filters of `/CF` (7.6.6), for streams that select one.
    pub filters: Vec<(Name, Cipher)>,
    /// The `/Encrypt` dictionary's own object, whose strings are stored in
    /// the clear (7.6.3), when it is indirect.
    pub encrypt_ref: Option<ObjRef>,
}

/// The cipher of a crypt filter a stream names: `/Identity` is the
/// identity; a name missing from `/CF` is taken as the document's stream
/// cipher.
pub open spec fn named_cipher_of(filters: Seq<(Seq<u8>, Cipher)>, streams: Cipher, name: Seq<u8>) -> Cipher {
    if name == "Identity".spec_bytes() {
        Cipher::Identity
    } else {
        match named_value(filters, name) {
            Some(c) => c,
            None => streams,
        }
    }
}

/// The first string of the trailer's `/ID`, the file identifier the keys
/// are derived with; empty when there is none.
pub open spec fn file_id_of<R: Resolve>(trailer: Seq<(Seq<u8>, ObjectView)>, res: &R) -> Result<Seq<u8>, EncryptFailure> {
    match dict_get(trailer, "ID".spec_bytes()) {
        None => Ok(Seq::empty()),
        Some(v) => match res.resolved(v) {
            None => Err(EncryptFailure::Unresolved),
            Some(ObjectView::Array(items)) => if items.len() == 0 {
                Ok(Seq::empty())
            } else {
                match res.resolved(items[0]) {
                    None => Err(EncryptFailure::Unresolved),
                    Some(ObjectView::String(id)) => Ok(id),
                    Some(_) => Ok(Seq::empty()),
                }
            },
            Some(_) => Ok(Seq::empty()),
        },
    }
}

/// What the trailer says of encryption: nothing when it has no
/// `/Encrypt` (or a null one), else the handler's parameters, the named
/// crypt filters and the `/Encrypt` dictionary's own reference.
#[verifier::opaque]
pub open spec fn encrypt_setup<R: Resolve>(trailer: Seq<(Seq<u8>, ObjectView)>, res: &R) -> Result<Option<(ParamsModel, Seq<(Seq<u8>, Cipher)>, Option<ObjRef>)>, EncryptFailure> {
    match dict_get(trailer, "Encrypt".spec_bytes()) {
        None => Ok(None),
        Some(entry) => {
            let encrypt_ref = match entry {
                ObjectView::Reference(r) => Some(r),
                _ => None,
            };
            match res.resolved(entry) {
                None => Err(EncryptFailure::Unresolved),
                Some(ObjectView::Null) => Ok(None),
                Some(ObjectView::Dict(d)) => match file_id_of(trailer, res) {
                    Err(f) => Err(f),
                    Ok(id) => match encrypt_params(d, res, id) {
                        Err(f) => Err(f),
                        Ok((p, filters)) => Ok(Some((p, filters, encrypt_ref))),
                    },
                },
                Some(_) => Err(EncryptFailure::Bad("/Encrypt is not a dictionary"@)),
            }
        },
    }
}

impl Crypt {
    /// The file key.
    pub open spec fn key(&self) -> Seq<u8> {
        self.decryptor.key_seq()
    }

    /// The named crypt filters.
    pub open spec fn filter_view(&self) -> Seq<(Seq<u8>, Cipher)> {
        named_view(self.filters@)
    }

    /// The cipher and the dictionary a stream's data is read with: none
    /// for clear metadata, else the crypt filter the stream names (whose
    /// stage leaves the dictionary) or the document's stream cipher.
    pub open spec fn stream_setup(&self, d: Seq<(Seq<u8>, ObjectView)>) -> (Cipher, Seq<(Seq<u8>, ObjectView)>) {
        if type_is(d, "Metadata".spec_bytes()) && !self.decryptor.metadata_of() {
            (Cipher::Identity, d)
        } else {
            match crypt_filter_of(d) {
                Some((name, stripped)) => (named_cipher_of(self.filter_view(), self.decryptor.streams_of(), name), stripped),
                None => (self.decryptor.streams_of(), d),
            }
        }
    }

    /// Object `r` as the caller sees it: the `/Encrypt` dictionary and
    /// cross-reference streams as stored, anything else with its strings
    /// and stream data deciphered.
    pub open spec fn decrypted(&self, r: ObjRef, o: ObjectView) -> ObjectView {
        if self.encrypt_ref == Some(r) {
            o
        } else {
            match o {
                ObjectView::Stream(d, data) => if type_is(d, "XRef".spec_bytes()) {
                    o
                } else {
                    let (cipher, dict) = self.stream_setup(d);
                    ObjectView::Stream(
                        deciphered_entries(self.key(), self.decryptor.strings_of(), r, dict),
                        deciphered(self.key(), cipher, r.num, r.gen, data),
                    )
                },
                _ => deciphered_view(self.key(), self.decryptor.strings_of(), r, o),
            }
        }
    }

    /// Read the trailer's `/Encrypt` entry through `res`, which must give
    /// objects as stored (not yet deciphered), and open it with
    /// `password`. `Ok(None)` when the file is not encrypted.
    pub fn open<R: Resolve>(trailer: &Dict, res: &R, password: &[u8]) -> (r: Result<Option<Crypt>, Error>)
        ensures
            match encrypt_setup(trailer@, res) {
                Err(f) => r matches Err(e) && encrypt_failure_is(e, f),
                Ok(None) => r matches Ok(None),
                Ok(Some((p, filters, encrypt_ref))) => if !params_ok(p) {
                    r matches Err(Error::BadEncryption { message }) && message@ == check_message(p)
                } else {
                    match file_key_of(p, password@) {
                        None => r == Err::<Option<Crypt>, Error>(Error::WrongPassword),
                        Some((key, owner)) => r matches Ok(Some(c)) && {
                            &&& c.key() == key
                            &&& c.decryptor.owner_of() == owner
                            &&& c.decryptor.revision_of() == p.revision
                            &&& c.decryptor.streams_of() == p.streams
                            &&& c.decryptor.strings_of() == p.strings
                            &&& c.decryptor.metadata_of() == p.encrypt_metadata
                            &&& c.filter_view() == filters
                            &&& c.encrypt_ref == encrypt_ref
                        },
                    }
                },
            },
    {
        reveal(encrypt_setup);
        let entry = match trailer.get(&Name::new("Encrypt")) {
            None => return Ok(None),
            Some(e) => e,
        };
        let encrypt_ref = match entry {
            Object::Reference(x) => Some(*x),
            _ => None,
        };
        let dict = match res.resolve(entry) {
            Err(e) => return Err(e),
            Ok(Object::Dict(d)) => d,
            Ok(Object::Null) => return Ok(None),
            Ok(_) => return Err(bad_text("/Encrypt is not a dictionary")),
        };
        let file_id = match Self::file_id(trailer, res) {
            Err(e) => return Err(e),
            Ok(id) => id,
        };
        let (params, filters) = match parse(&dict, res, file_id) {
            Err(e) => return Err(e),
            Ok(x) => x,
        };
        match Decryptor::open(&params, password) {
            Err(e) => Err(handler_error(e)),
            Ok(decryptor) => Ok(Some(Crypt { decryptor, filters, encrypt_ref })),
        }
    }

    /// The file identifier (see [`file_id_of`]).
    fn file_id<R: Resolve>(trailer: &Dict, res: &R) -> (r: Result<Vec<u8>, Error>)
        ensures
            match file_id_of(trailer@, res) {
                Ok(id) => r matches Ok(x) && x@ == id,
                Err(f) => r matches Err(e) && encrypt_failure_is(e, f),
            },
    {
        let v = match trailer.get(&Name::new("ID")) {
            None => return Ok(Vec::new()),
            Some(v) => v,
        };
        match res.resolve(v) {
            Err(e) => Err(e),
            Ok(Object::Array(items)) => {
                if items.len() == 0 {
                    return Ok(Vec::new());
                }
                proof { lemma_items_view(items@); }
                match res.resolve(&items[0]) {
                    Err(e) => Err(e),
                    Ok(Object::String(id)) => Ok(id),
                    Ok(_) => Ok(Vec::new()),
                }
            },
            Ok(_) => Ok(Vec::new()),
        }
    }

    /// How the file was encrypted.
    pub fn info(&self) -> (e: Encryption)
        ensures
            e.revision == self.decryptor.revision_of(),
            e.streams == self.decryptor.streams_of(),
            e.strings == self.decryptor.strings_of(),
            e.encrypt_metadata == self.decryptor.metadata_of(),
            e.owner == self.decryptor.owner_of(),
            e.key_bits as int == if self.key().len() * 8 <= u32::MAX {
                (self.key().len() * 8) as int
            } else {
                u32::MAX as int
            },
    {
        info(&self.decryptor)
    }

    /// Decipher every string and stream of the indirect object `r`
    /// (see [`Crypt::decrypted`]).
    pub fn decrypt_object(&self, r: ObjRef, obj: Object) -> (o: Object)
        ensures
            o@ == self.decrypted(r, obj@),
    {
        match self.encrypt_ref {
            Some(e) => {
                if e.num == r.num && e.gen == r.gen {
                    return obj;
                }
            },
            None => {},
        }
        match obj {
            Object::Stream { dict, data } => self.decrypt_stream(r, &dict, data.as_slice()),
            other => self.decrypt_direct(r, &other),
        }
    }

    /// Strings inside a direct object, at any depth.
    fn decrypt_direct(&self, r: ObjRef, obj: &Object) -> (o: Object)
        ensures
            o@ == deciphered_view(self.key(), self.decryptor.strings_of(), r, obj@),
        decreases obj,
    {
        match obj {
            Object::String(s) => Object::String(self.decryptor.decrypt_string(r.num, r.gen, s.as_slice())),
            Object::Array(items) => {
                let ghost key = self.key();
                let ghost strings = self.decryptor.strings_of();
                let mut out: Vec<Object> = Vec::new();
                let mut k: usize = 0;
                while k < items.len()
                    invariant
                        *obj == Object::Array(*items),
                        key == self.key(),
                        strings == self.decryptor.strings_of(),
                        k <= items@.len(),
                        out@.len() == k,
                        forall|j: int| 0 <= j < k ==> #[trigger] out@[j]@ == deciphered_view(key, strings, r, items@[j]@),
                    decreases items@.len() - k,
                {
                    proof {
                        assert(decreases_to!(items@ => items@[k as int])) by {
                            broadcast use vstd::seq::axiom_seq_index_decreases;
                        }
                        assert(decreases_to!(*items => items@));
                        assert(decreases_to!(*obj => (*obj)->Array_0));
                        assert(decreases_to!(*obj => items@[k as int]));
                    }
                    out.push(self.decrypt_direct(r, &items[k]));
                    k = k + 1;
                }
                proof {
                    lemma_items_view(out@);
                    lemma_items_view(items@);
                    lemma_deciphered_items(key, strings, r, items_view(items@));
                    assert forall|j: int| 0 <= j < out@.len() implies items_view(out@)[j] == deciphered_items(key, strings, r, items_view(items@))[j] by {
                        assert(out@[j]@ == deciphered_view(key, strings, r, items@[j]@));
                        assert(items_view(items@)[j] == items@[j]@);
                    }
                    assert(items_view(out@) =~= deciphered_items(key, strings, r, items_view(items@)));
                }
                Object::Array(out)
            },
            Object::Dict(d) => Object::Dict(self.decrypt_dict(r, d)),
            Object::Null => Object::Null,
            Object::Bool(b) => Object::Bool(*b),
            Object::Integer(i) => Object::Integer(*i),
            Object::Real(t) => Object::Real(to_vec(t.as_slice())),
            Object::Name(n) => Object::Name(named_name_copy(n)),
            Object::Stream { dict, data } => Object::Stream { dict: copy_dict(dict), data: to_vec(data.as_slice()) },
            Object::Reference(x) => Object::Reference(*x),
        }
    }

    /// Each value of a dictionary deciphered.
    fn decrypt_dict(&self, r: ObjRef, d: &Dict) -> (o: Dict)
        ensures
            o@ == deciphered_entries(self.key(), self.decryptor.strings_of(), r, d@),
        decreases d,
    {
        let ghost key = self.key();
        let ghost strings = self.decryptor.strings_of();
        let entries = d.entries();
        proof { lemma_entry_seq(d); }
        let mut values: Vec<Object> = Vec::new();
        let mut k: usize = 0;
        while k < entries.len()
            invariant
                key == self.key(),
                strings == self.decryptor.strings_of(),
                entries@ == d.entry_seq(),
                d@.len() == entries@.len(),
                forall|j: int| 0 <= j < d@.len() ==> #[trigger] d@[j] == (entries@[j].0.0@, entries@[j].1@),
                k <= entries@.len(),
                values@.len() == k,
                forall|j: int| 0 <= j < k ==> #[trigger] values@[j]@ == deciphered_view(key, strings, r, d@[j].1),
            decreases entries@.len() - k,
        {
            proof { lemma_entry_decreases(d, k as int); }
            let value = self.decrypt_direct(r, &entries[k].1);
            values.push(value);
            k = k + 1;
        }
        let out = d.with_values(&values);
        proof {
            lemma_deciphered_entries(key, strings, r, d@);
            assert(out@ =~= deciphered_entries(key, strings, r, d@));
        }
        out
    }

    /// A stream's data and dictionary deciphered (see [`Crypt::decrypted`]).
    fn decrypt_stream(&self, r: ObjRef, dict: &Dict, data: &[u8]) -> (o: Object)
        requires
            self.encrypt_ref != Some(r),
        ensures
            o@ == self.decrypted(r, ObjectView::Stream(dict@, data@)),
    {
        if self.type_is_named(dict, "XRef") {
            return Object::Stream { dict: copy_dict(dict), data: to_vec(data) };
        }
        let metadata_clear = self.type_is_named(dict, "Metadata") && !self.decryptor.encrypt_metadata();
        let (cipher, stripped) = if metadata_clear {
            (Cipher::Identity, copy_dict(dict))
        } else {
            match named_crypt_filter(dict) {
                Some((name, stripped)) => (self.named_cipher(&name), stripped),
                None => (self.decryptor.stream_cipher(), copy_dict(dict)),
            }
        };
        let data = self.decryptor.decrypt_with(cipher, r.num, r.gen, data);
        Object::Stream { dict: self.decrypt_dict(r, &stripped), data }
    }

    /// Whether `/Type` is the name `what`.
    fn type_is_named(&self, dict: &Dict, what: &str) -> (b: bool)
        ensures
            b == type_is(dict@, what.spec_bytes()),
    {
        match dict.get(&Name::new("Type")) {
            Some(Object::Name(n)) => bytes_eq(n.0.as_slice(), Name::new(what).0.as_slice()),
            _ => false,
        }
    }

    /// The cipher of a crypt filter a stream names (see [`named_cipher_of`]).
    fn named_cipher(&self, name: &Name) -> (c: Cipher)
        ensures
            c == named_cipher_of(self.filter_view(), self.decryptor.streams_of(), name.0@),
    {
        if bytes_eq(name.0.as_slice(), Name::new("Identity").0.as_slice()) {
            return Cipher::Identity;
        }
        match lookup_named(&self.filters, name) {
            Some(c) => c,
            None => self.decryptor.stream_cipher(),
        }
    }
}

} // verus!
