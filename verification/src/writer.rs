//! Output settings and the byte-level pieces of serialisation: how strings
//! and names are spelled in a written file (ISO 32000-2, 7.3.4 and 7.3.5),
//! how wide a cross-reference stream field must be, and the generated file
//! identifier.
//!
//! Reading is tolerant; writing is strict: every string is written either
//! as a literal with the escapes of 7.3.4.2 or in hexadecimal, every name
//! with `#xx` for the bytes that cannot stand as they are.

use crate::lexer::{
    hex_string_scan, is_delimiter, literal_scan, name_scan, simple_escape, spec_hex_value,
    spec_is_delimiter, spec_is_regular, spec_is_whitespace,
};
use crate::lexer::{real_accepted, real_ok};
use crate::object::{copy_dict, dict_get, dict_insert, items_view, Dict, Name, ObjRef, Object, ObjectView};
use crate::parser::{word_length, MAX_DEPTH};
use crate::text::{decimal_bytes, push_decimal_bytes, push_signed_bytes, signed_decimal_bytes};
use crate::version::PdfVersion;
use crate::Error;
use std::hash::{BuildHasher, BuildHasherDefault, DefaultHasher};
use vstd::prelude::*;
use vstd::string::StringSliceAdditionalSpecFns;

verus! {

/// How the cross-reference section of the output is stored.
#[derive(Debug, Clone, Copy, PartialEq, Eq, Structural)]
pub enum XrefStyle {
    /// Classic `xref` table and `trailer` dictionary (7.5.4). Readable by
    /// every PDF reader; one 20-byte line per object number.
    Table,
    /// Cross-reference stream (7.5.8), Flate-compressed. Needs PDF 1.5:
    /// the header version is raised to 1.5 when lower.
    Stream,
}

impl Default for XrefStyle {
    /// The classic table.
    fn default() -> (s: XrefStyle)
        ensures
            s == XrefStyle::Table,
    {
        XrefStyle::Table
    }
}

/// Serialisation settings. Build one with [`Writer::new`], tune it with
/// [`Writer::xref_style`].
#[derive(Debug, Clone, Copy, PartialEq, Eq, Structural)]
pub struct Writer {
    version: PdfVersion,
    style: XrefStyle,
}

/// A file that was never updated has one cross-reference subsection
/// starting at object 0 (7.5.4), so every unused number below the highest
/// one costs a 20-byte free entry. Above this many filler entries the
/// numbering is too sparse for the table style: [`XrefStyle::Stream`]
/// lists ranges through `/Index` instead. Protection against a hostile
/// object number making the output huge.
pub const MAX_TABLE_PADDING: usize = 1048576;

/// `a` comes before `b` (major first, then minor).
pub open spec fn version_lt(a: PdfVersion, b: PdfVersion) -> bool {
    a.major < b.major || (a.major == b.major && a.minor < b.minor)
}

impl Writer {
    /// The requested header version.
    pub closed spec fn requested(&self) -> PdfVersion {
        self.version
    }

    /// The cross-reference style.
    pub closed spec fn style_of(&self) -> XrefStyle {
        self.style
    }

    /// A writer producing files declaring `version` in their header, with
    /// a classic cross-reference table.
    pub fn new(version: PdfVersion) -> (w: Writer)
        ensures
            w.requested() == version,
            w.style_of() == XrefStyle::Table,
    {
        Writer { version, style: XrefStyle::Table }
    }

    /// Choose how the cross-reference section is stored.
    pub fn xref_style(self, style: XrefStyle) -> (w: Writer)
        ensures
            w.requested() == self.requested(),
            w.style_of() == style,
    {
        Writer { version: self.version, style }
    }

    /// The version written in the header.
    pub open spec fn version_of(&self) -> PdfVersion {
        match self.style_of() {
            XrefStyle::Stream => if version_lt(self.requested(), PdfVersion { major: 1, minor: 5 }) {
                PdfVersion { major: 1, minor: 5 }
            } else {
                self.requested()
            },
            XrefStyle::Table => self.requested(),
        }
    }

    /// Version written in the header: the requested one, raised to 1.5
    /// for a cross-reference stream.
    pub fn version(&self) -> (v: PdfVersion)
        ensures
            v == self.version_of(),
    {
        match self.style {
            XrefStyle::Stream => {
                if self.version.major < 1 || (self.version.major == 1 && self.version.minor < 5) {
                    PdfVersion { major: 1, minor: 5 }
                } else {
                    self.version
                }
            },
            XrefStyle::Table => self.version,
        }
    }
}

/// Bytes needed to hold `v` big-endian, at least 1.
pub open spec fn bytes_for(v: nat) -> nat
    decreases v,
{
    if v < 256 {
        1
    } else {
        1 + bytes_for(v / 256)
    }
}

/// Bytes needed to hold `value` big-endian, at least 1.
pub fn bytes_needed(value: usize) -> (n: usize)
    ensures
        n == bytes_for(value as nat),
        1 <= n <= 8,
{
    let mut n: usize = 1;
    let mut v = value;
    assert(pow256(0) == 1);
    assert(value as nat * pow256(0) == value as nat);
    while v >= 256
        invariant
            1 <= n <= 8,
            n + bytes_for(v as nat) - 1 == bytes_for(value as nat),
            v as nat * pow256((n - 1) as nat) <= value,
        decreases v,
    {
        proof {
            lemma_pow256_step((n - 1) as nat, v as nat, value as nat);
        }
        v = v / 256;
        n = n + 1;
    }
    n
}

/// `256` to the power `k`.
pub open spec fn pow256(k: nat) -> nat
    decreases k,
{
    if k == 0 {
        1
    } else {
        256 * pow256((k - 1) as nat)
    }
}

proof fn lemma_pow256_step(k: nat, v: nat, value: nat)
    requires
        v >= 256,
        v * pow256(k) <= value,
        value <= usize::MAX,
    ensures
        k + 1 <= 7,
        (v / 256) * pow256(k + 1) <= value,
{
    let p = pow256(k);
    assert(pow256(k + 1) == 256 * p);
    assert((v / 256) * (256 * p) <= v * p) by (nonlinear_arith)
        requires
            v >= 256,
    ;
    lemma_pow256_grows(k);
    if k + 1 > 7 {
        lemma_pow256_monotone(7, k);
        assert(pow256(7) == 72057594037927936) by {
            reveal_with_fuel(pow256, 8);
        }
        assert(v * p >= 256 * 72057594037927936) by (nonlinear_arith)
            requires
                v >= 256,
                p >= 72057594037927936,
        ;
    }
}

proof fn lemma_pow256_grows(k: nat)
    ensures
        pow256(k) >= 1,
    decreases k,
{
    if k > 0 {
        lemma_pow256_grows((k - 1) as nat);
    }
}

proof fn lemma_pow256_monotone(a: nat, b: nat)
    requires
        a <= b,
    ensures
        pow256(a) <= pow256(b),
    decreases b,
{
    if a < b {
        lemma_pow256_monotone(a, (b - 1) as nat);
        lemma_pow256_grows((b - 1) as nat);
    }
}

/// The error of a document that cannot be written.
fn unwritable(message: &str) -> (e: Error)
    ensures
        e matches Error::Unwritable { message: m } && m@ == message@,
{
    Error::Unwritable { message: crate::text::string_of(message) }
}

/// A size as a PDF integer.
pub fn pdf_integer(value: usize) -> (r: Result<i64, Error>)
    ensures
        value <= i64::MAX ==> r == Ok::<i64, Error>(value as i64),
        value > i64::MAX ==> (r matches Err(Error::Unwritable { message }) && message@
            == "a size does not fit a PDF integer"@),
{
    if value as u64 > 9223372036854775807u64 {
        Err(unwritable("a size does not fit a PDF integer"))
    } else {
        Ok(value as i64)
    }
}

/// The uppercase hexadecimal digit of `n` (0 to 15).
pub open spec fn hex_upper(n: u8) -> u8 {
    if n < 10 {
        (0x30 + n) as u8
    } else {
        (0x41 + n - 10) as u8
    }
}

/// The two uppercase hexadecimal digits of `b`.
pub open spec fn hex_pair(b: u8) -> Seq<u8> {
    seq![hex_upper(b / 16), hex_upper(b % 16)]
}

fn push_hex_pair(out: &mut Vec<u8>, b: u8)
    ensures
        final(out)@ == old(out)@ + hex_pair(b),
{
    let hi = b / 16;
    let lo = b % 16;
    out.push(if hi < 10 {
        0x30 + hi
    } else {
        0x41 + hi - 10
    });
    out.push(if lo < 10 {
        0x30 + lo
    } else {
        0x41 + lo - 10
    });
    assert(final(out)@ =~= old(out)@ + hex_pair(b));
}

/// A byte a literal string can hold as it is or by a simple escape:
/// printable ASCII, tab, CR or LF.
pub open spec fn literal_byte(b: u8) -> bool {
    (0x20 <= b <= 0x7E) || b == 0x0A || b == 0x0D || b == 0x09
}

/// How one byte is spelled inside a literal string (7.3.4.2).
pub open spec fn escaped(b: u8) -> Seq<u8> {
    if b == 0x28 || b == 0x29 || b == 0x5C {
        seq![0x5Cu8, b]
    } else if b == 0x0A {
        seq![0x5Cu8, 0x6E]
    } else if b == 0x0D {
        seq![0x5Cu8, 0x72]
    } else if b == 0x09 {
        seq![0x5Cu8, 0x74]
    } else {
        seq![b]
    }
}

/// The escaped bytes of a literal string.
pub open spec fn literal_body(s: Seq<u8>) -> Seq<u8>
    decreases s.len(),
{
    if s.len() == 0 {
        Seq::empty()
    } else {
        literal_body(s.drop_last()) + escaped(s.last())
    }
}

/// The hexadecimal digits of a hexadecimal string.
pub open spec fn hex_body(s: Seq<u8>) -> Seq<u8>
    decreases s.len(),
{
    if s.len() == 0 {
        Seq::empty()
    } else {
        hex_body(s.drop_last()) + hex_pair(s.last())
    }
}

/// A string object as written: `(...)` when every byte is printable ASCII,
/// tab, CR or LF, `<...>` in uppercase hexadecimal otherwise.
pub open spec fn string_token(s: Seq<u8>) -> Seq<u8> {
    if forall|i: int| 0 <= i < s.len() ==> literal_byte(s[i]) {
        seq![0x28u8] + literal_body(s) + seq![0x29u8]
    } else {
        seq![0x3Cu8] + hex_body(s) + seq![0x3Eu8]
    }
}

/// Append `s` as a string object: a literal string when every byte is
/// printable ASCII or a tab, CR or LF, with the escapes of 7.3.4.2; a
/// hexadecimal string otherwise (7.3.4.3). CR and LF are escaped because a
/// raw CR inside a literal reads back as LF.
pub fn write_string(s: &[u8], out: &mut Vec<u8>)
    ensures
        final(out)@ == old(out)@ + string_token(s@),
{
    let mut printable = true;
    let mut k: usize = 0;
    while k < s.len()
        invariant
            k <= s@.len(),
            printable == forall|i: int| 0 <= i < k ==> literal_byte(s@[i]),
        decreases s@.len() - k,
    {
        let b = s[k];
        if !((0x20 <= b && b <= 0x7E) || b == 0x0A || b == 0x0D || b == 0x09) {
            printable = false;
        }
        k = k + 1;
    }
    let ghost start = out@;
    if printable {
        out.push(0x28);
        let mut k: usize = 0;
        while k < s.len()
            invariant
                k <= s@.len(),
                out@ == start + seq![0x28u8] + literal_body(s@.take(k as int)),
            decreases s@.len() - k,
        {
            let b = s[k];
            let ghost before = out@;
            if b == 0x28 || b == 0x29 || b == 0x5C {
                out.push(0x5C);
                out.push(b);
            } else if b == 0x0A {
                out.push(0x5C);
                out.push(0x6E);
            } else if b == 0x0D {
                out.push(0x5C);
                out.push(0x72);
            } else if b == 0x09 {
                out.push(0x5C);
                out.push(0x74);
            } else {
                out.push(b);
            }
            assert(out@ =~= before + escaped(b));
            assert(s@.take(k + 1).drop_last() =~= s@.take(k as int));
            k = k + 1;
        }
        assert(s@.take(s@.len() as int) =~= s@);
        out.push(0x29);
    } else {
        out.push(0x3C);
        let mut k: usize = 0;
        while k < s.len()
            invariant
                k <= s@.len(),
                out@ == start + seq![0x3Cu8] + hex_body(s@.take(k as int)),
            decreases s@.len() - k,
        {
            push_hex_pair(out, s[k]);
            assert(s@.take(k + 1).drop_last() =~= s@.take(k as int));
            k = k + 1;
        }
        assert(s@.take(s@.len() as int) =~= s@);
        out.push(0x3E);
    }
}

/// How one byte of a name is spelled: as it is when it is a regular
/// printable character other than `#`, as `#xx` otherwise.
pub open spec fn name_byte(b: u8) -> Seq<u8> {
    if 0x21 <= b <= 0x7E && !spec_is_delimiter(b) && b != 0x23 {
        seq![b]
    } else {
        seq![0x23u8] + hex_pair(b)
    }
}

/// The spelled bytes of a name.
pub open spec fn name_body(s: Seq<u8>) -> Seq<u8>
    decreases s.len(),
{
    if s.len() == 0 {
        Seq::empty()
    } else {
        name_body(s.drop_last()) + name_byte(s.last())
    }
}

/// Append `/Name`, with `#xx` for every byte outside `!`..`~`, for
/// delimiters and for `#` itself (7.3.5).
pub fn write_name(name: &Name, out: &mut Vec<u8>)
    ensures
        final(out)@ == old(out)@ + seq![0x2Fu8] + name_body(name.0@),
{
    let ghost start = out@;
    out.push(0x2F);
    let bytes = name.0.as_slice();
    let mut k: usize = 0;
    while k < bytes.len()
        invariant
            k <= bytes@.len(),
            bytes@ == name.0@,
            out@ == start + seq![0x2Fu8] + name_body(bytes@.take(k as int)),
        decreases bytes@.len() - k,
    {
        let b = bytes[k];
        let ghost before = out@;
        if 0x21 <= b && b <= 0x7E && !is_delimiter(b) && b != 0x23 {
            out.push(b);
        } else {
            out.push(0x23);
            push_hex_pair(out, b);
        }
        assert(out@ =~= before + name_byte(b));
        assert(bytes@.take(k + 1).drop_last() =~= bytes@.take(k as int));
        k = k + 1;
    }
    assert(bytes@.take(bytes@.len() as int) =~= bytes@);
}

/// Calls `BuildHasher::hash_one` on the default `DefaultHasher` builder
/// with `body`: what `body.hash(&mut DefaultHasher::new())` then `finish`
/// give. Nothing is stated of the value: the algorithm is not specified
/// and may change between Rust releases.
#[verifier::external_body]
fn default_hash(body: &[u8]) -> u64 {
    BuildHasherDefault::<DefaultHasher>::default().hash_one(body)
}

/// Calls `BuildHasher::hash_one` on the default `DefaultHasher` builder
/// with the pair `(tag, body)`: `tag` then `body` hashed into one fresh
/// `DefaultHasher`. Nothing is stated of the value.
#[verifier::external_body]
fn default_hash_tagged(tag: u64, body: &[u8]) -> u64 {
    BuildHasherDefault::<DefaultHasher>::default().hash_one((tag, body))
}

/// The big-endian bytes of a 64-bit value.
pub open spec fn be8(x: u64) -> Seq<u8> {
    Seq::new(8, |i: int| ((x as nat / pow256((7 - i) as nat)) % 256) as u8)
}

/// Sixteen identifier bytes from two hashes: the big-endian bytes of the
/// first, then of the second.
pub fn id_from_hashes(first: u64, second: u64) -> (id: [u8; 16])
    ensures
        id@ == be8(first) + be8(second),
{
    let mut id = [0u8; 16];
    let mut i: usize = 0;
    let mut a = first;
    let mut b = second;
    assert(pow256(0) == 1);
    assert(first as nat / pow256(0) == first as nat);
    assert(second as nat / pow256(0) == second as nat);
    while i < 8
        invariant
            i <= 8,
            id@.len() == 16,
            a as nat == first as nat / pow256(i as nat),
            b as nat == second as nat / pow256(i as nat),
            forall|j: int| 8 - i <= j < 8 ==> id@[j] == be8(first)[j],
            forall|j: int| 16 - i <= j < 16 ==> id@[j] == be8(second)[j - 8],
        decreases 8 - i,
    {
        proof {
            lemma_div_pow256(first as nat, i as nat);
            lemma_div_pow256(second as nat, i as nat);
        }
        id[7 - i] = (a % 256) as u8;
        id[15 - i] = (b % 256) as u8;
        a = a / 256;
        b = b / 256;
        i = i + 1;
    }
    assert(id@ =~= be8(first) + be8(second));
    id
}

proof fn lemma_div_pow256(x: nat, i: nat)
    ensures
        x / pow256(i) / 256 == x / pow256(i + 1),
{
    lemma_pow256_grows(i);
    let p = pow256(i);
    assert(pow256(i + 1) == 256 * p);
    vstd::arithmetic::div_mod::lemma_div_denominator(x as int, p as int, 256);
    assert(p * 256 == 256 * p) by (nonlinear_arith);
}

/// Sixteen bytes derived from `body`, for `/ID`: the big-endian bytes of
/// the `DefaultHasher` hash of `body`, then of the same hash started with a
/// fixed tag. Deterministic: the same content gives the same identifier.
pub fn file_id(body: &[u8]) -> (id: [u8; 16])
    ensures
        exists|first: u64, second: u64| id@ == be8(first) + be8(second),
{
    let first = default_hash(body);
    let second = default_hash_tagged(0x3446_5950_4446_4944u64, body);
    let id = id_from_hashes(first, second);
    assert(id@ == be8(first) + be8(second));
    id
}


// ---------------------------------------------------------------------------
// Objects
// ---------------------------------------------------------------------------

/// Why an object could not be written.
pub enum WriteFailure {
    TooDeep,
    Unwritable(Seq<char>),
}

/// `r`, with `out` before and after the call, is what `x` says: the bytes
/// appended, or the error.
pub open spec fn written(r: Result<(), Error>, before: Seq<u8>, after: Seq<u8>, x: Result<Seq<u8>, WriteFailure>) -> bool {
    match x {
        Ok(b) => r is Ok && after == before + b,
        Err(WriteFailure::TooDeep) => r == Err::<(), Error>(Error::TooDeep),
        Err(WriteFailure::Unwritable(m)) => r matches Err(Error::Unwritable { message }) && message@ == m,
    }
}

/// How a real is spelled: its text, with `.0` added when it has no `.`,
/// so that an integral value stays a real.
pub open spec fn real_bytes(t: Seq<u8>) -> Seq<u8> {
    if t.contains(46u8) {
        t
    } else {
        t + seq![46u8, 48u8]
    }
}

/// `n g R`.
pub open spec fn reference_bytes(r: ObjRef) -> Seq<u8> {
    decimal_bytes(r.num as nat) + seq![32u8] + decimal_bytes(r.gen as nat) + seq![32u8, 82u8]
}

/// The serialisation of an object at nesting `depth` (ISO 32000-2, 7.3).
/// Streams are written with `/Length` set to the size of their data.
pub open spec fn object_bytes(o: ObjectView, depth: int) -> Result<Seq<u8>, WriteFailure>
    decreases MAX_DEPTH + 1 - depth, 0int,
{
    if depth > MAX_DEPTH {
        Err(WriteFailure::TooDeep)
    } else {
        match o {
            ObjectView::Null => Ok(seq![110u8, 117u8, 108u8, 108u8]),
            ObjectView::Bool(b) => Ok(
                if b {
                    seq![116u8, 114u8, 117u8, 101u8]
                } else {
                    seq![102u8, 97u8, 108u8, 115u8, 101u8]
                },
            ),
            ObjectView::Integer(i) => Ok(signed_decimal_bytes(i as int)),
            ObjectView::Real(t) => if real_accepted(t) {
                Ok(real_bytes(t))
            } else {
                Err(WriteFailure::Unwritable("a real number is infinite or not a number"@))
            },
            ObjectView::String(v) => Ok(string_token(v)),
            ObjectView::Name(n) => Ok(seq![0x2Fu8] + name_body(n)),
            ObjectView::Reference(r) => Ok(reference_bytes(r)),
            ObjectView::Array(items) => match items_bytes(items, depth + 1) {
                Ok(b) => Ok(seq![0x5Bu8] + b + seq![0x5Du8]),
                Err(f) => Err(f),
            },
            ObjectView::Dict(d) => match entries_bytes(d, depth + 1) {
                Ok(b) => Ok(seq![0x3Cu8, 0x3Cu8] + b + seq![0x20u8, 0x3Eu8, 0x3Eu8]),
                Err(f) => Err(f),
            },
            ObjectView::Stream(d, data) => if data.len() > i64::MAX {
                Err(WriteFailure::Unwritable("a size does not fit a PDF integer"@))
            } else {
                match entries_bytes(
                    dict_insert(d, word_length(), ObjectView::Integer(data.len() as i64)),
                    depth + 1,
                ) {
                    Ok(b) => Ok(
                        seq![0x3Cu8, 0x3Cu8] + b + seq![0x20u8, 0x3Eu8, 0x3Eu8] + stream_open()
                            + data + endstream_close(),
                    ),
                    Err(f) => Err(f),
                }
            },
        }
    }
}

/// `\nstream\n`.
pub open spec fn stream_open() -> Seq<u8> {
    seq![10u8, 115u8, 116u8, 114u8, 101u8, 97u8, 109u8, 10u8]
}

/// `\nendstream`.
pub open spec fn endstream_close() -> Seq<u8> {
    seq![10u8, 101u8, 110u8, 100u8, 115u8, 116u8, 114u8, 101u8, 97u8, 109u8]
}

/// The items of an array, one space apart; the first failure stops.
pub open spec fn items_bytes(items: Seq<ObjectView>, depth: int) -> Result<Seq<u8>, WriteFailure>
    decreases MAX_DEPTH + 1 - depth, items.len() + 1,
{
    if items.len() == 0 {
        Ok(Seq::empty())
    } else {
        match items_bytes(items.drop_last(), depth) {
            Err(f) => Err(f),
            Ok(b) => match object_bytes(items.last(), depth) {
                Err(f) => Err(f),
                Ok(x) => Ok(
                    if items.len() == 1 {
                        x
                    } else {
                        b + seq![0x20u8] + x
                    },
                ),
            },
        }
    }
}

/// The entries of a dictionary, each as ` /Key value`; the first
/// failure stops.
pub open spec fn entries_bytes(d: Seq<(Seq<u8>, ObjectView)>, depth: int) -> Result<Seq<u8>, WriteFailure>
    decreases MAX_DEPTH + 1 - depth, d.len() + 1,
{
    if d.len() == 0 {
        Ok(Seq::empty())
    } else {
        match entries_bytes(d.drop_last(), depth) {
            Err(f) => Err(f),
            Ok(b) => match object_bytes(d.last().1, depth) {
                Err(f) => Err(f),
                Ok(x) => Ok(b + seq![0x20u8, 0x2Fu8] + name_body(d.last().0) + seq![0x20u8] + x),
            },
        }
    }
}

/// A failure among the first items is the failure of the whole array.
proof fn lemma_items_bytes_err(s: Seq<ObjectView>, n: int, depth: int)
    requires
        0 <= n <= s.len(),
        items_bytes(s.take(n), depth) is Err,
    ensures
        items_bytes(s, depth) == items_bytes(s.take(n), depth),
    decreases s.len() - n,
{
    if n < s.len() {
        assert(s.take(n + 1).drop_last() =~= s.take(n));
        lemma_items_bytes_err(s, n + 1, depth);
    } else {
        assert(s.take(n) =~= s);
    }
}

/// A failure among the first entries is the failure of the whole
/// dictionary.
proof fn lemma_entries_bytes_err(s: Seq<(Seq<u8>, ObjectView)>, n: int, depth: int)
    requires
        0 <= n <= s.len(),
        entries_bytes(s.take(n), depth) is Err,
    ensures
        entries_bytes(s, depth) == entries_bytes(s.take(n), depth),
    decreases s.len() - n,
{
    if n < s.len() {
        assert(s.take(n + 1).drop_last() =~= s.take(n));
        lemma_entries_bytes_err(s, n + 1, depth);
    } else {
        assert(s.take(n) =~= s);
    }
}

/// Append the serialisation of a direct object to `out` (ISO 32000-2,
/// 7.3). Streams are written with `/Length` set to the size of their
/// data.
pub fn serialize(obj: &Object, out: &mut Vec<u8>) -> (r: Result<(), Error>)
    ensures
        written(r, old(out)@, final(out)@, object_bytes(obj@, 0)),
{
    serialize_at_depth(obj, out, 0)
}

fn serialize_at_depth(obj: &Object, out: &mut Vec<u8>, depth: usize) -> (r: Result<(), Error>)
    ensures
        written(r, old(out)@, final(out)@, object_bytes(obj@, depth as int)),
    decreases MAX_DEPTH + 1 - depth, 1int,
{
    if depth > MAX_DEPTH {
        return Err(Error::TooDeep);
    }
    let ghost start = out@;
    match obj {
        Object::Null => {
            out.push(110);
            out.push(117);
            out.push(108);
            out.push(108);
            assert(out@ =~= start + seq![110u8, 117u8, 108u8, 108u8]);
        },
        Object::Bool(b) => {
            if *b {
                out.push(116);
                out.push(114);
                out.push(117);
                out.push(101);
                assert(out@ =~= start + seq![116u8, 114u8, 117u8, 101u8]);
            } else {
                out.push(102);
                out.push(97);
                out.push(108);
                out.push(115);
                out.push(101);
                assert(out@ =~= start + seq![102u8, 97u8, 108u8, 115u8, 101u8]);
            }
        },
        Object::Integer(i) => {
            push_signed_bytes(out, *i);
            assert(written(Ok(()), start, out@, object_bytes(obj@, depth as int)));
        },
        Object::Real(t) => {
            if !real_ok(t.as_slice()) {
                return Err(unwritable("a real number is infinite or not a number"));
            }
            let mut has_dot = false;
            let mut k: usize = 0;
            while k < t.len()
                invariant
                    k <= t@.len(),
                    has_dot == exists|j: int| 0 <= j < k && t@[j] == 46u8,
                decreases t@.len() - k,
            {
                if t[k] == 46 {
                    has_dot = true;
                }
                k = k + 1;
            }
            crate::bytes::extend(out, t.as_slice());
            if !has_dot {
                out.push(46);
                out.push(48);
            }
            proof {
                if has_dot {
                    let j = choose|j: int| 0 <= j < t@.len() && t@[j] == 46u8;
                    assert(t@.contains(46u8));
                } else {
                    assert(!t@.contains(46u8));
                }
            }
            assert(out@ =~= start + real_bytes(t@));
            assert(written(Ok(()), start, out@, object_bytes(obj@, depth as int)));
        },
        Object::String(v) => {
            write_string(v.as_slice(), out);
            assert(written(Ok(()), start, out@, object_bytes(obj@, depth as int)));
        },
        Object::Name(n) => {
            write_name(n, out);
            assert(out@ =~= start + (seq![0x2Fu8] + name_body(n.0@)));
            assert(written(Ok(()), start, out@, object_bytes(obj@, depth as int)));
        },
        Object::Reference(r) => {
            push_decimal_bytes(out, r.num as u64);
            out.push(32);
            push_decimal_bytes(out, r.gen as u64);
            out.push(32);
            out.push(82);
            assert(out@ =~= start + reference_bytes(*r));
            assert(written(Ok(()), start, out@, object_bytes(obj@, depth as int)));
        },
        Object::Array(items) => {
            out.push(0x5B);
            let mut k: usize = 0;
            proof {
                crate::object::lemma_items_view(items@);
            }
            let ghost views = obj@->Array_0;
            while k < items.len()
                invariant
                    k <= items@.len(),
                    depth <= MAX_DEPTH,
                    start == old(out)@,
                    obj@ == ObjectView::Array(views),
                    views == items_view(items@),
                    views.len() == items@.len(),
                    forall|j: int| 0 <= j < items@.len() ==> #[trigger] views[j] == items@[j]@,
                    items_bytes(views.take(k as int), depth + 1) matches Ok(b) && out@ == start
                        + seq![0x5Bu8] + b,
                decreases items@.len() - k,
            {
                let ghost before = out@;
                let ghost b = items_bytes(views.take(k as int), depth + 1)->Ok_0;
                if k > 0 {
                    out.push(0x20);
                }
                let r = serialize_at_depth(&items[k], out, depth + 1);
                assert(views.take(k + 1).drop_last() =~= views.take(k as int));
                assert(views.take(k + 1).last() == items@[k as int]@);
                match r {
                    Ok(()) => {},
                    Err(e) => {
                        proof {
                            lemma_items_bytes_err(views, k + 1, depth + 1);
                        }
                        return Err(e);
                    },
                }
                proof {
                    let x = object_bytes(items@[k as int]@, depth + 1)->Ok_0;
                    if k > 0 {
                        assert(out@ =~= start + seq![0x5Bu8] + (b + seq![0x20u8] + x));
                    } else {
                        assert(b == Seq::<u8>::empty());
                        assert(out@ =~= start + seq![0x5Bu8] + x);
                    }
                }
                k = k + 1;
            }
            assert(views.take(items@.len() as int) =~= views);
            out.push(0x5D);
            proof {
                let b = items_bytes(views, depth + 1)->Ok_0;
                assert(out@ =~= start + (seq![0x5Bu8] + b + seq![0x5Du8]));
            }
            assert(written(Ok(()), start, out@, object_bytes(obj@, depth as int)));
        },
        Object::Dict(d) => {
            let r = write_dict(d, out, depth);
            match r {
                Ok(()) => {},
                Err(e) => {
                    return Err(e);
                },
            }
            assert(written(Ok(()), start, out@, object_bytes(obj@, depth as int)));
        },
        Object::Stream { dict, data } => {
            let length = match pdf_integer(data.len()) {
                Ok(n) => n,
                Err(e) => {
                    return Err(e);
                },
            };
            let mut dict = copy_dict(dict);
            let length_key: [u8; 6] = [76, 101, 110, 103, 116, 104];
            assert(length_key@ =~= word_length());
            dict.insert(Name(crate::bytes::to_vec(length_key.as_slice())), Object::Integer(length));
            let r = write_dict(&dict, out, depth);
            match r {
                Ok(()) => {},
                Err(e) => {
                    return Err(e);
                },
            }
            let ghost mid = out@;
            let open: [u8; 8] = [10, 115, 116, 114, 101, 97, 109, 10];
            let close: [u8; 10] = [10, 101, 110, 100, 115, 116, 114, 101, 97, 109];
            crate::bytes::extend(out, open.as_slice());
            crate::bytes::extend(out, data.as_slice());
            crate::bytes::extend(out, close.as_slice());
            proof {
                assert(open@ =~= stream_open());
                assert(close@ =~= endstream_close());
                let b = entries_bytes(dict@, depth + 1)->Ok_0;
                assert(out@ =~= start + (seq![0x3Cu8, 0x3Cu8] + b + seq![0x20u8, 0x3Eu8, 0x3Eu8]
                    + stream_open() + data@ + endstream_close()));
            }
            assert(written(Ok(()), start, out@, object_bytes(obj@, depth as int)));
        },
    }
    Ok(())
}

/// `<<`, each entry as ` /Key value`, ` >>`.
fn write_dict(dict: &Dict, out: &mut Vec<u8>, depth: usize) -> (r: Result<(), Error>)
    requires
        depth <= MAX_DEPTH,
    ensures
        written(
            r,
            old(out)@,
            final(out)@,
            match entries_bytes(dict@, depth + 1) {
                Ok(b) => Ok(seq![0x3Cu8, 0x3Cu8] + b + seq![0x20u8, 0x3Eu8, 0x3Eu8]),
                Err(f) => Err(f),
            },
        ),
    decreases MAX_DEPTH + 1 - depth, 0int,
{
    let ghost start = out@;
    out.push(0x3C);
    out.push(0x3C);
    let entries = dict.entries();
    proof {
        crate::object::lemma_entries_view(entries@);
    }
    let ghost views = dict@;
    let mut k: usize = 0;
    while k < entries.len()
        invariant
            k <= entries@.len(),
            depth <= MAX_DEPTH,
            start == old(out)@,
            views == crate::object::entries_view(entries@),
            views == dict@,
            views.len() == entries@.len(),
            forall|j: int| 0 <= j < entries@.len() ==> #[trigger] views[j] == (entries@[j].0.0@, entries@[j].1@),
            entries_bytes(views.take(k as int), depth + 1) matches Ok(b) && out@ == start + seq![0x3Cu8, 0x3Cu8] + b,
        decreases entries@.len() - k,
    {
        let ghost b = entries_bytes(views.take(k as int), depth + 1)->Ok_0;
        let entry = &entries[k];
        out.push(0x20);
        write_name(&entry.0, out);
        out.push(0x20);
        let r = serialize_at_depth(&entry.1, out, depth + 1);
        assert(views.take(k + 1).drop_last() =~= views.take(k as int));
        assert(views.take(k + 1).last() == views[k as int]);
        match r {
            Ok(()) => {},
            Err(e) => {
                proof {
                    lemma_entries_bytes_err(views, k + 1, depth + 1);
                }
                return Err(e);
            },
        }
        proof {
            let x = object_bytes(entries@[k as int].1@, depth + 1)->Ok_0;
            assert(out@ =~= start + seq![0x3Cu8, 0x3Cu8] + (b + seq![0x20u8, 0x2Fu8] + name_body(
                entries@[k as int].0.0@,
            ) + seq![0x20u8] + x));
        }
        k = k + 1;
    }
    assert(views.take(entries@.len() as int) =~= views);
    out.push(0x20);
    out.push(0x3E);
    out.push(0x3E);
    proof {
        let b = entries_bytes(views, depth + 1)->Ok_0;
        assert(out@ =~= start + (seq![0x3Cu8, 0x3Cu8] + b + seq![0x20u8, 0x3Eu8, 0x3Eu8]));
    }
    Ok(())
}

// ---------------------------------------------------------------------------
// What is written reads back
// ---------------------------------------------------------------------------

proof fn lemma_literal_body_front(b: u8, s: Seq<u8>)
    ensures
        literal_body(seq![b] + s) == escaped(b) + literal_body(s),
    decreases s.len(),
{
    if s.len() == 0 {
        assert((seq![b] + s).drop_last() =~= Seq::<u8>::empty());
        assert((seq![b] + s).last() == b);
        assert(literal_body(Seq::<u8>::empty()) == Seq::<u8>::empty());
        assert(literal_body(seq![b] + s) == literal_body((seq![b] + s).drop_last()) + escaped(b));
        assert(literal_body(seq![b] + s) =~= escaped(b) + literal_body(s));
    } else {
        lemma_literal_body_front(b, s.drop_last());
        assert((seq![b] + s).drop_last() =~= seq![b] + s.drop_last());
        assert(literal_body(seq![b] + s) =~= escaped(b) + literal_body(s));
    }
}

proof fn lemma_hex_body_front(b: u8, s: Seq<u8>)
    ensures
        hex_body(seq![b] + s) == hex_pair(b) + hex_body(s),
    decreases s.len(),
{
    if s.len() == 0 {
        assert((seq![b] + s).drop_last() =~= Seq::<u8>::empty());
        assert((seq![b] + s).last() == b);
        assert(hex_body(Seq::<u8>::empty()) == Seq::<u8>::empty());
        assert(hex_body(seq![b] + s) == hex_body((seq![b] + s).drop_last()) + hex_pair(b));
        assert(hex_body(seq![b] + s) =~= hex_pair(b) + hex_body(s));
    } else {
        lemma_hex_body_front(b, s.drop_last());
        assert((seq![b] + s).drop_last() =~= seq![b] + s.drop_last());
        assert(hex_body(seq![b] + s) =~= hex_pair(b) + hex_body(s));
    }
}

proof fn lemma_name_body_front(b: u8, s: Seq<u8>)
    ensures
        name_body(seq![b] + s) == name_byte(b) + name_body(s),
    decreases s.len(),
{
    if s.len() == 0 {
        assert((seq![b] + s).drop_last() =~= Seq::<u8>::empty());
        assert((seq![b] + s).last() == b);
        assert(name_body(Seq::<u8>::empty()) == Seq::<u8>::empty());
        assert(name_body(seq![b] + s) == name_body((seq![b] + s).drop_last()) + name_byte(b));
        assert(name_body(seq![b] + s) =~= name_byte(b) + name_body(s));
    } else {
        lemma_name_body_front(b, s.drop_last());
        assert((seq![b] + s).drop_last() =~= seq![b] + s.drop_last());
        assert(name_body(seq![b] + s) =~= name_byte(b) + name_body(s));
    }
}

proof fn lemma_hex_upper(n: u8)
    requires
        n < 16,
    ensures
        spec_hex_value(hex_upper(n)) == Some(n),
        !spec_is_whitespace(hex_upper(n)),
        hex_upper(n) != 62u8,
        spec_is_regular(hex_upper(n)),
{
}

proof fn lemma_hex_pair(b: u8)
    ensures
        hex_pair(b).len() == 2,
        spec_hex_value(hex_pair(b)[0]) == Some(b / 16),
        spec_hex_value(hex_pair(b)[1]) == Some(b % 16),
        (b / 16) * 16 + b % 16 == b,
{
    lemma_hex_upper(b / 16);
    lemma_hex_upper(b % 16);
}

proof fn lemma_literal_reads_back(t: Seq<u8>, p: int, s: Seq<u8>, out: Seq<u8>)
    requires
        0 <= p,
        forall|i: int| 0 <= i < s.len() ==> literal_byte(s[i]),
        p + literal_body(s).len() < t.len(),
        t.subrange(p, p + literal_body(s).len()) == literal_body(s),
        t[p + literal_body(s).len()] == 0x29u8,
    ensures
        literal_scan(t, p, 0, out) == Some((out + s, p + literal_body(s).len() + 1)),
    decreases s.len(),
{
    if s.len() == 0 {
        assert(out + s =~= out);
    } else {
        let b = s[0];
        let rest = s.skip(1);
        assert(seq![b] + rest =~= s);
        lemma_literal_body_front(b, rest);
        let e = escaped(b);
        let lb = literal_body(rest);
        assert(literal_body(s) == e + lb);
        assert forall|i: int| 0 <= i < rest.len() implies literal_byte(rest[i]) by {
            assert(rest[i] == s[i + 1]);
        }
        assert(t.subrange(p + e.len(), p + e.len() + lb.len()) =~= lb) by {
            assert forall|i: int| 0 <= i < lb.len() implies t[p + e.len() + i] == lb[i] by {
                assert(t.subrange(p, p + literal_body(s).len())[e.len() + i] == (e + lb)[e.len()
                    + i]);
            }
        }
        assert(t[p] == e[0]) by {
            assert(t.subrange(p, p + literal_body(s).len())[0] == (e + lb)[0]);
        }
        if e.len() == 2 {
            assert(t[p + 1] == e[1]) by {
                assert(t.subrange(p, p + literal_body(s).len())[1] == (e + lb)[1]);
            }
        }
        lemma_literal_reads_back(t, p + e.len(), rest, out.push(b));
        assert(out.push(b) + rest =~= out + s);
    }
}

proof fn lemma_hex_reads_back(t: Seq<u8>, p: int, s: Seq<u8>, out: Seq<u8>)
    requires
        0 <= p,
        p + hex_body(s).len() < t.len(),
        t.subrange(p, p + hex_body(s).len()) == hex_body(s),
        t[p + hex_body(s).len()] == 0x3Eu8,
    ensures
        hex_string_scan(t, p, None, out) == Ok::<(Seq<u8>, int), bool>(
            (out + s, p + hex_body(s).len() + 1),
        ),
    decreases s.len(),
{
    if s.len() == 0 {
        assert(out + s =~= out);
    } else {
        let b = s[0];
        let rest = s.skip(1);
        assert(seq![b] + rest =~= s);
        lemma_hex_body_front(b, rest);
        let h = hex_pair(b);
        let hb = hex_body(rest);
        lemma_hex_pair(b);
        assert(hex_body(s) == h + hb);
        assert(t.subrange(p + 2, p + 2 + hb.len()) =~= hb) by {
            assert forall|i: int| 0 <= i < hb.len() implies t[p + 2 + i] == hb[i] by {
                assert(t.subrange(p, p + hex_body(s).len())[2 + i] == (h + hb)[2 + i]);
            }
        }
        assert(t[p] == h[0]) by {
            assert(t.subrange(p, p + hex_body(s).len())[0] == (h + hb)[0]);
        }
        assert(t[p + 1] == h[1]) by {
            assert(t.subrange(p, p + hex_body(s).len())[1] == (h + hb)[1]);
        }
        lemma_hex_upper(b / 16);
        lemma_hex_upper(b % 16);
        assert(hex_string_scan(t, p, None, out) == hex_string_scan(t, p + 1, Some(b / 16), out));
        assert(hex_string_scan(t, p + 1, Some(b / 16), out) == hex_string_scan(
            t,
            p + 2,
            None,
            out.push(b),
        ));
        lemma_hex_reads_back(t, p + 2, rest, out.push(b));
        assert(out.push(b) + rest =~= out + s);
    }
}

proof fn lemma_name_reads_back(t: Seq<u8>, p: int, s: Seq<u8>, out: Seq<u8>)
    requires
        0 <= p,
        p + name_body(s).len() <= t.len(),
        t.subrange(p, p + name_body(s).len()) == name_body(s),
        p + name_body(s).len() == t.len() || !spec_is_regular(t[p + name_body(s).len()]),
    ensures
        name_scan(t, p, out) == (out + s, p + name_body(s).len()),
    decreases s.len(),
{
    if s.len() == 0 {
        assert(out + s =~= out);
    } else {
        let b = s[0];
        let rest = s.skip(1);
        assert(seq![b] + rest =~= s);
        lemma_name_body_front(b, rest);
        let e = name_byte(b);
        let nb = name_body(rest);
        assert(name_body(s) == e + nb);
        assert(t.subrange(p + e.len(), p + e.len() + nb.len()) =~= nb) by {
            assert forall|i: int| 0 <= i < nb.len() implies t[p + e.len() + i] == nb[i] by {
                assert(t.subrange(p, p + name_body(s).len())[e.len() + i] == (e + nb)[e.len()
                    + i]);
            }
        }
        assert(t[p] == e[0]) by {
            assert(t.subrange(p, p + name_body(s).len())[0] == (e + nb)[0]);
        }
        if e.len() == 3 {
            assert(t[p + 1] == e[1]) by {
                assert(t.subrange(p, p + name_body(s).len())[1] == (e + nb)[1]);
            }
            assert(t[p + 2] == e[2]) by {
                assert(t.subrange(p, p + name_body(s).len())[2] == (e + nb)[2]);
            }
            lemma_hex_pair(b);
            lemma_hex_upper(b / 16);
            lemma_hex_upper(b % 16);
        }
        lemma_name_reads_back(t, p + e.len(), rest, out.push(b));
        assert(out.push(b) + rest =~= out + s);
    }
}

/// What [`write_string`] writes, the lexer reads back: after the opening
/// `(` or `<` (which is what the written token starts with), reading the
/// literal or hexadecimal string gives the original bytes and stops just
/// after the written token, whatever follows it.
pub proof fn law_written_strings_read_back(s: Seq<u8>, rest: Seq<u8>)
    ensures
        ({
            let t = string_token(s) + rest;
            let end = string_token(s).len() as int;
            if forall|i: int| 0 <= i < s.len() ==> literal_byte(s[i]) {
                &&& t[0] == 0x28u8
                &&& literal_scan(t, 1, 0, Seq::empty()) == Some((s, end))
            } else {
                &&& t[0] == 0x3Cu8
                &&& hex_string_scan(t, 1, None, Seq::empty()) == Ok::<(Seq<u8>, int), bool>(
                    (s, end),
                )
            }
        }),
{
    let t = string_token(s) + rest;
    if forall|i: int| 0 <= i < s.len() ==> literal_byte(s[i]) {
        let lb = literal_body(s);
        assert(string_token(s) == seq![0x28u8] + lb + seq![0x29u8]);
        assert(t.subrange(1, 1 + lb.len() as int) =~= lb);
        assert(t[1 + lb.len() as int] == 0x29u8);
        lemma_literal_reads_back(t, 1, s, Seq::empty());
        assert(Seq::<u8>::empty() + s =~= s);
    } else {
        let hb = hex_body(s);
        assert(string_token(s) == seq![0x3Cu8] + hb + seq![0x3Eu8]);
        assert(t.subrange(1, 1 + hb.len() as int) =~= hb);
        assert(t[1 + hb.len() as int] == 0x3Eu8);
        lemma_hex_reads_back(t, 1, s, Seq::empty());
        assert(Seq::<u8>::empty() + s =~= s);
    }
}

/// What [`write_name`] writes, the lexer reads back: after the `/`,
/// reading the name gives the original bytes and stops at the end of the
/// written name, when what follows is no regular character (whitespace, a
/// delimiter, or nothing).
pub proof fn law_written_names_read_back(name: Seq<u8>, rest: Seq<u8>)
    requires
        rest.len() == 0 || !spec_is_regular(rest[0]),
    ensures
        ({
            let t = seq![0x2Fu8] + name_body(name) + rest;
            name_scan(t, 1, Seq::empty()) == (name, 1 + name_body(name).len() as int)
        }),
{
    let nb = name_body(name);
    let t = seq![0x2Fu8] + nb + rest;
    assert(t.subrange(1, 1 + nb.len() as int) =~= nb);
    if rest.len() > 0 {
        assert(t[1 + nb.len() as int] == rest[0]);
    }
    lemma_name_reads_back(t, 1, name, Seq::empty());
    assert(Seq::<u8>::empty() + name =~= name);
}

// ---------------------------------------------------------------------------
// Files: indirect objects and the cross-reference table
// ---------------------------------------------------------------------------

/// Largest byte offset a classic table entry can hold: ten digits (7.5.4).
pub const MAX_TABLE_OFFSET: u64 = 9999999999;

/// Generation of object 0, the head of the free list: never reused.
pub const FREE_HEAD_GEN: u16 = 65535;

/// Append the bytes of `t`.
fn push_text(out: &mut Vec<u8>, t: &str)
    ensures
        final(out)@ == old(out)@ + t.spec_bytes(),
{
    let bytes = t.as_bytes();
    let mut k: usize = 0;
    while k < bytes.len()
        invariant
            k <= bytes@.len(),
            bytes@ == t.spec_bytes(),
            out@ == old(out)@ + bytes@.take(k as int),
        decreases bytes@.len() - k,
    {
        out.push(bytes[k]);
        assert(bytes@.take(k + 1) =~= bytes@.take(k as int).push(bytes@[k as int]));
        k = k + 1;
    }
    assert(bytes@.take(bytes@.len() as int) =~= bytes@);
}

/// `n g obj`, newline, the object, newline, `endobj`, newline.
pub open spec fn indirect_bytes(r: ObjRef, o: ObjectView) -> Result<Seq<u8>, WriteFailure> {
    match object_bytes(o, 0) {
        Ok(b) => Ok(
            decimal_bytes(r.num as nat) + seq![32u8] + decimal_bytes(r.gen as nat) + " obj\n".spec_bytes() + b
                + "\nendobj\n".spec_bytes(),
        ),
        Err(f) => Err(f),
    }
}

/// Write object `obj` as the indirect object `r`. Streams get an exact
/// direct `/Length`.
pub fn write_indirect(out: &mut Vec<u8>, r: ObjRef, obj: &Object) -> (res: Result<(), Error>)
    ensures
        written(res, old(out)@, final(out)@, indirect_bytes(r, obj@)),
{
    let ghost start = out@;
    push_decimal_bytes(out, r.num as u64);
    out.push(32);
    push_decimal_bytes(out, r.gen as u64);
    push_text(out, " obj\n");
    let ghost mid = out@;
    match serialize(obj, out) {
        Err(e) => return Err(e),
        Ok(()) => {},
    }
    push_text(out, "\nendobj\n");
    proof {
        let b = object_bytes(obj@, 0)->Ok_0;
        assert(out@ =~= start + (decimal_bytes(r.num as nat) + seq![32u8] + decimal_bytes(r.gen as nat)
            + " obj\n".spec_bytes() + b + "\nendobj\n".spec_bytes()));
    }
    Ok(())
}

/// `10` to the power `k`.
pub open spec fn pow10(k: nat) -> nat
    decreases k,
{
    if k == 0 {
        1
    } else {
        10 * pow10((k - 1) as nat)
    }
}

proof fn lemma_pow10_positive(k: nat)
    ensures
        pow10(k) >= 1,
    decreases k,
{
    if k > 0 {
        lemma_pow10_positive((k - 1) as nat);
    }
}

proof fn lemma_div_pow10(x: nat, i: nat)
    ensures
        x / pow10(i) / 10 == x / pow10(i + 1),
{
    lemma_pow10_positive(i);
    let p = pow10(i);
    assert(pow10(i + 1) == 10 * p);
    vstd::arithmetic::div_mod::lemma_div_denominator(x as int, p as int, 10);
    assert(p * 10 == 10 * p) by (nonlinear_arith);
}

/// The `w` low decimal digits of `v`, most significant first: `v` written
/// on `w` digits with leading zeros, when it has no more than `w`.
pub open spec fn fixed_digits(v: nat, w: nat) -> Seq<u8> {
    Seq::new(w, |i: int| (48 + (v / pow10((w - 1 - i) as nat)) % 10) as u8)
}

/// Append the `w` low decimal digits of `v`.
fn push_fixed_digits(out: &mut Vec<u8>, v: u64, w: usize)
    ensures
        final(out)@ == old(out)@ + fixed_digits(v as nat, w as nat),
{
    let mut low: Vec<u8> = Vec::new();
    let mut a = v;
    let mut i: usize = 0;
    assert(pow10(0) == 1);
    assert(v as nat / pow10(0) == v as nat);
    while i < w
        invariant
            i <= w,
            low@.len() == i,
            a as nat == v as nat / pow10(i as nat),
            forall|j: int| 0 <= j < i ==> #[trigger] low@[j] == (48 + (v as nat / pow10(j as nat)) % 10) as u8,
        decreases w - i,
    {
        proof { lemma_div_pow10(v as nat, i as nat); }
        low.push((48 + a % 10) as u8);
        a = a / 10;
        i = i + 1;
    }
    let ghost start = out@;
    let mut k: usize = 0;
    while k < w
        invariant
            k <= w,
            low@.len() == w,
            forall|j: int| 0 <= j < w ==> #[trigger] low@[j] == (48 + (v as nat / pow10(j as nat)) % 10) as u8,
            out@ == start + fixed_digits(v as nat, w as nat).take(k as int),
        decreases w - k,
    {
        out.push(low[w - 1 - k]);
        assert(fixed_digits(v as nat, w as nat).take(k + 1) =~= fixed_digits(v as nat, w as nat).take(k as int).push(
            low@[w - 1 - k],
        ));
        k = k + 1;
    }
    assert(fixed_digits(v as nat, w as nat).take(w as int) =~= fixed_digits(v as nat, w as nat));
}

/// One 20-byte entry of a table: the ten digits of `a`, the five of
/// `gen`, the kind (`n` in use, `f` free), space, newline (7.5.4).
pub open spec fn table_line(a: nat, gen: nat, kind: u8) -> Seq<u8> {
    fixed_digits(a, 10) + seq![32u8] + fixed_digits(gen, 5) + seq![32u8, kind, 32u8, 10u8]
}

fn push_table_line(out: &mut Vec<u8>, a: u64, gen: u16, kind: u8)
    ensures
        final(out)@ == old(out)@ + table_line(a as nat, gen as nat, kind),
{
    let ghost start = out@;
    push_fixed_digits(out, a, 10);
    out.push(32);
    push_fixed_digits(out, gen as u64, 5);
    out.push(32);
    out.push(kind);
    out.push(32);
    out.push(10);
    assert(out@ =~= start + table_line(a as nat, gen as nat, kind));
}

/// Object numbers strictly increasing.
pub open spec fn nums_increasing<T>(s: Seq<(u32, T)>) -> bool {
    forall|i: int, j: int| 0 <= i < j < s.len() ==> (#[trigger] s[i]).0 < (#[trigger] s[j]).0
}

/// What a list keyed by object numbers holds for `n`.
pub open spec fn num_lookup<T>(s: Seq<(u32, T)>, n: u32) -> Option<T>
    decreases s.len(),
{
    if s.len() == 0 {
        None
    } else if s.last().0 == n {
        Some(s.last().1)
    } else {
        num_lookup(s.drop_last(), n)
    }
}

proof fn lemma_num_lookup<T>(s: Seq<(u32, T)>, n: u32)
    ensures
        (forall|j: int| 0 <= j < s.len() ==> (#[trigger] s[j]).0 != n) ==> num_lookup(s, n) is None,
        forall|j: int| 0 <= j < s.len() && (#[trigger] s[j]).0 == n && (forall|k: int| j < k < s.len() ==> s[k].0 != n) ==> num_lookup(s, n) == Some(s[j].1),
    decreases s.len(),
{
    if s.len() > 0 {
        lemma_num_lookup(s.drop_last(), n);
        assert forall|j: int| 0 <= j < s.len() - 1 implies #[trigger] s.drop_last()[j] == s[j] by {}
        assert forall|j: int| 0 <= j < s.len() && (#[trigger] s[j]).0 == n && (forall|k: int| j < k < s.len() ==> s[k].0 != n) implies num_lookup(s, n) == Some(s[j].1) by {
            if j < s.len() - 1 {
                assert(s[s.len() - 1].0 != n);
                assert(s.drop_last()[j] == s[j]);
                assert forall|k: int| j < k < s.drop_last().len() implies s.drop_last()[k].0 != n by {
                    assert(s.drop_last()[k] == s[k]);
                }
            }
        }
    }
}

/// With increasing numbers, the entry at `j` is what the list holds for
/// its number.
proof fn lemma_num_lookup_at<T>(s: Seq<(u32, T)>, j: int)
    requires
        nums_increasing(s),
        0 <= j < s.len(),
    ensures
        num_lookup(s, s[j].0) == Some(s[j].1),
{
    lemma_num_lookup(s, s[j].0);
    assert forall|k: int| j < k < s.len() implies s[k].0 != s[j].0 by {
        assert(s[j].0 < s[k].0);
    }
}

/// The generation of a free entry: 65535 for object 0, else what the
/// source declared, else 0.
pub open spec fn free_gen(free: Seq<(u32, u16)>, n: nat) -> u16 {
    if n == 0 {
        FREE_HEAD_GEN
    } else {
        match num_lookup(free, n as u32) {
            Some(g) => g,
            None => 0,
        }
    }
}

/// The first free number from `m` on, below `size`; 0 when there is none
/// (the end of the free list links back to object 0).
pub open spec fn next_free_from(w: Seq<(u32, (usize, u16))>, m: nat, size: nat) -> nat
    decreases size - m,
{
    if m >= size {
        0
    } else if num_lookup(w, m as u32) is None {
        m
    } else {
        next_free_from(w, m + 1, size)
    }
}

/// Entry `n` of the table: where the object is, or the next free number.
pub open spec fn table_row(w: Seq<(u32, (usize, u16))>, free: Seq<(u32, u16)>, size: nat, n: nat) -> Seq<u8> {
    match num_lookup(w, n as u32) {
        Some((offset, gen)) => table_line(offset as nat, gen as nat, 110u8),
        None => table_line(next_free_from(w, n + 1, size), free_gen(free, n) as nat, 102u8),
    }
}

/// Entries `0` to `k - 1`.
pub open spec fn table_rows(w: Seq<(u32, (usize, u16))>, free: Seq<(u32, u16)>, size: nat, k: nat) -> Seq<u8>
    decreases k,
{
    if k == 0 {
        Seq::empty()
    } else {
        table_rows(w, free, size, (k - 1) as nat) + table_row(w, free, size, (k - 1) as nat)
    }
}

/// One more than the highest written number; 1 when nothing is written.
pub open spec fn table_size(w: Seq<(u32, (usize, u16))>) -> nat {
    if w.len() == 0 {
        1
    } else {
        (w.last().0 + 1) as nat
    }
}

/// Written objects, numbered from 1 in increasing order.
pub open spec fn written_ok(w: Seq<(u32, (usize, u16))>) -> bool {
    nums_increasing(w) && forall|i: int| 0 <= i < w.len() ==> (#[trigger] w[i]).0 >= 1
}

/// The refusal of a numbering too sparse for a table.
pub open spec fn sparse_message(padding: nat) -> Seq<char> {
    "object numbers too sparse for a single cross-reference subsection ("@ + crate::text::decimal(padding)
        + " filler entries); use the cross-reference stream style"@
}

/// The classic table and trailer (7.5.4, 7.5.5): one subsection from 0,
/// free entries linked in increasing order, the trailer with `/Size`.
pub open spec fn table_bytes(w: Seq<(u32, (usize, u16))>, free: Seq<(u32, u16)>, trailer: Seq<(Seq<u8>, ObjectView)>) -> Result<Seq<u8>, WriteFailure> {
    let size = table_size(w);
    let padding = (size - 1 - w.len()) as nat;
    if padding > MAX_TABLE_PADDING {
        Err(WriteFailure::Unwritable(sparse_message(padding)))
    } else if exists|i: int| 0 <= i < w.len() && (#[trigger] w[i]).1.0 > MAX_TABLE_OFFSET {
        Err(WriteFailure::Unwritable("object offset beyond the ten digits of a table entry"@))
    } else {
        match object_bytes(ObjectView::Dict(dict_insert(trailer, "Size".spec_bytes(), ObjectView::Integer(size as i64))), 0) {
            Err(f) => Err(f),
            Ok(t) => Ok(
                "xref\n0 ".spec_bytes() + decimal_bytes(size) + seq![10u8] + table_rows(w, free, size, size)
                    + "trailer\n".spec_bytes() + t + seq![10u8],
            ),
        }
    }
}

/// `r`, with `out` before and after the call, is what `x` says: the
/// section written from where `out` ended, or the error.
pub open spec fn placed(r: Result<usize, Error>, before: Seq<u8>, after: Seq<u8>, x: Result<Seq<u8>, WriteFailure>) -> bool {
    match x {
        Ok(b) => r == Ok::<usize, Error>(before.len() as usize) && after == before + b,
        Err(WriteFailure::TooDeep) => r == Err::<usize, Error>(Error::TooDeep),
        Err(WriteFailure::Unwritable(m)) => r matches Err(Error::Unwritable { message }) && message@ == m,
    }
}

proof fn lemma_next_free_step(w: Seq<(u32, (usize, u16))>, m: nat, size: nat)
    requires
        m < size,
    ensures
        next_free_from(w, m, size) == if num_lookup(w, m as u32) is None { m } else { next_free_from(w, m + 1, size) },
{
}

/// Classic table and trailer (see [`table_bytes`]). Returns the offset of
/// `xref`.
fn write_table(out: &mut Vec<u8>, written: &Vec<(u32, (usize, u16))>, free: &Vec<(u32, u16)>, trailer: Dict) -> (r: Result<usize, Error>)
    requires
        written_ok(written@),
        nums_increasing(free@),
    ensures
        placed(r, old(out)@, final(out)@, table_bytes(written@, free@, trailer@)),
{
    let ghost w = written@;
    let ghost fr = free@;
    let size: u64 = if written.len() == 0 {
        1
    } else {
        written[written.len() - 1].0 as u64 + 1
    };
    proof {
        // Numbers from 1, strictly increasing: at most `size - 1` of them.
        if w.len() > 0 {
            assert forall|i: int| 0 <= i < w.len() implies w[i].0 >= i + 1 by {
                lemma_num_at_least(w, i);
            }
            assert(w.last().0 >= w.len());
        }
    }
    let padding: u64 = size - 1 - written.len() as u64;
    assert(size == table_size(w));
    if padding > MAX_TABLE_PADDING as u64 {
        let mut m = crate::text::string_of("object numbers too sparse for a single cross-reference subsection (");
        crate::text::push_decimal(&mut m, padding);
        crate::text::push_str(&mut m, " filler entries); use the cross-reference stream style");
        return Err(Error::Unwritable { message: m });
    }
    let mut i: usize = 0;
    while i < written.len()
        invariant
            i <= written@.len(),
            w == written@,
            size == table_size(w),
            !((table_size(w) - 1 - w.len()) as nat > MAX_TABLE_PADDING),
            forall|j: int| 0 <= j < i ==> (#[trigger] w[j]).1.0 <= MAX_TABLE_OFFSET,
        decreases written@.len() - i,
    {
        if written[i].1.0 as u64 > MAX_TABLE_OFFSET {
            assert(w[i as int].1.0 > MAX_TABLE_OFFSET);
            assert(size == table_size(w));
            assert(!((table_size(w) - 1 - w.len()) as nat > MAX_TABLE_PADDING));
            assert(exists|i: int| 0 <= i < w.len() && (#[trigger] w[i]).1.0 > MAX_TABLE_OFFSET);
            return Err(unwritable("object offset beyond the ten digits of a table entry"));
        }
        i = i + 1;
    }
    // The number that follows each one in the free list, from the top.
    let mut links: Vec<u64> = Vec::new();
    let mut k: u64 = 0;
    while k < size
        invariant
            k <= size,
            size <= 4294967296,
            links@.len() == k,
        decreases size - k,
    {
        links.push(0);
        k = k + 1;
    }
    let mut next: u64 = 0;
    let mut n: u64 = size;
    let mut p: usize = written.len();
    while n > 0
        invariant
            n <= size,
            size == table_size(w),
            size <= 4294967296,
            w == written@,
            written_ok(w),
            links@.len() == size,
            p <= w.len(),
            forall|j: int| p <= j < w.len() ==> (#[trigger] w[j]).0 >= n,
            forall|j: int| 0 <= j < p ==> (#[trigger] w[j]).0 < n,
            next == next_free_from(w, n as nat, size as nat),
            forall|t: int| n <= t < size ==> #[trigger] links@[t] == next_free_from(w, (t + 1) as nat, size as nat),
        decreases n,
    {
        n = n - 1;
        links.set(n as usize, next);
        let taken = p > 0 && written[p - 1].0 as u64 == n;
        proof {
            lemma_num_lookup(w, n as u32);
            if taken {
                lemma_num_lookup_at(w, p - 1);
            } else {
                assert forall|j: int| 0 <= j < w.len() implies (#[trigger] w[j]).0 != n as u32 by {
                    if j < p - 1 {
                        assert(w[j].0 < w[p - 1].0);
                    }
                }
            }
            lemma_next_free_step(w, n as nat, size as nat);
        }
        if taken {
            p = p - 1;
        } else {
            next = n;
        }
    }
    let ghost start = out@;
    let xref_pos = out.len();
    push_text(out, "xref\n0 ");
    push_decimal_bytes(out, size);
    out.push(10);
    let ghost head = out@;
    let mut num: u64 = 0;
    let mut q: usize = 0;
    let mut fp: usize = 0;
    while num < size
        invariant
            fp <= fr.len(),
            forall|j: int| 0 <= j < fp ==> (#[trigger] fr[j]).0 < num,
            num <= size,
            size == table_size(w),
            size <= 4294967296,
            w == written@,
            fr == free@,
            written_ok(w),
            nums_increasing(fr),
            links@.len() == size,
            forall|t: int| 0 <= t < size ==> #[trigger] links@[t] == next_free_from(w, (t + 1) as nat, size as nat),
            forall|j: int| 0 <= j < w.len() ==> (#[trigger] w[j]).1.0 <= MAX_TABLE_OFFSET,
            q <= w.len(),
            forall|j: int| q <= j < w.len() ==> (#[trigger] w[j]).0 >= num,
            forall|j: int| 0 <= j < q ==> (#[trigger] w[j]).0 < num,
            out@ == head + table_rows(w, fr, size as nat, num as nat),
        decreases size - num,
    {
        proof { lemma_num_lookup(w, num as u32); }
        if q < written.len() && written[q].0 as u64 == num {
            proof { lemma_num_lookup_at(w, q as int); }
            let (_, (offset, gen)) = written[q];
            push_table_line(out, offset as u64, gen, 110);
            q = q + 1;
        } else {
            proof {
                assert forall|j: int| 0 <= j < w.len() implies (#[trigger] w[j]).0 != num as u32 by {
                    if j > q {
                        assert(w[q as int].0 < w[j].0);
                    }
                }
            }
            while fp < free.len() && (free[fp].0 as u64) < num
                invariant
                    fp <= fr.len(),
                    fr == free@,
                    forall|j: int| 0 <= j < fp ==> (#[trigger] fr[j]).0 < num,
                decreases fr.len() - fp,
            {
                fp = fp + 1;
            }
            proof {
                lemma_num_lookup(fr, num as u32);
                if fp < fr.len() && fr[fp as int].0 == num as u32 {
                    lemma_num_lookup_at(fr, fp as int);
                } else {
                    assert forall|j: int| 0 <= j < fr.len() implies (#[trigger] fr[j]).0 != num as u32 by {
                        if j > fp {
                            assert(fr[fp as int].0 < fr[j].0);
                        }
                    }
                }
            }
            let gen = if num == 0 {
                FREE_HEAD_GEN
            } else if fp < free.len() && free[fp].0 as u64 == num {
                free[fp].1
            } else {
                0
            };
            push_table_line(out, links[num as usize], gen, 102);
        }
        num = num + 1;
    }
    let ghost source = trailer@;
    let mut trailer = trailer;
    trailer.insert(Name::new("Size"), Object::Integer(size as i64));
    push_text(out, "trailer\n");
    match write_dict(&trailer, out, 0) {
        Err(e) => {
            return Err(e);
        },
        Ok(()) => {},
    }
    out.push(10);
    proof {
        let t = object_bytes(ObjectView::Dict(trailer@), 0)->Ok_0;
        assert(out@ =~= start + ("xref\n0 ".spec_bytes() + decimal_bytes(size as nat) + seq![10u8]
            + table_rows(w, fr, size as nat, size as nat) + "trailer\n".spec_bytes() + t + seq![10u8]));
    }
    Ok(xref_pos)
}

proof fn lemma_num_at_least(w: Seq<(u32, (usize, u16))>, i: int)
    requires
        written_ok(w),
        0 <= i < w.len(),
    ensures
        w[i].0 >= i + 1,
    decreases i,
{
    if i > 0 {
        lemma_num_at_least(w, i - 1);
        assert(w[i - 1].0 < w[i].0);
    }
}

// ---------------------------------------------------------------------------
// The cross-reference stream
// ---------------------------------------------------------------------------

/// What `flate2::write::ZlibEncoder` at `Compression::best()` makes of
/// `data`.
pub uninterp spec fn zlib_deflated(data: Seq<u8>) -> Seq<u8>;

/// `data` written to a `flate2::write::ZlibEncoder` over a vector at
/// `Compression::best()` with `write_all`, then `finish`. Trusted: the
/// result is `zlib_deflated(data)`. Both calls succeed: the encoder's only
/// source of errors is its inner writer, and writing to a vector does not
/// fail. The result is a zlib stream (RFC 1950), so it starts with a
/// method byte whose low four bits are 8 (deflate), and `flate2`'s zlib
/// decoder gives `data` back from it, without error, when it may read at
/// least as many bytes as `data` holds.
#[verifier::external_body]
fn zlib_compress(data: &[u8]) -> (r: Result<Vec<u8>, String>)
    ensures
        r is Ok,
        r matches Ok(d) ==> d@ == zlib_deflated(data@),
        r matches Ok(d) ==> d@.len() > 0 && d@[0] % 16 == 8,
        r matches Ok(d) ==> forall|cap: nat|
            cap >= data@.len() ==> #[trigger] crate::filters::zlib_inflated(d@, cap) == (data@, false),
{
    let mut encoder = flate2::write::ZlibEncoder::new(Vec::new(), flate2::Compression::best());
    match std::io::Write::write_all(&mut encoder, data) {
        Ok(()) => {},
        Err(e) => return Err(format!("{e}")),
    }
    match encoder.finish() {
        Ok(d) => Ok(d),
        Err(e) => Err(format!("{e}")),
    }
}

/// The last `w` bytes of `v` big-endian.
pub open spec fn be_bytes(v: nat, w: nat) -> Seq<u8> {
    Seq::new(w, |i: int| ((v / pow256((w - 1 - i) as nat)) % 256) as u8)
}

/// One row of a cross-reference stream: the type, the second field on
/// `ow` bytes, the generation on two (7.5.8.3, table 18).
pub open spec fn stream_row(kind: u8, field2: nat, gen: nat, ow: nat) -> Seq<u8> {
    seq![kind] + be_bytes(field2, ow) + be_bytes(gen, 2)
}

/// The rows of the written objects, in use at their offsets.
pub open spec fn stream_rows(w: Seq<(u32, (usize, u16))>, ow: nat) -> Seq<u8>
    decreases w.len(),
{
    if w.len() == 0 {
        Seq::empty()
    } else {
        stream_rows(w.drop_last(), ow) + stream_row(1, w.last().1.0 as nat, w.last().1.1 as nat, ow)
    }
}

/// The number of the cross-reference stream: one past the highest written
/// object; none when no number is left.
pub open spec fn xref_stream_num(w: Seq<(u32, (usize, u16))>) -> Option<u32> {
    let max: u32 = if w.len() == 0 {
        0
    } else {
        w.last().0
    };
    if max == u32::MAX {
        None
    } else {
        Some((max + 1) as u32)
    }
}

/// All rows: object 0 free, the written objects, the stream itself at
/// `at`.
pub open spec fn xref_rows(w: Seq<(u32, (usize, u16))>, at: nat) -> Seq<u8> {
    let ow = bytes_for(at);
    stream_row(0, 0, FREE_HEAD_GEN as nat, ow) + stream_rows(w, ow) + stream_row(1, at, 0, ow)
}

/// One more number in a list of runs `(first, count)`.
pub open spec fn run_step(runs: Seq<(nat, nat)>, n: nat) -> Seq<(nat, nat)> {
    if runs.len() > 0 && runs.last().0 + runs.last().1 == n {
        runs.update(runs.len() - 1, (runs.last().0, runs.last().1 + 1))
    } else {
        runs.push((n, 1))
    }
}

/// The runs of consecutive numbers of `nums`, in order.
pub open spec fn runs_of(nums: Seq<nat>) -> Seq<(nat, nat)>
    decreases nums.len(),
{
    if nums.len() == 0 {
        Seq::empty()
    } else {
        run_step(runs_of(nums.drop_last()), nums.last())
    }
}

/// The numbers a cross-reference stream lists: 0, the written objects,
/// the stream itself.
pub open spec fn listed_nums(w: Seq<(u32, (usize, u16))>, num: u32) -> Seq<nat> {
    seq![0nat] + w.map_values(|e: (u32, (usize, u16))| e.0 as nat) + seq![num as nat]
}

/// `/Index`: each run as its first number and its count.
pub open spec fn index_items(runs: Seq<(nat, nat)>) -> Seq<ObjectView> {
    Seq::new(
        2 * runs.len(),
        |i: int|
            if i % 2 == 0 {
                ObjectView::Integer(runs[i / 2].0 as i64)
            } else {
                ObjectView::Integer(runs[i / 2].1 as i64)
            },
    )
}

/// The stream's dictionary: the trailer entries, with `/Type /XRef`,
/// `/Size`, `/W`, `/Index` and `/Filter /FlateDecode`.
pub open spec fn xref_stream_dict(w: Seq<(u32, (usize, u16))>, trailer: Seq<(Seq<u8>, ObjectView)>, at: nat, num: u32) -> Seq<(Seq<u8>, ObjectView)> {
    let t1 = dict_insert(trailer, "Type".spec_bytes(), ObjectView::Name("XRef".spec_bytes()));
    let t2 = dict_insert(t1, "Size".spec_bytes(), ObjectView::Integer((num + 1) as i64));
    let t3 = dict_insert(
        t2,
        "W".spec_bytes(),
        ObjectView::Array(seq![ObjectView::Integer(1), ObjectView::Integer(bytes_for(at) as i64), ObjectView::Integer(2)]),
    );
    let t4 = dict_insert(t3, "Index".spec_bytes(), ObjectView::Array(index_items(runs_of(listed_nums(w, num)))));
    dict_insert(t4, "Filter".spec_bytes(), ObjectView::Name("FlateDecode".spec_bytes()))
}

/// Append the last `w` bytes of `v` big-endian.
fn push_be(out: &mut Vec<u8>, v: u64, w: usize)
    ensures
        final(out)@ == old(out)@ + be_bytes(v as nat, w as nat),
{
    let mut low: Vec<u8> = Vec::new();
    let mut a = v;
    let mut i: usize = 0;
    assert(pow256(0) == 1);
    assert(v as nat / pow256(0) == v as nat);
    while i < w
        invariant
            i <= w,
            low@.len() == i,
            a as nat == v as nat / pow256(i as nat),
            forall|j: int| 0 <= j < i ==> #[trigger] low@[j] == ((v as nat / pow256(j as nat)) % 256) as u8,
        decreases w - i,
    {
        proof { lemma_div_pow256(v as nat, i as nat); }
        low.push((a % 256) as u8);
        a = a / 256;
        i = i + 1;
    }
    let ghost start = out@;
    let mut k: usize = 0;
    while k < w
        invariant
            k <= w,
            low@.len() == w,
            forall|j: int| 0 <= j < w ==> #[trigger] low@[j] == ((v as nat / pow256(j as nat)) % 256) as u8,
            out@ == start + be_bytes(v as nat, w as nat).take(k as int),
        decreases w - k,
    {
        out.push(low[w - 1 - k]);
        assert(be_bytes(v as nat, w as nat).take(k + 1) =~= be_bytes(v as nat, w as nat).take(k as int).push(
            low@[w - 1 - k],
        ));
        k = k + 1;
    }
    assert(be_bytes(v as nat, w as nat).take(w as int) =~= be_bytes(v as nat, w as nat));
}

fn push_stream_row(rows: &mut Vec<u8>, kind: u8, field2: u64, gen: u16, ow: usize)
    ensures
        final(rows)@ == old(rows)@ + stream_row(kind, field2 as nat, gen as nat, ow as nat),
{
    let ghost start = rows@;
    rows.push(kind);
    push_be(rows, field2, ow);
    push_be(rows, gen as u64, 2);
    assert(rows@ =~= start + stream_row(kind, field2 as nat, gen as nat, ow as nat));
}

/// Runs as numbers.
pub open spec fn runs_view(r: Seq<(u64, u64)>) -> Seq<(nat, nat)> {
    r.map_values(|e: (u64, u64)| (e.0 as nat, e.1 as nat))
}

/// One more number in the runs (see [`run_step`]).
fn push_run(runs: &mut Vec<(u64, u64)>, n: u64)
    requires
        n <= 4294967296,
        forall|i: int| 0 <= i < old(runs)@.len() ==> (#[trigger] old(runs)@[i]).0 + old(runs)@[i].1 <= n,
    ensures
        runs_view(final(runs)@) == run_step(runs_view(old(runs)@), n as nat),
        forall|i: int| 0 <= i < final(runs)@.len() ==> (#[trigger] final(runs)@[i]).0 + final(runs)@[i].1 <= n + 1,
{
    let len = runs.len();
    if len > 0 && runs[len - 1].1 == n - runs[len - 1].0 {
        let (start, count) = runs[len - 1];
        runs.set(len - 1, (start, count + 1));
        assert(runs_view(runs@) =~= run_step(runs_view(old(runs)@), n as nat));
    } else {
        runs.push((n, 1));
        assert(runs_view(runs@) =~= run_step(runs_view(old(runs)@), n as nat));
    }
}

/// Cross-reference stream (7.5.8), as the last object, listing itself.
/// Returns its offset. Only object numbers in use are listed (`/Index`
/// runs); numbers left out are free.
fn write_xref_stream(out: &mut Vec<u8>, written: &Vec<(u32, (usize, u16))>, trailer: Dict) -> (r: Result<usize, Error>)
    requires
        written_ok(written@),
    ensures
        match xref_stream_num(written@) {
            None => r matches Err(Error::Unwritable { message }) && message@ == "no object number left for the cross-reference stream"@,
            Some(num) => placed(
                r,
                old(out)@,
                final(out)@,
                indirect_bytes(
                    ObjRef { num, gen: 0 },
                    ObjectView::Stream(
                        xref_stream_dict(written@, trailer@, old(out)@.len(), num),
                        zlib_deflated(xref_rows(written@, old(out)@.len())),
                    ),
                ),
            ),
        },
{
    let ghost w = written@;
    let max: u32 = if written.len() == 0 {
        0
    } else {
        written[written.len() - 1].0
    };
    if max == u32::MAX {
        return Err(unwritable("no object number left for the cross-reference stream"));
    }
    let num = max + 1;
    let xref_pos = out.len();
    let ow = bytes_needed(xref_pos);
    let mut rows: Vec<u8> = Vec::new();
    let mut runs: Vec<(u64, u64)> = Vec::new();
    push_stream_row(&mut rows, 0, 0, FREE_HEAD_GEN, ow);
    push_run(&mut runs, 0);
    let ghost head = rows@;
    let ghost nums = listed_nums(w, num);
    assert(nums.take(1) =~= seq![0nat]);
    assert(runs_of(seq![0nat]) == run_step(runs_of(seq![0nat].drop_last()), 0nat));
    assert(seq![0nat].drop_last() =~= Seq::<nat>::empty());
    let mut k: usize = 0;
    while k < written.len()
        invariant
            k <= w.len(),
            w == written@,
            written_ok(w),
            ow == bytes_for(xref_pos as nat),
            nums == listed_nums(w, num),
            num == xref_stream_num(w)->Some_0,
            head == stream_row(0, 0, FREE_HEAD_GEN as nat, ow as nat),
            rows@ == head + stream_rows(w.take(k as int), ow as nat),
            runs_view(runs@) == runs_of(nums.take(k + 1)),
            forall|i: int| 0 <= i < runs@.len() ==> (#[trigger] runs@[i]).0 + runs@[i].1 <= (if k == 0 { 1 } else { w[k - 1].0 + 1 }),
        decreases w.len() - k,
    {
        let (n, (offset, gen)) = written[k];
        push_stream_row(&mut rows, 1, offset as u64, gen, ow);
        proof {
            assert(w.take(k + 1).drop_last() =~= w.take(k as int));
            if k > 0 {
                assert(w[k - 1].0 < w[k as int].0);
            }
        }
        push_run(&mut runs, n as u64);
        proof {
            assert(nums.take(k + 2).drop_last() =~= nums.take(k + 1));
            assert(nums.take(k + 2).last() == n as nat);
        }
        k = k + 1;
    }
    assert(w.take(w.len() as int) =~= w);
    push_stream_row(&mut rows, 1, xref_pos as u64, 0, ow);
    proof {
        if w.len() > 0 {
            assert(w.last().0 == max);
        }
    }
    push_run(&mut runs, num as u64);
    proof {
        assert(nums.take(w.len() as int + 2) =~= nums);
        assert(nums.take(w.len() as int + 2).drop_last() =~= nums.take(w.len() as int + 1));
        assert(rows@ =~= xref_rows(w, xref_pos as nat));
    }
    let data = match zlib_compress(rows.as_slice()) {
        Ok(d) => d,
        Err(e) => {
            let mut m = crate::text::string_of("compressing the cross-reference stream: ");
            crate::text::push_str(&mut m, e.as_str());
            return Err(Error::Unwritable { message: m });
        },
    };
    let ghost rv = runs_view(runs@);
    let mut index: Vec<Object> = Vec::new();
    let mut j: usize = 0;
    while j < runs.len()
        invariant
            j <= runs@.len(),
            rv == runs_view(runs@),
            forall|i: int| 0 <= i < runs@.len() ==> (#[trigger] runs@[i]).0 + runs@[i].1 <= num + 1,
            index@.len() == 2 * j,
            forall|i: int| 0 <= i < 2 * j ==> #[trigger] index@[i]@ == index_items(rv)[i],
        decreases runs@.len() - j,
    {
        let (start, count) = runs[j];
        index.push(Object::Integer(start as i64));
        index.push(Object::Integer(count as i64));
        j = j + 1;
    }
    proof {
        crate::object::lemma_items_view(index@);
        assert(rv.len() == runs@.len());
        assert(index_items(rv).len() == index@.len());
        assert forall|i: int| 0 <= i < index@.len() implies items_view(index@)[i] == index_items(rv)[i] by {
            assert(index@[i]@ == index_items(rv)[i]);
        }
        assert(items_view(index@) =~= index_items(rv));
    }
    let mut widths: Vec<Object> = Vec::new();
    widths.push(Object::Integer(1));
    widths.push(Object::Integer(ow as i64));
    widths.push(Object::Integer(2));
    proof {
        crate::object::lemma_items_view(widths@);
        assert(items_view(widths@) =~= seq![ObjectView::Integer(1), ObjectView::Integer(bytes_for(xref_pos as nat) as i64), ObjectView::Integer(2)]);
    }
    let mut dict = trailer;
    dict.insert(Name::new("Type"), Object::Name(Name::new("XRef")));
    dict.insert(Name::new("Size"), Object::Integer(num as i64 + 1));
    dict.insert(Name::new("W"), Object::Array(widths));
    dict.insert(Name::new("Index"), Object::Array(index));
    dict.insert(Name::new("Filter"), Object::Name(Name::new("FlateDecode")));
    let stream = Object::Stream { dict, data };
    match write_indirect(out, ObjRef { num, gen: 0 }, &stream) {
        Err(e) => Err(e),
        Ok(()) => Ok(xref_pos),
    }
}

// ---------------------------------------------------------------------------
// The trailer and the whole file
// ---------------------------------------------------------------------------

/// `obj`, when it is a reference to a written object with that
/// generation.
pub open spec fn points_to_written(w: Seq<(u32, (usize, u16))>, o: Option<ObjectView>) -> Option<ObjRef> {
    match o {
        Some(ObjectView::Reference(r)) => match num_lookup(w, r.num) {
            Some((_, g)) => if g == r.gen {
                Some(r)
            } else {
                None
            },
            None => None,
        },
        _ => None,
    }
}

/// The first string of the source's `/ID` when it is a non-empty string,
/// else `fresh` (14.4: it identifies the document for life).
pub open spec fn permanent_id(source: Seq<(Seq<u8>, ObjectView)>, fresh: Seq<u8>) -> Seq<u8> {
    match dict_get(source, "ID".spec_bytes()) {
        Some(ObjectView::Array(items)) => if items.len() > 0 {
            match items[0] {
                ObjectView::String(s) => if s.len() > 0 {
                    s
                } else {
                    fresh
                },
                _ => fresh,
            }
        } else {
            fresh
        },
        _ => fresh,
    }
}

/// The trailer entries of table 15 that describe the document rather
/// than the file: `/Root` (or `promoted`, the object made out of a direct
/// catalog), `/Info` when it leads to a written object, and `/ID` with
/// the permanent identifier and `fresh`. None when `/Root` leads nowhere.
#[verifier::opaque]
pub open spec fn trailer_of(source: Seq<(Seq<u8>, ObjectView)>, w: Seq<(u32, (usize, u16))>, fresh: Seq<u8>, promoted: Option<ObjRef>) -> Option<Seq<(Seq<u8>, ObjectView)>> {
    let root = match promoted {
        Some(r) => Some(r),
        None => points_to_written(w, dict_get(source, "Root".spec_bytes())),
    };
    match root {
        None => None,
        Some(root) => {
            let t1 = dict_insert(Seq::empty(), "Root".spec_bytes(), ObjectView::Reference(root));
            let t2 = match points_to_written(w, dict_get(source, "Info".spec_bytes())) {
                Some(i) => dict_insert(t1, "Info".spec_bytes(), ObjectView::Reference(i)),
                None => t1,
            };
            Some(
                dict_insert(
                    t2,
                    "ID".spec_bytes(),
                    ObjectView::Array(seq![ObjectView::String(permanent_id(source, fresh)), ObjectView::String(fresh)]),
                ),
            )
        },
    }
}

/// What a list keyed by numbers holds for `n` (see [`num_lookup`]).
fn find_num<T: Copy>(s: &Vec<(u32, T)>, n: u32) -> (r: Option<T>)
    ensures
        r == num_lookup(s@, n),
{
    let mut k = s.len();
    assert(s@.take(k as int) =~= s@);
    while k > 0
        invariant
            k <= s@.len(),
            num_lookup(s@, n) == num_lookup(s@.take(k as int), n),
        decreases k,
    {
        assert(s@.take(k as int).drop_last() =~= s@.take(k - 1));
        if s[k - 1].0 == n {
            return Some(s[k - 1].1);
        }
        k = k - 1;
    }
    None
}

/// The reference of [`points_to_written`].
fn written_ref(w: &Vec<(u32, (usize, u16))>, o: Option<&Object>) -> (r: Option<ObjRef>)
    ensures
        r == points_to_written(
            w@,
            match o {
                Some(x) => Some(x@),
                None => None,
            },
        ),
{
    match o {
        Some(Object::Reference(x)) => match find_num(w, x.num) {
            Some((_, g)) => if g == x.gen {
                Some(*x)
            } else {
                None
            },
            None => None,
        },
        _ => None,
    }
}

/// The trailer of the output (see [`trailer_of`]).
fn build_trailer(source: &Dict, w: &Vec<(u32, (usize, u16))>, fresh: &[u8], promoted: Option<ObjRef>) -> (r: Result<Dict, Error>)
    ensures
        match trailer_of(source@, w@, fresh@, promoted) {
            Some(t) => r matches Ok(d) && d@ == t,
            None => r matches Err(Error::Unwritable { message }) && message@ == "the trailer's /Root does not lead to a written object"@,
        },
{
    reveal(trailer_of);
    let root = match promoted {
        Some(x) => Some(x),
        None => written_ref(w, source.get(&Name::new("Root"))),
    };
    let root = match root {
        Some(x) => x,
        None => return Err(unwritable("the trailer's /Root does not lead to a written object")),
    };
    let mut trailer = Dict::new();
    trailer.insert(Name::new("Root"), Object::Reference(root));
    match written_ref(w, source.get(&Name::new("Info"))) {
        Some(info) => trailer.insert(Name::new("Info"), Object::Reference(info)),
        None => {},
    }
    let fresh_v = crate::bytes::to_vec(fresh);
    let permanent = match source.get(&Name::new("ID")) {
        Some(Object::Array(items)) => {
            proof { crate::object::lemma_items_view(items@); }
            if items.len() > 0 {
                match &items[0] {
                    Object::String(s) => if s.len() > 0 {
                        crate::bytes::to_vec(s.as_slice())
                    } else {
                        crate::bytes::to_vec(fresh)
                    },
                    _ => crate::bytes::to_vec(fresh),
                }
            } else {
                crate::bytes::to_vec(fresh)
            }
        },
        _ => crate::bytes::to_vec(fresh),
    };
    let mut id: Vec<Object> = Vec::new();
    id.push(Object::String(permanent));
    id.push(Object::String(fresh_v));
    proof {
        crate::object::lemma_items_view(id@);
        assert(items_view(id@) =~= seq![ObjectView::String(permanent_id(source@, fresh@)), ObjectView::String(fresh@)]);
    }
    trailer.insert(Name::new("ID"), Object::Array(id));
    Ok(trailer)
}

/// Object streams and cross-reference streams hold the old file's
/// layout, not document content.
pub open spec fn describes_layout(o: ObjectView) -> bool {
    match o {
        ObjectView::Stream(d, _) => type_name_is(d, "ObjStm".spec_bytes()) || type_name_is(d, "XRef".spec_bytes()),
        _ => false,
    }
}

/// `/Type` is the name `what`.
pub open spec fn type_name_is(d: Seq<(Seq<u8>, ObjectView)>, what: Seq<u8>) -> bool {
    crate::object::dict_get(d, "Type".spec_bytes()) == Some(ObjectView::Name(what))
}

/// Whether `obj` is an object stream or a cross-reference stream (see
/// [`describes_layout`]).
pub fn describes_file_layout(obj: &Object) -> (b: bool)
    ensures
        b == describes_layout(obj@),
{
    match obj {
        Object::Stream { dict, .. } => match dict.get(&Name::new("Type")) {
            Some(Object::Name(n)) => crate::bytes::bytes_eq(n.0.as_slice(), Name::new("ObjStm").0.as_slice())
                || crate::bytes::bytes_eq(n.0.as_slice(), Name::new("XRef").0.as_slice()),
            _ => false,
        },
        _ => false,
    }
}

/// `%PDF-x.y`, newline, and a comment of four bytes above 127 so that
/// transfer software treats the file as binary (7.5.2).
pub open spec fn header_bytes(v: PdfVersion) -> Seq<u8> {
    "%PDF-".spec_bytes() + decimal_bytes(v.major as nat) + seq![46u8] + decimal_bytes(v.minor as nat) + seq![10u8]
        + seq![0x25u8, 0xE2u8, 0xE3u8, 0xCFu8, 0xD3u8, 0x0Au8]
}

/// The objects written one after the other from `start`: the bytes, and
/// each number with its offset and generation.
pub open spec fn laid_out(start: Seq<u8>, objs: Seq<(ObjRef, ObjectView)>) -> Result<(Seq<u8>, Seq<(u32, (usize, u16))>), WriteFailure>
    decreases objs.len(),
{
    if objs.len() == 0 {
        Ok((start, Seq::empty()))
    } else {
        match laid_out(start, objs.drop_last()) {
            Err(f) => Err(f),
            Ok((body, w)) => match indirect_bytes(objs.last().0, objs.last().1) {
                Err(f) => Err(f),
                Ok(b) => Ok((body + b, w.push((objs.last().0.num, (body.len() as usize, objs.last().0.gen))))),
            },
        }
    }
}

/// A catalog written directly in the trailer (tolerated on reading)
/// becomes an indirect object after the others: the standard wants a
/// reference (7.5.5).
#[verifier::opaque]
pub open spec fn with_root(source: Seq<(Seq<u8>, ObjectView)>, body: Seq<u8>, w: Seq<(u32, (usize, u16))>) -> Result<(Seq<u8>, Seq<(u32, (usize, u16))>, Option<ObjRef>), WriteFailure> {
    match dict_get(source, "Root".spec_bytes()) {
        Some(ObjectView::Dict(root)) => {
            let max: u32 = if w.len() == 0 {
                0
            } else {
                w.last().0
            };
            if max == u32::MAX {
                Err(WriteFailure::Unwritable("no object number left for the catalog"@))
            } else {
                let r = ObjRef { num: (max + 1) as u32, gen: 0 };
                match indirect_bytes(r, ObjectView::Dict(root)) {
                    Err(f) => Err(f),
                    Ok(b) => Ok((body + b, w.push((r.num, (body.len() as usize, 0u16))), Some(r))),
                }
            }
        },
        _ => Ok((body, w, None)),
    }
}

/// The cross-reference section in the chosen style, starting at `at`.
#[verifier::opaque]
pub open spec fn section_bytes(style: XrefStyle, w: Seq<(u32, (usize, u16))>, free: Seq<(u32, u16)>, trailer: Seq<(Seq<u8>, ObjectView)>, at: nat) -> Result<Seq<u8>, WriteFailure> {
    match style {
        XrefStyle::Table => table_bytes(w, free, trailer),
        XrefStyle::Stream => match xref_stream_num(w) {
            None => Err(WriteFailure::Unwritable("no object number left for the cross-reference stream"@)),
            Some(num) => indirect_bytes(
                ObjRef { num, gen: 0 },
                ObjectView::Stream(xref_stream_dict(w, trailer, at, num), zlib_deflated(xref_rows(w, at))),
            ),
        },
    }
}

/// The whole output: header, the objects, the promoted catalog, the
/// cross-reference section, `startxref` and `%%EOF`. `fresh` is the
/// generated identifier of the content.
pub open spec fn file_bytes(v: PdfVersion, style: XrefStyle, objs: Seq<(ObjRef, ObjectView)>, free: Seq<(u32, u16)>, source: Seq<(Seq<u8>, ObjectView)>, fresh: Seq<u8>) -> Result<Seq<u8>, WriteFailure> {
    match laid_out(header_bytes(v), objs) {
        Err(f) => Err(f),
        Ok((body, w)) => match with_root(source, body, w) {
            Err(f) => Err(f),
            Ok((body2, w2, promoted)) => match trailer_of(source, w2, fresh, promoted) {
                None => Err(WriteFailure::Unwritable("the trailer's /Root does not lead to a written object"@)),
                Some(t) => match section_bytes(style, w2, free, t, body2.len()) {
                    Err(f) => Err(f),
                    Ok(sec) => Ok(
                        body2 + sec + "startxref\n".spec_bytes() + decimal_bytes(body2.len()) + "\n%%EOF\n".spec_bytes(),
                    ),
                },
            },
        },
    }
}

/// Numbers from 1, strictly increasing.
pub open spec fn objects_ok(objs: Seq<(ObjRef, ObjectView)>) -> bool {
    &&& forall|i: int| 0 <= i < objs.len() ==> (#[trigger] objs[i]).0.num >= 1
    &&& forall|i: int, j: int| 0 <= i < j < objs.len() ==> (#[trigger] objs[i]).0.num < (#[trigger] objs[j]).0.num
}

/// The objects as values.
pub open spec fn objects_view(objs: Seq<(ObjRef, Object)>) -> Seq<(ObjRef, ObjectView)> {
    objs.map_values(|e: (ObjRef, Object)| (e.0, e.1@))
}

/// `r` is the outcome `x` describes: the bytes, or the error.
pub open spec fn produced(r: Result<Vec<u8>, Error>, x: Result<Seq<u8>, WriteFailure>) -> bool {
    match x {
        Ok(b) => r matches Ok(out) && out@ == b,
        Err(WriteFailure::TooDeep) => r == Err::<Vec<u8>, Error>(Error::TooDeep),
        Err(WriteFailure::Unwritable(m)) => r matches Err(Error::Unwritable { message }) && message@ == m,
    }
}

proof fn lemma_laid_out_prefix(start: Seq<u8>, objs: Seq<(ObjRef, ObjectView)>)
    requires
        laid_out(start, objs) is Ok,
    ensures
        laid_out(start, objs)->Ok_0.0.len() >= start.len(),
        laid_out(start, objs)->Ok_0.0.take(start.len() as int) == start,
    decreases objs.len(),
{
    if objs.len() > 0 {
        lemma_laid_out_prefix(start, objs.drop_last());
        let body = laid_out(start, objs.drop_last())->Ok_0.0;
        let b = indirect_bytes(objs.last().0, objs.last().1)->Ok_0;
        assert((body + b).take(start.len() as int) =~= body.take(start.len() as int));
    } else {
        assert(start.take(start.len() as int) =~= start);
    }
}

proof fn lemma_with_root_prefix(source: Seq<(Seq<u8>, ObjectView)>, body: Seq<u8>, w: Seq<(u32, (usize, u16))>)
    requires
        with_root(source, body, w) is Ok,
    ensures
        with_root(source, body, w)->Ok_0.0.len() >= body.len(),
        with_root(source, body, w)->Ok_0.0.take(body.len() as int) == body,
{
    reveal(with_root);
    let b2 = with_root(source, body, w)->Ok_0.0;
    assert(b2.take(body.len() as int) =~= body);
}

/// Every file the writer lays out begins with the header of its version
/// (`%PDF-` and the version, then the binary comment) and ends with the
/// `%%EOF` marker on a line of its own.
pub proof fn law_written_file_frame(
    v: PdfVersion,
    style: XrefStyle,
    objs: Seq<(ObjRef, ObjectView)>,
    free: Seq<(u32, u16)>,
    source: Seq<(Seq<u8>, ObjectView)>,
    fresh: Seq<u8>,
)
    requires
        file_bytes(v, style, objs, free, source, fresh) is Ok,
    ensures
        ({
            let b = file_bytes(v, style, objs, free, source, fresh)->Ok_0;
            &&& b.len() >= header_bytes(v).len() + 7
            &&& b.take(header_bytes(v).len() as int) == header_bytes(v)
            &&& b.skip(b.len() - 7) == "\n%%EOF\n".spec_bytes()
        }),
{
    reveal_strlit("\n%%EOF\n");
    assert(vstd::string::is_ascii("\n%%EOF\n"));
    vstd::string::is_ascii_spec_bytes("\n%%EOF\n");
    let h = header_bytes(v);
    lemma_laid_out_prefix(h, objs);
    let (body, w) = laid_out(h, objs)->Ok_0;
    let (body2, w2, promoted) = with_root(source, body, w)->Ok_0;
    let t = trailer_of(source, w2, fresh, promoted)->Some_0;
    let sec = section_bytes(style, w2, free, t, body2.len())->Ok_0;
    let lit = "\n%%EOF\n".spec_bytes();
    let x = body2 + sec + "startxref\n".spec_bytes() + decimal_bytes(body2.len());
    let b = file_bytes(v, style, objs, free, source, fresh)->Ok_0;
    assert(b =~= x + lit);
    lemma_with_root_prefix(source, body, w);
    assert(x.take(h.len() as int) =~= body.take(h.len() as int));
    assert(b.take(h.len() as int) =~= x.take(h.len() as int));
    assert((x + lit).skip(x.len() as int) =~= lit);
}

proof fn lemma_laid_out_err(start: Seq<u8>, objs: Seq<(ObjRef, ObjectView)>, n: int)
    requires
        0 <= n <= objs.len(),
        laid_out(start, objs.take(n)) is Err,
    ensures
        laid_out(start, objs) == laid_out(start, objs.take(n)),
    decreases objs.len() - n,
{
    if n < objs.len() {
        assert(objs.take(n + 1).drop_last() =~= objs.take(n));
        lemma_laid_out_err(start, objs, n + 1);
    } else {
        assert(objs.take(n) =~= objs);
    }
}

proof fn lemma_laid_out_nums(start: Seq<u8>, objs: Seq<(ObjRef, ObjectView)>)
    requires
        objects_ok(objs),
        laid_out(start, objs) is Ok,
    ensures
        laid_out(start, objs)->Ok_0.1.len() == objs.len(),
        forall|i: int| 0 <= i < objs.len() ==> (#[trigger] laid_out(start, objs)->Ok_0.1[i]).0 == objs[i].0.num,
        objs.len() > 0 ==> laid_out(start, objs)->Ok_0.1.last().0 == objs.last().0.num,
        written_ok(laid_out(start, objs)->Ok_0.1),
    decreases objs.len(),
{
    if objs.len() > 0 {
        let p = objs.drop_last();
        assert(objects_ok(p));
        lemma_laid_out_nums(start, p);
    }
}

/// `r` failed as `f` says.
pub open spec fn fails_with<T>(r: Result<T, Error>, f: WriteFailure) -> bool {
    match f {
        WriteFailure::TooDeep => r matches Err(Error::TooDeep),
        WriteFailure::Unwritable(m) => r matches Err(Error::Unwritable { message }) && message@ == m,
    }
}

/// Append the header (see [`header_bytes`]).
fn write_header(out: &mut Vec<u8>, v: PdfVersion)
    ensures
        final(out)@ == old(out)@ + header_bytes(v),
{
    let ghost start = out@;
    push_text(out, "%PDF-");
    push_decimal_bytes(out, v.major as u64);
    out.push(46);
    push_decimal_bytes(out, v.minor as u64);
    out.push(10);
    out.push(0x25);
    out.push(0xE2);
    out.push(0xE3);
    out.push(0xCF);
    out.push(0xD3);
    out.push(0x0A);
    assert(out@ =~= start + header_bytes(v));
}

/// Write the objects one after the other (see [`laid_out`]); gives each
/// number with its offset and generation.
fn write_body(out: &mut Vec<u8>, objects: &Vec<(ObjRef, Object)>) -> (r: Result<Vec<(u32, (usize, u16))>, Error>)
    ensures
        match laid_out(old(out)@, objects_view(objects@)) {
            Ok((b, w)) => r matches Ok(x) && x@ == w && final(out)@ == b,
            Err(f) => fails_with(r, f),
        },
{
    let ghost objs = objects_view(objects@);
    let ghost head = out@;
    let mut written: Vec<(u32, (usize, u16))> = Vec::new();
    let mut k: usize = 0;
    assert(objs.take(0) =~= Seq::<(ObjRef, ObjectView)>::empty());
    while k < objects.len()
        invariant
            k <= objects@.len(),
            objs == objects_view(objects@),
            head == old(out)@,
            laid_out(head, objs.take(k as int)) == Ok::<(Seq<u8>, Seq<(u32, (usize, u16))>), WriteFailure>((out@, written@)),
        decreases objects@.len() - k,
    {
        let r = objects[k].0;
        written.push((r.num, (out.len(), r.gen)));
        proof {
            assert(objs.take(k + 1).drop_last() =~= objs.take(k as int));
            assert(objs[k as int] == (objects@[k as int].0, objects@[k as int].1@));
        }
        match write_indirect(out, r, &objects[k].1) {
            Err(e) => {
                proof {
                    lemma_laid_out_err(head, objs, k as int + 1);
                }
                return Err(e);
            },
            Ok(()) => {},
        }
        k = k + 1;
    }
    assert(objs.take(objects@.len() as int) =~= objs);
    Ok(written)
}

/// Write a catalog found directly in the trailer as an object after the
/// others (see [`with_root`]); gives its reference.
fn promote_root(out: &mut Vec<u8>, written: &mut Vec<(u32, (usize, u16))>, source: &Dict) -> (r: Result<Option<ObjRef>, Error>)
    requires
        written_ok(old(written)@),
    ensures
        match with_root(source@, old(out)@, old(written)@) {
            Ok((b, w, p)) => r == Ok::<Option<ObjRef>, Error>(p) && final(out)@ == b && final(written)@ == w && written_ok(w),
            Err(f) => fails_with(r, f),
        },
{
    let ghost w = written@;
    reveal(with_root);
    match source.get(&Name::new("Root")) {
        Some(Object::Dict(root)) => {
            let max: u32 = if written.len() == 0 {
                0
            } else {
                written[written.len() - 1].0
            };
            if max == u32::MAX {
                return Err(unwritable("no object number left for the catalog"));
            }
            let r = ObjRef { num: max + 1, gen: 0 };
            written.push((r.num, (out.len(), 0)));
            let root_obj = Object::Dict(copy_dict(root));
            match write_indirect(out, r, &root_obj) {
                Err(e) => return Err(e),
                Ok(()) => {},
            }
            proof {
                assert forall|i: int, j: int| 0 <= i < j < written@.len() implies (#[trigger] written@[i]).0 < (#[trigger] written@[j]).0 by {
                    if j == written@.len() - 1 && w.len() > 0 {
                        assert(w[i].0 <= w.last().0);
                    }
                }
            }
            Ok(Some(r))
        },
        _ => Ok(None),
    }
}

impl Writer {
    /// The cross-reference section in this writer's style (see
    /// [`section_bytes`]); gives its offset.
    fn write_section(&self, out: &mut Vec<u8>, written: &Vec<(u32, (usize, u16))>, free: &Vec<(u32, u16)>, trailer: Dict) -> (r: Result<usize, Error>)
        requires
            written_ok(written@),
            nums_increasing(free@),
        ensures
            placed(r, old(out)@, final(out)@, section_bytes(self.style_of(), written@, free@, trailer@, old(out)@.len())),
    {
        reveal(section_bytes);
        match self.style {
            XrefStyle::Table => write_table(out, written, free, trailer),
            XrefStyle::Stream => write_xref_stream(out, written, trailer),
        }
    }

    /// Write `objects` (numbers from 1, increasing), the free entries
    /// `free` (numbers increasing) and a trailer derived from `source` (see
    /// [`file_bytes`]). The identifier is generated from the content when
    /// `source` has none.
    pub fn write_file(&self, objects: &Vec<(ObjRef, Object)>, free: &Vec<(u32, u16)>, source: &Dict) -> (r: Result<Vec<u8>, Error>)
        requires
            objects_ok(objects_view(objects@)),
            nums_increasing(free@),
        ensures
            exists|fresh: Seq<u8>|
                #![trigger file_bytes(self.version_of(), self.style_of(), objects_view(objects@), free@, source@, fresh)]
                fresh.len() == 16 && produced(r, file_bytes(self.version_of(), self.style_of(), objects_view(objects@), free@, source@, fresh)),
    {
        let ghost objs = objects_view(objects@);
        let ghost any_id = Seq::new(16, |i: int| 0u8);
        let v = self.version();
        let mut out: Vec<u8> = Vec::new();
        write_header(&mut out, v);
        assert(out@ =~= header_bytes(v));
        let mut written = match write_body(&mut out, objects) {
            Err(e) => {
                assert(fails_with(Err::<Vec<u8>, Error>(e), laid_out(header_bytes(v), objs)->Err_0));
                assert(file_bytes(v, self.style_of(), objs, free@, source@, any_id) == Err::<Seq<u8>, WriteFailure>(laid_out(header_bytes(v), objs)->Err_0));
                return Err(e);
            },
            Ok(w) => w,
        };
        proof { lemma_laid_out_nums(header_bytes(v), objs); }
        let ghost body = out@;
        let ghost w = written@;
        let promoted = match promote_root(&mut out, &mut written, source) {
            Err(e) => {
                assert(file_bytes(v, self.style_of(), objs, free@, source@, any_id) == Err::<Seq<u8>, WriteFailure>(with_root(source@, body, w)->Err_0));
                return Err(e);
            },
            Ok(p) => p,
        };
        let ghost body2 = out@;
        let ghost w2 = written@;
        let fresh = file_id(out.as_slice());
        assert(fresh@.len() == 16);
        let trailer = match build_trailer(source, &written, &fresh, promoted) {
            Err(e) => {
                assert(file_bytes(v, self.style_of(), objs, free@, source@, fresh@)
                    == Err::<Seq<u8>, WriteFailure>(WriteFailure::Unwritable("the trailer's /Root does not lead to a written object"@)));
                return Err(e);
            },
            Ok(t) => t,
        };
        let ghost t = trailer@;
        let body_len = out.len();
        let startxref = match self.write_section(&mut out, &written, free, trailer) {
            Err(e) => {
                proof {
                    let sb = section_bytes(self.style_of(), w2, free@, t, body2.len());
                    if sb is Err {
                        assert(file_bytes(v, self.style_of(), objs, free@, source@, fresh@) == sb);
                    }
                }
                return Err(e);
            },
            Ok(x) => x,
        };
        let ghost sec = section_bytes(self.style_of(), w2, free@, t, body2.len())->Ok_0;
        assert(section_bytes(self.style_of(), w2, free@, t, body2.len()) is Ok);
        assert(out@ == body2 + sec);
        assert(startxref as nat == body2.len());
        push_text(&mut out, "startxref\n");
        push_decimal_bytes(&mut out, startxref as u64);
        push_text(&mut out, "\n%%EOF\n");
        assert(out@ =~= body2 + sec + "startxref\n".spec_bytes() + decimal_bytes(body2.len()) + "\n%%EOF\n".spec_bytes());
        assert(file_bytes(v, self.style_of(), objs, free@, source@, fresh@) == Ok::<Seq<u8>, WriteFailure>(out@));
        Ok(out)
    }
}

// ---------------------------------------------------------------------------
// Writing a document
// ---------------------------------------------------------------------------

/// The reference of the trailer's `/Encrypt` dictionary, when indirect.
pub open spec fn encrypt_ref_of(trailer: Seq<(Seq<u8>, ObjectView)>) -> Option<ObjRef> {
    match dict_get(trailer, "Encrypt".spec_bytes()) {
        Some(ObjectView::Reference(r)) => Some(r),
        _ => None,
    }
}

/// One entry of the table, added to what is written: a free entry keeps
/// its generation; a stored object (never object 0) is written under its
/// number when the document can read it, unless it describes the old
/// file's layout or is the security handler's dictionary (the output is
/// in the clear).
pub open spec fn collect_step(doc: &crate::document::Document, acc: (Seq<(ObjRef, ObjectView)>, Seq<(u32, u16)>), e: (u32, crate::xref::XrefEntry)) -> (Seq<(ObjRef, ObjectView)>, Seq<(u32, u16)>) {
    let (objs, free) = acc;
    let (num, entry) = e;
    match entry {
        crate::xref::XrefEntry::Free { gen } => (objs, free.push((num, gen))),
        _ => {
            let r = match entry {
                crate::xref::XrefEntry::InUse { gen, .. } => ObjRef { num, gen },
                _ => ObjRef { num, gen: 0 },
            };
            if num == 0 {
                (objs, free)
            } else {
                match doc.object_of(r) {
                    Ok(Some(v)) => if describes_layout(v) || encrypt_ref_of(doc.table().trailer) == Some(r) {
                        (objs, free)
                    } else {
                        (objs.push((r, v)), free)
                    },
                    _ => (objs, free),
                }
            }
        },
    }
}

/// What a document's table listing `l` gives to write: the objects and
/// the free entries.
pub open spec fn collected(doc: &crate::document::Document, l: Seq<(u32, crate::xref::XrefEntry)>) -> (Seq<(ObjRef, ObjectView)>, Seq<(u32, u16)>)
    decreases l.len(),
{
    if l.len() == 0 {
        (Seq::empty(), Seq::empty())
    } else {
        collect_step(doc, collected(doc, l.drop_last()), l.last())
    }
}

impl Writer {
    /// Serialise `doc`, a document opened from any file, sound or
    /// repaired: every object the document can read is written at top
    /// level under its own number, object streams and cross-reference
    /// streams are left out, as is the `/Encrypt` dictionary (the output is
    /// in the clear); see [`collected`] and [`file_bytes`].
    pub fn write(&self, doc: &crate::document::Document) -> (r: Result<Vec<u8>, Error>)
        ensures
            exists|l: Seq<(u32, crate::xref::XrefEntry)>, fresh: Seq<u8>|
                #![trigger crate::xref::listing_of(doc.table().entries, l), file_bytes(self.version_of(), self.style_of(), collected(doc, l).0, collected(doc, l).1, doc.table().trailer, fresh)]
                crate::xref::listing_of(doc.table().entries, l) && fresh.len() == 16 && produced(
                    r,
                    file_bytes(self.version_of(), self.style_of(), collected(doc, l).0, collected(doc, l).1, doc.table().trailer, fresh),
                ),
    {
        let source = doc.trailer();
        let encrypt_ref: Option<ObjRef> = match source.get(&Name::new("Encrypt")) {
            Some(Object::Reference(x)) => Some(*x),
            _ => None,
        };
        let entries = doc.xref().entries();
        let ghost l = entries@;
        let mut objects: Vec<(ObjRef, Object)> = Vec::new();
        let mut free: Vec<(u32, u16)> = Vec::new();
        let mut k: usize = 0;
        assert(l.take(0) =~= Seq::<(u32, crate::xref::XrefEntry)>::empty());
        while k < entries.len()
            invariant
                k <= l.len(),
                l == entries@,
                crate::xref::listing_of(doc.table().entries, l),
                encrypt_ref == encrypt_ref_of(doc.table().trailer),
                (objects_view(objects@), free@) == collected(doc, l.take(k as int)),
                objects_ok(objects_view(objects@)),
                nums_increasing(free@),
                k > 0 ==> forall|i: int| 0 <= i < objects@.len() ==> (#[trigger] objects@[i]).0.num <= l[k - 1].0,
                k > 0 ==> forall|i: int| 0 <= i < free@.len() ==> (#[trigger] free@[i]).0 <= l[k - 1].0,
            decreases l.len() - k,
        {
            let (num, entry) = entries[k];
            proof {
                assert(l.take(k + 1).drop_last() =~= l.take(k as int));
                assert(l.take(k + 1).last() == l[k as int]);
                if k > 0 {
                    assert(l[k - 1].0 < l[k as int].0);
                }
            }
            let ghost before_objs = objects_view(objects@);
            match entry {
                crate::xref::XrefEntry::Free { gen } => {
                    free.push((num, gen));
                },
                _ => {
                    let r = match entry {
                        crate::xref::XrefEntry::InUse { gen, .. } => ObjRef { num, gen },
                        _ => ObjRef { num, gen: 0 },
                    };
                    if num != 0 {
                        match doc.get(r) {
                            Ok(Some(obj)) => {
                                let skip = describes_file_layout(&obj) || match encrypt_ref {
                                    Some(e) => e.num == r.num && e.gen == r.gen,
                                    None => false,
                                };
                                if !skip {
                                    objects.push((r, obj));
                                    proof {
                                        assert(objects_view(objects@) =~= before_objs.push((r, objects@.last().1@)));
                                    }
                                }
                            },
                            _ => {},
                        }
                    }
                },
            }
            k = k + 1;
        }
        assert(l.take(l.len() as int) =~= l);
        let res = self.write_file(&objects, &free, source);
        proof {
            let objs = objects_view(objects@);
            assert(objs == collected(doc, l).0);
            assert(free@ == collected(doc, l).1);
            let fresh = choose|fresh: Seq<u8>|
                #![trigger file_bytes(self.version_of(), self.style_of(), objs, free@, source@, fresh)]
                fresh.len() == 16 && produced(res, file_bytes(self.version_of(), self.style_of(), objs, free@, source@, fresh));
            assert(crate::xref::listing_of(doc.table().entries, l));
            assert(file_bytes(self.version_of(), self.style_of(), collected(doc, l).0, collected(doc, l).1, doc.table().trailer, fresh)
                == file_bytes(self.version_of(), self.style_of(), objs, free@, source@, fresh));
        }
        res
    }
}

} // verus!
