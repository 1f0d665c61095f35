//! PDF header detection (`%PDF-x.y`) and quick file facts, without parsing
//! the whole document. Used by `fyp info` and as the first sanity check when
//! opening a file.

use crate::filters::{first_non_whitespace, lemma_first_non_whitespace_bounds};
use crate::lexer::{is_whitespace, spec_is_whitespace};
use crate::parser::{find, lemma_find_from, matches_at, occurs_at, spec_find};
use crate::text::{decimal, push_decimal, push_str};
use crate::Error;
use vstd::prelude::*;

verus! {

/// Junk before the header is tolerated up to this many bytes, like the
/// major readers do.
const HEADER_WINDOW: usize = 1024;

/// PDF version declared in the file header.
#[derive(Debug, Clone, Copy, PartialEq, Eq, Structural, PartialOrd, Ord)]
pub struct PdfVersion {
    /// Major version (1 or 2).
    pub major: u8,
    /// Minor version.
    pub minor: u8,
}

/// Version assumed when a file has no `%PDF-x.y` header at all but is
/// otherwise a PDF (see [`quick_info`]): 1.4, what such files, produced by
/// old or careless tools, turn out to be in practice.
pub open spec fn assumed() -> PdfVersion {
    PdfVersion { major: 1, minor: 4 }
}

/// Version assumed when a file has no `%PDF-x.y` header at all but is
/// otherwise a PDF (see [`quick_info`]). 1.4 is what such files, produced
/// by old or careless tools, turn out to be in practice.
pub fn assumed_version() -> (v: PdfVersion)
    ensures
        v == assumed(),
{
    PdfVersion { major: 1, minor: 4 }
}

impl PdfVersion {
    /// `major.minor`, as the version is written in a header.
    pub fn to_string(&self) -> (s: String)
        ensures
            s@ == decimal(self.major as nat) + "."@ + decimal(self.minor as nat),
    {
        let mut s = String::new();
        push_decimal(&mut s, self.major as u64);
        push_str(&mut s, ".");
        push_decimal(&mut s, self.minor as u64);
        s
    }
}

/// Facts obtainable by scanning the file, before any object is parsed.
#[derive(Debug, Clone, PartialEq, Eq)]
pub struct QuickInfo {
    /// Header version.
    pub version: PdfVersion,
    /// Byte offset of the header (ISO 32000-2 allows junk before `%PDF`;
    /// readers tolerate up to 1024 bytes). 0 when the header is missing.
    pub header_offset: usize,
    /// False when the file has no `%PDF-x.y` header and `version` is
    /// [`assumed_version`]. Such a file is not sound; callers that report
    /// on a file should say so.
    pub header_present: bool,
    /// Offset announced by the last `startxref`, if found.
    pub startxref: Option<usize>,
    /// Whether the file has an `/Encrypt` entry somewhere in its trailer area.
    pub looks_encrypted: bool,
    /// Whether an `%%EOF` marker was found.
    pub has_eof_marker: bool,
}

/// Last occurrence of a non-empty `needle` at or before `i`.
pub open spec fn rfind_upto(haystack: Seq<u8>, needle: Seq<u8>, i: int) -> Option<int>
    decreases i + 1,
{
    if needle.len() == 0 || i < 0 {
        None
    } else if occurs_at(haystack, needle, i) {
        Some(i)
    } else {
        rfind_upto(haystack, needle, i - 1)
    }
}

/// Last occurrence of a non-empty `needle` in `haystack`.
pub open spec fn spec_rfind(haystack: Seq<u8>, needle: Seq<u8>) -> Option<int> {
    rfind_upto(haystack, needle, haystack.len() - needle.len())
}

/// `rfind_upto` finds the last occurrence at or before `i`.
pub proof fn lemma_rfind_upto(haystack: Seq<u8>, needle: Seq<u8>, i: int)
    requires
        needle.len() > 0,
    ensures
        rfind_upto(haystack, needle, i) matches Some(k) ==> k <= i && occurs_at(haystack, needle, k)
            && forall|j: int| k < j <= i ==> !occurs_at(haystack, needle, j),
        rfind_upto(haystack, needle, i) is None ==> forall|j: int|
            j <= i ==> !occurs_at(haystack, needle, j),
    decreases i + 1,
{
    if i >= 0 && !occurs_at(haystack, needle, i) {
        lemma_rfind_upto(haystack, needle, i - 1);
    }
}

/// Reverse byte-slice search: the index of the last occurrence; `None`
/// when `needle` is empty or does not occur.
pub fn rfind(haystack: &[u8], needle: &[u8]) -> (r: Option<usize>)
    ensures
        r matches Some(i) ==> spec_rfind(haystack@, needle@) == Some(i as int),
        r is None ==> spec_rfind(haystack@, needle@) is None,
        r matches Some(i) ==> occurs_at(haystack@, needle@, i as int) && forall|j: int|
            i < j ==> !occurs_at(haystack@, needle@, j),
        r is None ==> needle@.len() == 0 || forall|j: int| !occurs_at(haystack@, needle@, j),
{
    if needle.len() == 0 {
        return None;
    }
    proof {
        lemma_rfind_upto(haystack@, needle@, haystack@.len() - needle@.len());
    }
    if haystack.len() < needle.len() {
        return None;
    }
    let mut i: usize = haystack.len() - needle.len();
    loop
        invariant
            i + needle@.len() <= haystack@.len(),
            needle@.len() > 0,
            spec_rfind(haystack@, needle@) == rfind_upto(haystack@, needle@, i as int),
        decreases i,
    {
        if matches_at(haystack, needle, i) {
            proof {
                lemma_rfind_upto(haystack@, needle@, haystack@.len() - needle@.len());
            }
            return Some(i);
        }
        if i == 0 {
            assert(rfind_upto(haystack@, needle@, -1) is None);
            proof {
                lemma_rfind_upto(haystack@, needle@, haystack@.len() - needle@.len());
            }
            return None;
        }
        i = i - 1;
    }
}


/// The bytes `%PDF-`.
pub open spec fn header_tag() -> Seq<u8> {
    seq![0x25u8, 0x50, 0x44, 0x46, 0x2D]
}

/// An ASCII decimal digit.
pub open spec fn is_digit(b: u8) -> bool {
    0x30 <= b <= 0x39
}

/// The header version and offset, when a `%PDF-` in the first 1024 bytes
/// is followed by a major digit and, after an optional `.`, a minor digit
/// (missing, or whitespace instead, reads as minor 0).
pub open spec fn header_of(input: Seq<u8>) -> Option<(u8, u8, int)> {
    let window = if input.len() <= 1024 {
        input
    } else {
        input.take(1024)
    };
    match spec_find(window, header_tag()) {
        None => None,
        Some(off) => {
            let rest = input.skip(off + 5);
            if rest.len() == 0 || !is_digit(rest[0]) {
                None
            } else {
                let major = (rest[0] - 0x30) as u8;
                if rest.len() == 1 {
                    Some((major, 0u8, off))
                } else if rest[1] == 0x2E {
                    if rest.len() == 2 {
                        Some((major, 0u8, off))
                    } else if is_digit(rest[2]) {
                        Some((major, (rest[2] - 0x30) as u8, off))
                    } else if spec_is_whitespace(rest[2]) {
                        Some((major, 0u8, off))
                    } else {
                        None
                    }
                } else if spec_is_whitespace(rest[1]) {
                    Some((major, 0u8, off))
                } else {
                    None
                }
            }
        },
    }
}

fn header_tag_bytes() -> (r: [u8; 5])
    ensures
        r@ == header_tag(),
{
    let r: [u8; 5] = [0x25, 0x50, 0x44, 0x46, 0x2D];
    assert(r@ =~= header_tag());
    r
}

/// Locate and parse the `%PDF-x.y` header. Tolerance: `%PDF-1.` without a
/// minor digit, or `%PDF-1` alone, reads as minor 0.
pub fn detect_version(input: &[u8]) -> (r: Result<(PdfVersion, usize), Error>)
    ensures
        match r {
            Ok((v, off)) => header_of(input@) == Some((v.major, v.minor, off as int)),
            Err(e) => e == Error::BadHeader && header_of(input@) is None,
        },
{
    let window = if input.len() <= HEADER_WINDOW {
        input
    } else {
        vstd::slice::slice_subrange(input, 0, HEADER_WINDOW)
    };
    let tag = header_tag_bytes();
    let off = match find(window, tag.as_slice()) {
        None => {
            return Err(Error::BadHeader);
        },
        Some(off) => off,
    };
    proof {
        lemma_find_from(window@, tag@, 0);
    }
    let rest = vstd::slice::slice_subrange(input, off + 5, input.len());
    assert(rest@ =~= input@.skip(off + 5));
    if rest.len() == 0 || rest[0] < 0x30 || rest[0] > 0x39 {
        return Err(Error::BadHeader);
    }
    let major = rest[0] - 0x30;
    let minor: u8 = if rest.len() == 1 {
        0
    } else if rest[1] == 0x2E {
        if rest.len() == 2 {
            0
        } else if 0x30 <= rest[2] && rest[2] <= 0x39 {
            rest[2] - 0x30
        } else if is_whitespace(rest[2]) {
            0
        } else {
            return Err(Error::BadHeader);
        }
    } else if is_whitespace(rest[1]) {
        0
    } else {
        return Err(Error::BadHeader);
    };
    Ok((PdfVersion { major, minor }, off))
}

/// The bytes `obj`.
pub open spec fn obj_keyword() -> Seq<u8> {
    seq![0x6Fu8, 0x62, 0x6A]
}

/// A file with no header that is still worth trying: its first
/// non-whitespace byte in the first 1024 opens a comment, as `%PDF` files
/// do, and `obj` occurs there.
pub open spec fn headerless_pdf(input: Seq<u8>) -> bool {
    let window = if input.len() <= 1024 {
        input
    } else {
        input.take(1024)
    };
    let first = first_non_whitespace(window, 0);
    &&& first < window.len()
    &&& window[first] == 0x25
    &&& spec_find(window, obj_keyword()) is Some
}

fn looks_like_headerless_pdf(input: &[u8]) -> (b: bool)
    ensures
        b == headerless_pdf(input@),
{
    let window = if input.len() <= HEADER_WINDOW {
        input
    } else {
        vstd::slice::slice_subrange(input, 0, HEADER_WINDOW)
    };
    let mut i: usize = 0;
    while i < window.len() && is_whitespace(window[i])
        invariant
            i <= window@.len(),
            first_non_whitespace(window@, 0) == first_non_whitespace(window@, i as int),
        decreases window@.len() - i,
    {
        i = i + 1;
    }
    if i == window.len() || window[i] != 0x25 {
        return false;
    }
    let obj: [u8; 3] = [0x6F, 0x62, 0x6A];
    assert(obj@ =~= obj_keyword());
    find(window, obj.as_slice()).is_some()
}

/// ASCII whitespace as `u8::is_ascii_whitespace` knows it: space, tab,
/// line feed, form feed, carriage return.
pub open spec fn is_ascii_space(b: u8) -> bool {
    b == 0x20 || b == 0x09 || b == 0x0A || b == 0x0C || b == 0x0D
}

/// First position at or after `i` that is no ASCII whitespace, or the length.
pub open spec fn skip_ascii_space(s: Seq<u8>, i: int) -> int
    decreases s.len() - i,
{
    if i >= s.len() || i < 0 {
        i
    } else if is_ascii_space(s[i]) {
        skip_ascii_space(s, i + 1)
    } else {
        i
    }
}

/// First position at or after `i` that holds no digit, or the length.
pub open spec fn digits_end(s: Seq<u8>, i: int) -> int
    decreases s.len() - i,
{
    if i >= s.len() || i < 0 {
        i
    } else if is_digit(s[i]) {
        digits_end(s, i + 1)
    } else {
        i
    }
}

/// The value of a run of decimal digits.
pub open spec fn digits_value(s: Seq<u8>) -> nat
    decreases s.len(),
{
    if s.len() == 0 {
        0
    } else {
        digits_value(s.drop_last()) * 10 + (s.last() - 0x30) as nat
    }
}

/// The number after the last `startxref` of `tail`, as `str::parse::<usize>`
/// reads the digits that follow the whitespace.
pub open spec fn startxref_of(tail: Seq<u8>) -> Option<nat> {
    let kw = seq![0x73u8, 0x74, 0x61, 0x72, 0x74, 0x78, 0x72, 0x65, 0x66];
    match spec_rfind(tail, kw) {
        None => None,
        Some(i) => {
            let start = skip_ascii_space(tail, i + 9);
            let end = digits_end(tail, start);
            let value = digits_value(tail.subrange(start, end));
            if end == start || value > usize::MAX {
                None
            } else {
                Some(value)
            }
        },
    }
}

proof fn lemma_skip_bounds(s: Seq<u8>, i: int)
    requires
        0 <= i <= s.len(),
    ensures
        i <= skip_ascii_space(s, i) <= s.len(),
    decreases s.len() - i,
{
    if i < s.len() && is_ascii_space(s[i]) {
        lemma_skip_bounds(s, i + 1);
    }
}

proof fn lemma_digits_end_bounds(s: Seq<u8>, i: int)
    requires
        0 <= i <= s.len(),
    ensures
        i <= digits_end(s, i) <= s.len(),
        forall|k: int| i <= k < digits_end(s, i) ==> is_digit(s[k]),
    decreases s.len() - i,
{
    if i < s.len() && is_digit(s[i]) {
        lemma_digits_end_bounds(s, i + 1);
    }
}

pub proof fn lemma_digits_value_grows(s: Seq<u8>, n: int)
    requires
        0 <= n <= s.len(),
        forall|k: int| 0 <= k < s.len() ==> is_digit(s[k]),
    ensures
        digits_value(s.take(n)) <= digits_value(s),
    decreases s.len() - n,
{
    if n < s.len() {
        lemma_digits_value_grows(s, n + 1);
        assert(s.take(n + 1).drop_last() =~= s.take(n));
    } else {
        assert(s.take(n) =~= s);
    }
}

fn parse_startxref(tail: &[u8], at: usize) -> (r: Option<usize>)
    requires
        at <= tail@.len(),
    ensures
        ({
            let start = skip_ascii_space(tail@, at as int);
            let end = digits_end(tail@, start);
            let value = digits_value(tail@.subrange(start, end));
            match r {
                Some(v) => end > start && v == value,
                None => end == start || value > usize::MAX,
            }
        }),
{
    let mut i: usize = at;
    while i < tail.len() && (tail[i] == 0x20 || tail[i] == 0x09 || tail[i] == 0x0A || tail[i]
        == 0x0C || tail[i] == 0x0D)
        invariant
            at <= i <= tail@.len(),
            skip_ascii_space(tail@, at as int) == skip_ascii_space(tail@, i as int),
        decreases tail@.len() - i,
    {
        i = i + 1;
    }
    let start = i;
    proof {
        lemma_digits_end_bounds(tail@, start as int);
    }
    let ghost end = digits_end(tail@, start as int);
    let ghost run = tail@.subrange(start as int, end);
    let mut value: usize = 0;
    while i < tail.len() && 0x30 <= tail[i] && tail[i] <= 0x39
        invariant
            start <= i <= end,
            start == skip_ascii_space(tail@, at as int),
            end == digits_end(tail@, start as int),
            end <= tail@.len(),
            digits_end(tail@, i as int) == end,
            run == tail@.subrange(start as int, end),
            value == digits_value(tail@.subrange(start as int, i as int)),
            forall|k: int| start <= k < end ==> is_digit(tail@[k]),
        decreases tail@.len() - i,
    {
        let d = (tail[i] - 0x30) as usize;
        proof {
            lemma_digits_end_bounds(tail@, i + 1);
        }
        assert(tail@.subrange(start as int, i + 1).drop_last() =~= tail@.subrange(
            start as int,
            i as int,
        ));
        if value > (usize::MAX - d) / 10 {
            proof {
                let mx = usize::MAX as int;
                let v = value as int;
                let dd = d as int;
                assert(v * 10 + dd > mx) by (nonlinear_arith)
                    requires
                        v > (mx - dd) / 10,
                        0 <= dd <= 9,
                        mx > 9,
                ;
                assert(run.take(i + 1 - start) =~= tail@.subrange(start as int, i + 1));
                let sub = tail@.subrange(start as int, i + 1);
                assert(sub.last() == tail@[i as int]);
                assert(digits_value(sub) == digits_value(sub.drop_last()) * 10 + (sub.last() - 0x30) as nat);
                assert(digits_value(sub) == v * 10 + dd);
                assert forall|k: int| 0 <= k < run.len() implies is_digit(run[k]) by {
                    assert(run[k] == tail@[start + k]);
                }
                lemma_digits_value_grows(run, i + 1 - start);
                assert(digits_value(run) > mx);
            }
            return None;
        }
        value = value * 10 + d;
        i = i + 1;
    }
    if i == start {
        return None;
    }
    Some(value)
}

/// Scan a file for quick facts without building the object graph.
pub fn quick_info(input: &[u8]) -> (r: Result<QuickInfo, Error>)
    ensures
        ({
            let tail = input@.skip(
                if input@.len() >= 2048 {
                    input@.len() - 2048
                } else {
                    0
                },
            );
            match r {
                Ok(info) => {
                    &&& match header_of(input@) {
                        Some((major, minor, off)) => info.version == PdfVersion { major, minor }
                            && info.header_offset == off && info.header_present,
                        None => headerless_pdf(input@) && info.version == assumed()
                            && info.header_offset == 0 && !info.header_present,
                    }
                    &&& match startxref_of(tail) {
                        Some(v) => info.startxref == Some(v as usize),
                        None => info.startxref is None,
                    }
                    &&& info.looks_encrypted == (spec_find(
                        tail,
                        seq![0x2Fu8, 0x45, 0x6E, 0x63, 0x72, 0x79, 0x70, 0x74],
                    ) is Some)
                    &&& info.has_eof_marker == (spec_rfind(tail, seq![0x25u8, 0x25, 0x45, 0x4F, 0x46])
                        is Some)
                },
                Err(e) => e == Error::BadHeader && header_of(input@) is None && !headerless_pdf(
                    input@,
                ),
            }
        }),
{
    let (version, header_offset, header_present) = match detect_version(input) {
        Ok((version, offset)) => (version, offset, true),
        Err(_) => {
            if looks_like_headerless_pdf(input) {
                (assumed_version(), 0, false)
            } else {
                return Err(Error::BadHeader);
            }
        },
    };
    let tail_start: usize = if input.len() >= 2048 {
        input.len() - 2048
    } else {
        0
    };
    let tail = vstd::slice::slice_subrange(input, tail_start, input.len());
    assert(tail@ =~= input@.skip(tail_start as int));
    let kw: [u8; 9] = [0x73, 0x74, 0x61, 0x72, 0x74, 0x78, 0x72, 0x65, 0x66];
    assert(kw@ =~= seq![0x73u8, 0x74, 0x61, 0x72, 0x74, 0x78, 0x72, 0x65, 0x66]);
    let startxref = match rfind(tail, kw.as_slice()) {
        None => None,
        Some(i) => {
            proof {
                lemma_rfind_upto(tail@, kw@, tail@.len() - kw@.len());
            }
            parse_startxref(tail, i + 9)
        },
    };
    let encrypt: [u8; 8] = [0x2F, 0x45, 0x6E, 0x63, 0x72, 0x79, 0x70, 0x74];
    assert(encrypt@ =~= seq![0x2Fu8, 0x45, 0x6E, 0x63, 0x72, 0x79, 0x70, 0x74]);
    let looks_encrypted = find(tail, encrypt.as_slice()).is_some();
    let eof: [u8; 5] = [0x25, 0x25, 0x45, 0x4F, 0x46];
    assert(eof@ =~= seq![0x25u8, 0x25, 0x45, 0x4F, 0x46]);
    let has_eof_marker = rfind(tail, eof.as_slice()).is_some();
    Ok(
        QuickInfo {
            version,
            header_offset,
            header_present,
            startxref,
            looks_encrypted,
            has_eof_marker,
        },
    )
}

} // verus!
