//! The byte-level scanning that cross-reference reconstruction rests on:
//! finding `n g obj` headers and the ends of the objects they open.
//!
//! Reconstruction is a fallback, never the normal path: a file whose table
//! is missing or does not match its objects is scanned for `n g obj`
//! headers. Headers on a `%` comment line are ignored, stream data is
//! skipped along with the stream, and both numbers of a header must fit
//! their types.

use crate::decode::{decode_stream_with, Direct};
use crate::document::ObjectStream;
use crate::filters::{first_non_whitespace, lemma_first_non_whitespace_bounds, DecodeLimits};
use crate::lexer::{is_delimiter, is_whitespace, spec_is_delimiter, spec_is_whitespace};
use crate::object::{copy_object, dict_get, Dict, Name, ObjRef, Object, ObjectView};
use crate::parser::{find, header_at, lemma_find_from, occurs_at, spec_find, Parser};
use crate::xref::{Xref, XrefEntry};
use std::collections::BTreeMap;
use crate::version::{digits_value, is_digit, lemma_digits_value_grows};
use vstd::prelude::*;
use vstd::string::StringSliceAdditionalSpecFns;

verus! {

/// How far back from a candidate header to look for the `%` of a comment
/// on the same line. Longer lines are treated as not being comments.
const COMMENT_LOOKBACK: usize = 1024;

/// First occurrence of `needle` at or after `from`, as an absolute offset
/// (`None` when `from` lies past the end).
pub open spec fn find_from_of(s: Seq<u8>, from: int, needle: Seq<u8>) -> Option<int> {
    if from < 0 || from > s.len() {
        None
    } else {
        match spec_find(s.skip(from), needle) {
            Some(i) => Some(from + i),
            None => None,
        }
    }
}

pub proof fn lemma_find_from_of(s: Seq<u8>, from: int, needle: Seq<u8>)
    requires
        needle.len() > 0,
    ensures
        find_from_of(s, from, needle) matches Some(k) ==> from <= k && k + needle.len() <= s.len()
            && s.subrange(k, k + needle.len()) == needle,
{
    if 0 <= from <= s.len() {
        let t = s.skip(from);
        lemma_find_from(t, needle, 0);
        if let Some(i) = spec_find(t, needle) {
            assert(occurs_at(t, needle, i));
            assert(s.subrange(from + i, from + i + needle.len()) =~= t.subrange(i, i + needle.len()));
        }
    }
}

/// First occurrence of `needle` at or after `from`.
pub fn find_from(input: &[u8], from: usize, needle: &[u8]) -> (r: Option<usize>)
    ensures
        match r {
            Some(k) => find_from_of(input@, from as int, needle@) == Some(k as int),
            None => find_from_of(input@, from as int, needle@) is None,
        },
{
    if from > input.len() {
        return None;
    }
    let rest = vstd::slice::slice_subrange(input, from, input.len());
    assert(rest@ =~= input@.skip(from as int));
    match find(rest, needle) {
        Some(i) => {
            proof {
                lemma_find_from(rest@, needle@, 0);
            }
            Some(from + i)
        },
        None => None,
    }
}

/// First occurrence of `needle` in `from..to`, as an absolute offset.
pub open spec fn find_between_of(s: Seq<u8>, from: int, to: int, needle: Seq<u8>) -> Option<int> {
    if from < 0 || from > to || to > s.len() {
        None
    } else {
        match spec_find(s.subrange(from, to), needle) {
            Some(i) => Some(from + i),
            None => None,
        }
    }
}

/// First occurrence of `needle` in `from..to`.
pub fn find_between(input: &[u8], from: usize, to: usize, needle: &[u8]) -> (r: Option<usize>)
    ensures
        match r {
            Some(k) => find_between_of(input@, from as int, to as int, needle@) == Some(k as int),
            None => find_between_of(input@, from as int, to as int, needle@) is None,
        },
{
    if from > to || to > input.len() {
        return None;
    }
    let part = vstd::slice::slice_subrange(input, from, to);
    match find(part, needle) {
        Some(i) => {
            proof {
                lemma_find_from(part@, needle@, 0);
            }
            Some(from + i)
        },
        None => None,
    }
}

/// A token boundary: whitespace or a delimiter.
pub open spec fn is_boundary(b: u8) -> bool {
    spec_is_whitespace(b) || spec_is_delimiter(b)
}

/// The byte at `at` is a token boundary, or `at` is past the end.
pub open spec fn boundary_after_of(s: Seq<u8>, at: int) -> bool {
    at >= s.len() || is_boundary(s[at])
}

/// The byte before `at` is a token boundary, or there is none.
pub open spec fn boundary_before_of(s: Seq<u8>, at: int) -> bool {
    at == 0 || at - 1 >= s.len() || is_boundary(s[at - 1])
}

/// Is the byte at `at` (or the end of input) a token boundary?
pub fn boundary_after(input: &[u8], at: usize) -> (b: bool)
    ensures
        b == boundary_after_of(input@, at as int),
{
    at >= input.len() || is_whitespace(input[at]) || is_delimiter(input[at])
}

/// Is the byte before `at` (or the start of input) a token boundary?
pub fn boundary_before(input: &[u8], at: usize) -> (b: bool)
    ensures
        b == boundary_before_of(input@, at as int),
{
    at == 0 || at - 1 >= input.len() || is_whitespace(input[at - 1]) || is_delimiter(
        input[at - 1],
    )
}

/// Back from `i` over whitespace.
pub open spec fn back_over_space(s: Seq<u8>, i: int) -> int
    decreases i,
{
    if i > 0 && i - 1 < s.len() && spec_is_whitespace(s[i - 1]) {
        back_over_space(s, i - 1)
    } else {
        i
    }
}

/// Back from `i` over decimal digits.
pub open spec fn back_over_digits(s: Seq<u8>, i: int) -> int
    decreases i,
{
    if i > 0 && i - 1 < s.len() && is_digit(s[i - 1]) {
        back_over_digits(s, i - 1)
    } else {
        i
    }
}

proof fn lemma_back_over_space(s: Seq<u8>, i: int)
    requires
        0 <= i,
    ensures
        0 <= back_over_space(s, i) <= i,
        back_over_space(s, i) < i ==> i <= s.len(),
    decreases i,
{
    if i > 0 && i - 1 < s.len() && spec_is_whitespace(s[i - 1]) {
        lemma_back_over_space(s, i - 1);
    }
}

proof fn lemma_back_over_digits(s: Seq<u8>, i: int)
    requires
        0 <= i,
    ensures
        0 <= back_over_digits(s, i) <= i,
        back_over_digits(s, i) < i ==> i <= s.len(),
        forall|k: int| back_over_digits(s, i) <= k < i ==> is_digit(s[k]),
    decreases i,
{
    if i > 0 && i - 1 < s.len() && is_digit(s[i - 1]) {
        lemma_back_over_digits(s, i - 1);
    }
}

/// The `n g` read backwards from an `obj` keyword at `kw`: the offset of
/// `n` and both numbers, when each is a run of digits set off by
/// whitespace, `n` starts at a token boundary, and both fit their types
/// (`u32` and `u16`).
pub open spec fn header_before_of(s: Seq<u8>, kw: int) -> Option<(int, u32, u16)> {
    let gen_end = back_over_space(s, kw);
    let gen_start = back_over_digits(s, gen_end);
    let num_end = back_over_space(s, gen_start);
    let num_start = back_over_digits(s, num_end);
    let num = digits_value(s.subrange(num_start, num_end));
    let gen = digits_value(s.subrange(gen_start, gen_end));
    if gen_end == kw || gen_start == gen_end || num_end == gen_start || num_start == num_end
        || !boundary_before_of(s, num_start) || num > u32::MAX || gen > u16::MAX {
        None
    } else {
        Some((num_start, num as u32, gen as u16))
    }
}

fn back_space(input: &[u8], from: usize) -> (i: usize)
    ensures
        i == back_over_space(input@, from as int),
{
    let mut i = from;
    while i > 0 && i - 1 < input.len() && is_whitespace(input[i - 1])
        invariant
            i <= from,
            back_over_space(input@, i as int) == back_over_space(input@, from as int),
        decreases i,
    {
        i = i - 1;
    }
    i
}

fn back_digits(input: &[u8], from: usize) -> (i: usize)
    ensures
        i == back_over_digits(input@, from as int),
{
    let mut i = from;
    while i > 0 && i - 1 < input.len() && 0x30 <= input[i - 1] && input[i - 1] <= 0x39
        invariant
            i <= from,
            back_over_digits(input@, i as int) == back_over_digits(input@, from as int),
        decreases i,
    {
        i = i - 1;
    }
    i
}

/// Decimal value of ASCII digits, `None` on overflow of a `u64`.
pub fn parse_digits(digits: &[u8]) -> (r: Option<u64>)
    requires
        forall|k: int| 0 <= k < digits@.len() ==> is_digit(digits@[k]),
    ensures
        match r {
            Some(v) => v == digits_value(digits@),
            None => digits_value(digits@) > u64::MAX,
        },
{
    let mut acc: u64 = 0;
    let mut i: usize = 0;
    while i < digits.len()
        invariant
            i <= digits@.len(),
            acc == digits_value(digits@.take(i as int)),
            forall|k: int| 0 <= k < digits@.len() ==> is_digit(digits@[k]),
        decreases digits@.len() - i,
    {
        let d = (digits[i] - 0x30) as u64;
        assert(digits@.take(i + 1).drop_last() =~= digits@.take(i as int));
        if acc > (u64::MAX - d) / 10 {
            proof {
                let mx = u64::MAX as int;
                let v = acc as int;
                let dd = d as int;
                assert(v * 10 + dd > mx) by (nonlinear_arith)
                    requires
                        v > (mx - dd) / 10,
                        0 <= dd <= 9,
                        mx > 9,
                ;
                lemma_digits_value_grows(digits@, i + 1);
            }
            return None;
        }
        acc = acc * 10 + d;
        i = i + 1;
    }
    assert(digits@.take(digits@.len() as int) =~= digits@);
    Some(acc)
}

/// Read `n g` backwards from an `obj` keyword at `kw`. Returns the offset
/// of `n` and the reference. Both numbers must fit their types.
pub fn header_before(input: &[u8], kw: usize) -> (r: Option<(usize, ObjRef)>)
    ensures
        match r {
            Some((start, rf)) => header_before_of(input@, kw as int) == Some(
                (start as int, rf.num, rf.gen),
            ),
            None => header_before_of(input@, kw as int) is None,
        },
{
    let gen_end = back_space(input, kw);
    proof {
        lemma_back_over_space(input@, kw as int);
    }
    if gen_end == kw {
        return None;
    }
    let gen_start = back_digits(input, gen_end);
    proof {
        lemma_back_over_digits(input@, gen_end as int);
    }
    if gen_start == gen_end {
        return None;
    }
    let num_end = back_space(input, gen_start);
    proof {
        lemma_back_over_space(input@, gen_start as int);
    }
    if num_end == gen_start {
        return None;
    }
    let num_start = back_digits(input, num_end);
    proof {
        lemma_back_over_digits(input@, num_end as int);
    }
    if num_start == num_end || !boundary_before(input, num_start) {
        return None;
    }
    let num_digits = vstd::slice::slice_subrange(input, num_start, num_end);
    let gen_digits = vstd::slice::slice_subrange(input, gen_start, gen_end);
    let num = match parse_digits(num_digits) {
        None => {
            return None;
        },
        Some(v) => v,
    };
    if num > 4294967295 {
        return None;
    }
    let gen = match parse_digits(gen_digits) {
        None => {
            return None;
        },
        Some(v) => v,
    };
    if gen > 65535 {
        return None;
    }
    Some((num_start, ObjRef { num: num as u32, gen: gen as u16 }))
}

/// The line of `at`, looked at over at most 1024 bytes back: the bytes
/// after the last line end before `at`.
pub open spec fn line_before(s: Seq<u8>, at: int) -> Seq<u8> {
    let from = if at >= 1024 {
        at - 1024
    } else {
        0
    };
    let line = if at <= s.len() {
        s.subrange(from, at)
    } else {
        Seq::empty()
    };
    line.skip(after_last_eol(line, line.len() as int))
}

/// One past the last `\n` or `\r` before `i`, or 0.
pub open spec fn after_last_eol(line: Seq<u8>, i: int) -> int
    decreases i,
{
    if i <= 0 {
        0
    } else if line[i - 1] == 0x0A || line[i - 1] == 0x0D {
        i
    } else {
        after_last_eol(line, i - 1)
    }
}

proof fn lemma_after_last_eol(line: Seq<u8>, i: int)
    requires
        0 <= i <= line.len(),
    ensures
        0 <= after_last_eol(line, i) <= i,
    decreases i,
{
    if i > 0 && !(line[i - 1] == 0x0A || line[i - 1] == 0x0D) {
        lemma_after_last_eol(line, i - 1);
    }
}

/// Is there a `%` between the start of the line and `at`? Lines longer
/// than 1024 bytes are assumed not to be comments.
pub open spec fn on_comment_line_of(s: Seq<u8>, at: int) -> bool {
    line_before(s, at).contains(0x25)
}

/// Is there a `%` between the start of the line and `at`? Lines longer
/// than 1024 bytes are assumed not to be comments.
pub fn on_comment_line(input: &[u8], at: usize) -> (b: bool)
    ensures
        b == on_comment_line_of(input@, at as int),
{
    let from: usize = if at >= COMMENT_LOOKBACK {
        at - COMMENT_LOOKBACK
    } else {
        0
    };
    let empty: &[u8] = &[];
    let line = if at <= input.len() {
        vstd::slice::slice_subrange(input, from, at)
    } else {
        empty
    };
    assert(empty@ =~= Seq::<u8>::empty());
    let mut i = line.len();
    while i > 0 && line[i - 1] != 0x0A && line[i - 1] != 0x0D
        invariant
            i <= line@.len(),
            after_last_eol(line@, i as int) == after_last_eol(line@, line@.len() as int),
        decreases i,
    {
        i = i - 1;
    }
    let start = i;
    proof {
        lemma_after_last_eol(line@, line@.len() as int);
    }
    let ghost rest = line@.skip(start as int);
    assert(rest == line_before(input@, at as int));
    let mut k = start;
    while k < line.len()
        invariant
            start <= k <= line@.len(),
            rest == line@.skip(start as int),
            rest == line_before(input@, at as int),
            forall|j: int| start <= j < k ==> line@[j] != 0x25,
        decreases line@.len() - k,
    {
        if line[k] == 0x25 {
            assert(rest[k - start] == 0x25);
            return true;
        }
        k = k + 1;
    }
    assert forall|j: int| 0 <= j < rest.len() implies rest[j] != 0x25 by {
        assert(rest[j] == line@[start + j]);
    }
    false
}

/// The bytes `obj`.
pub open spec fn obj_tag() -> Seq<u8> {
    seq![0x6Fu8, 0x62, 0x6A]
}

/// Start of the next `n g obj` header at or after `from`, scanning the
/// `obj` keywords from `pos` on; the end of input when there is none.
pub open spec fn next_header_scan(s: Seq<u8>, from: int, pos: int) -> int
    decreases s.len() + 1 - pos,
{
    match find_from_of(s, pos, obj_tag()) {
        None => s.len() as int,
        Some(kw) => {
            proof {
                lemma_find_from_of(s, pos, obj_tag());
            }
            match header_before_of(s, kw) {
                Some((start, _, _)) if boundary_after_of(s, kw + 3) && start >= from => start,
                _ => next_header_scan(s, from, kw + 3),
            }
        },
    }
}

/// Start of the next `n g obj` header at or after `from`, or the end of
/// input. Only the shape is checked, not whether an object follows.
pub fn next_header_start(input: &[u8], from: usize) -> (r: usize)
    ensures
        r == next_header_scan(input@, from as int, from as int),
{
    let obj: [u8; 3] = [0x6F, 0x62, 0x6A];
    assert(obj@ =~= obj_tag());
    let len = input.len();
    let mut pos = from;
    loop
        invariant
            len == input@.len(),
            obj@ == obj_tag(),
            next_header_scan(input@, from as int, pos as int) == next_header_scan(
                input@,
                from as int,
                from as int,
            ),
        decreases input@.len() + 1 - pos,
    {
        match find_from(input, pos, obj.as_slice()) {
            None => {
                return input.len();
            },
            Some(kw) => {
                proof {
                    lemma_find_from_of(input@, pos as int, obj_tag());
                }
                if boundary_after(input, kw + 3) {
                    if let Some((start, _)) = header_before(input, kw) {
                        if start >= from {
                            return start;
                        }
                    }
                }
                pos = kw + 3;
            },
        }
    }
}

/// A `stream` keyword: preceded by whitespace or `>` (or nothing),
/// followed by whitespace.
pub open spec fn stream_keyword_at(s: Seq<u8>, at: int) -> bool {
    &&& at == 0 || at - 1 >= s.len() || spec_is_whitespace(s[at - 1]) || s[at - 1] == 0x3E
    &&& at + 6 < s.len() && spec_is_whitespace(s[at + 6])
}

/// The bytes `stream`.
pub open spec fn stream_tag() -> Seq<u8> {
    seq![0x73u8, 0x74, 0x72, 0x65, 0x61, 0x6D]
}

/// The first `stream` keyword starting before `to`, scanning the
/// occurrences of `stream` from `pos` on.
pub open spec fn stream_keyword_scan(s: Seq<u8>, pos: int, to: int) -> Option<int>
    decreases s.len() + 1 - pos,
{
    match find_from_of(s, pos, stream_tag()) {
        None => None,
        Some(k) => {
            proof {
                lemma_find_from_of(s, pos, stream_tag());
            }
            if k >= to {
                None
            } else if stream_keyword_at(s, k) {
                Some(k)
            } else {
                stream_keyword_scan(s, k + 6, to)
            }
        },
    }
}

/// A `stream` keyword in `from..to`: preceded by whitespace or `>`,
/// followed by whitespace (ISO 32000-2, 7.3.8.1 wants CR LF or LF; spaces
/// before that EOL are tolerated like the parser does).
pub fn stream_keyword_between(input: &[u8], from: usize, to: usize) -> (r: Option<usize>)
    ensures
        match r {
            Some(k) => stream_keyword_scan(input@, from as int, to as int) == Some(k as int),
            None => stream_keyword_scan(input@, from as int, to as int) is None,
        },
        r matches Some(k) ==> k + 6 <= input@.len(),
{
    let kw: [u8; 6] = [0x73, 0x74, 0x72, 0x65, 0x61, 0x6D];
    assert(kw@ =~= stream_tag());
    let mut pos = from;
    loop
        invariant
            kw@ == stream_tag(),
            stream_keyword_scan(input@, pos as int, to as int) == stream_keyword_scan(
                input@,
                from as int,
                to as int,
            ),
        decreases input@.len() + 1 - pos,
    {
        match find_from(input, pos, kw.as_slice()) {
            None => {
                return None;
            },
            Some(s) => {
                proof {
                    lemma_find_from_of(input@, pos as int, stream_tag());
                }
                if s >= to {
                    return None;
                }
                let before_ok = s == 0 || s - 1 >= input.len() || is_whitespace(input[s - 1])
                    || input[s - 1] == 0x3E;
                let after_ok = s + 6 < input.len() && is_whitespace(input[s + 6]);
                if before_ok && after_ok {
                    return Some(s);
                }
                pos = s + 6;
            },
        }
    }
}

/// The bytes `endobj`.
pub open spec fn endobj_tag() -> Seq<u8> {
    seq![0x65u8, 0x6E, 0x64, 0x6F, 0x62, 0x6A]
}

/// The bytes `endstream`.
pub open spec fn endstream_tag() -> Seq<u8> {
    seq![0x65u8, 0x6E, 0x64, 0x73, 0x74, 0x72, 0x65, 0x61, 0x6D]
}

/// End of the object whose header ends at `after`: just past its
/// `endobj`, or, when a `stream` keyword comes before that `endobj`, just
/// past the first `endobj` after the `endstream` that follows the stream;
/// the end of input when a keyword is missing.
pub open spec fn object_end_of(s: Seq<u8>, after: int) -> int {
    let endobj = find_from_of(s, after, endobj_tag());
    let limit = match endobj {
        Some(e) => e,
        None => s.len() as int,
    };
    match stream_keyword_scan(s, after, limit) {
        Some(k) => match find_from_of(s, k + 6, endstream_tag()) {
            None => s.len() as int,
            Some(es) => match find_from_of(s, es + 9, endobj_tag()) {
                Some(e) => e + 6,
                None => s.len() as int,
            },
        },
        None => match endobj {
            Some(e) => e + 6,
            None => s.len() as int,
        },
    }
}

/// End of the object whose header ends at `after`: just past its `endobj`,
/// skipping stream data first when a `stream` keyword comes before that
/// `endobj`. The end of input when the file is cut short.
pub fn object_end(input: &[u8], after: usize) -> (r: usize)
    ensures
        r == object_end_of(input@, after as int),
{
    let endobj_kw: [u8; 6] = [0x65, 0x6E, 0x64, 0x6F, 0x62, 0x6A];
    assert(endobj_kw@ =~= endobj_tag());
    let endstream_kw: [u8; 9] = [0x65, 0x6E, 0x64, 0x73, 0x74, 0x72, 0x65, 0x61, 0x6D];
    assert(endstream_kw@ =~= endstream_tag());
    let len = input.len();
    let endobj = find_from(input, after, endobj_kw.as_slice());
    proof {
        lemma_find_from_of(input@, after as int, endobj_tag());
    }
    let limit = match endobj {
        Some(e) => e,
        None => len,
    };
    if let Some(s) = stream_keyword_between(input, after, limit) {
        let es = match find_from(input, s + 6, endstream_kw.as_slice()) {
            None => {
                return len;
            },
            Some(es) => es,
        };
        proof {
            lemma_find_from_of(input@, s + 6, endstream_tag());
        }
        return match find_from(input, es + 9, endobj_kw.as_slice()) {
            Some(e) => {
                proof {
                    lemma_find_from_of(input@, es + 9, endobj_tag());
                }
                e + 6
            },
            None => len,
        };
    }
    match endobj {
        Some(e) => e + 6,
        None => len,
    }
}

// ---------------------------------------------------------------------------
// The scan
// ---------------------------------------------------------------------------

/// How many bytes of the file a candidate may make the parser read, in
/// total, relative to the file size. Sound files stay near 1: accepted
/// objects partition the file. The margin absorbs a few false starts.
const BUDGET_FACTOR: usize = 8;

/// Floor for the budget, so that tiny files still get a fair scan.
const BUDGET_FLOOR: usize = 1048576;

/// What a rebuilt table promises: every object it places at an offset has
/// its own `n g obj` header there (never object 0), every compressed object
/// lies in an object stream the scan found, `/Size` is one past the highest
/// number, and `/Root`, when present, is a dictionary or a reference to a
/// listed object.
pub open spec fn rebuilt_ok(s: Seq<u8>, entries: Map<u32, XrefEntry>, trailer: Seq<(Seq<u8>, ObjectView)>) -> bool {
    &&& entries.dom().len() > 0
    &&& forall|k: u32| #[trigger] entries.contains_key(k) && entries[k] is InUse ==> k >= 1 && header_at(
        s,
        entries[k]->InUse_offset as int,
    ).0 == Ok::<ObjRef, crate::parser::ParseFailure>(ObjRef { num: k, gen: entries[k]->InUse_gen })
    &&& forall|k: u32| #[trigger] entries.contains_key(k) && entries[k] is InStream ==> entries[k]->InStream_stream_num >= 1
    &&& exists|max: u32| #[trigger] entries.contains_key(max) && (forall|k: u32| #[trigger] entries.contains_key(k) ==> k <= max)
        && dict_get(trailer, "Size".spec_bytes()) == Some(ObjectView::Integer((max + 1) as i64))
    &&& match dict_get(trailer, "Root".spec_bytes()) {
        None => true,
        Some(ObjectView::Dict(_)) => true,
        Some(ObjectView::Reference(r)) => entries.contains_key(r.num),
        Some(_) => false,
    }
}

/// The state of a scan over `input`.
struct Scan<'a> {
    input: &'a [u8],
    budget: usize,
    /// Positions of the next `obj`, `trailer` and `startxref` keywords at
    /// or after the scan position, cached so that a keyword absent from the
    /// rest of the file is searched for once.
    next_obj: Option<usize>,
    next_trailer: Option<usize>,
    next_startxref: Option<usize>,
    /// Where each object was last defined.
    entries: BTreeMap<u32, XrefEntry>,
    /// The byte position of each definition, for the "last wins" rule;
    /// for an object inside an object stream, the position of that stream.
    ats: BTreeMap<u32, usize>,
    /// The highest object number found, when any was.
    max_num: Option<u32>,
    /// `/Type /ObjStm` objects, in file order: object number and offset.
    object_streams: Vec<(u32, usize)>,
    /// Last `/Type /Catalog` object seen: position and reference.
    catalog: Option<(usize, ObjRef)>,
    /// Trailer-like dictionaries in file order, already stripped of the
    /// keys that make no sense once the table is rebuilt.
    trailers: Vec<Dict>,
}

/// `obj`.
pub open spec fn obj_word() -> Seq<u8> {
    seq![111u8, 98u8, 106u8]
}

/// `trailer`.
pub open spec fn trailer_word() -> Seq<u8> {
    seq![116u8, 114u8, 97u8, 105u8, 108u8, 101u8, 114u8]
}

/// `startxref`.
pub open spec fn startxref_word() -> Seq<u8> {
    seq![115u8, 116u8, 97u8, 114u8, 116u8, 120u8, 114u8, 101u8, 102u8]
}

impl<'a> Scan<'a> {
    /// The state the scan keeps true.
    spec fn sound(&self) -> bool {
        &&& forall|k: u32| #[trigger] self.entries@.contains_key(k) ==> self.ats@.contains_key(k)
        &&& forall|k: u32| #[trigger] self.entries@.contains_key(k) && self.entries@[k] is InUse ==> k >= 1 && header_at(
            self.input@,
            self.entries@[k]->InUse_offset as int,
        ).0 == Ok::<ObjRef, crate::parser::ParseFailure>(ObjRef { num: k, gen: self.entries@[k]->InUse_gen })
        &&& forall|k: u32| #[trigger] self.entries@.contains_key(k) && self.entries@[k] is InStream ==> self.entries@[k]->InStream_stream_num >= 1
        &&& forall|i: int| 0 <= i < self.object_streams@.len() ==> (#[trigger] self.object_streams@[i]).0 >= 1
        &&& match self.max_num {
            None => self.entries@.dom() == Set::<u32>::empty(),
            Some(m) => self.entries@.contains_key(m) && forall|k: u32| #[trigger] self.entries@.contains_key(k) ==> k <= m,
        }
        &&& self.catalog matches Some((_, r)) ==> self.entries@.contains_key(r.num)
        &&& self.next_obj matches Some(k) ==> k + 3 <= self.input@.len()
        &&& self.next_trailer matches Some(k) ==> k + 7 <= self.input@.len()
        &&& forall|i: int| 0 <= i < self.trailers@.len() ==> dict_get((#[trigger] self.trailers@[i])@, "Prev".spec_bytes()) is None
    }

    /// Record object `num` at `entry`, defined at `at`.
    fn put(&mut self, num: u32, entry: XrefEntry, at: usize)
        requires
            old(self).sound(),
            entry is InUse ==> num >= 1 && header_at(old(self).input@, entry->InUse_offset as int).0
                == Ok::<ObjRef, crate::parser::ParseFailure>(ObjRef { num, gen: entry->InUse_gen }),
            entry is InStream ==> entry->InStream_stream_num >= 1,
        ensures
            final(self).sound(),
            final(self).input == old(self).input,
            final(self).budget == old(self).budget,
            final(self).next_obj == old(self).next_obj,
            final(self).next_trailer == old(self).next_trailer,
            final(self).object_streams == old(self).object_streams,
            final(self).trailers == old(self).trailers,
            final(self).catalog == old(self).catalog,
            final(self).entries@ == old(self).entries@.insert(num, entry),
            final(self).entries@.contains_key(num),
            final(self).ats@ == old(self).ats@.insert(num, at),
    {
        self.entries.insert(num, entry);
        self.ats.insert(num, at);
        self.max_num = match self.max_num {
            None => Some(num),
            Some(m) => if num > m { Some(num) } else { Some(m) },
        };
        proof {
            assert forall|k: u32| #[trigger] self.entries@.contains_key(k) implies k <= self.max_num->Some_0 by {
                if k != num {
                    assert(old(self).entries@.contains_key(k));
                }
            }
        }
    }

    /// Bring the cached keyword positions to `pos` or after.
    fn refresh(&mut self, pos: usize)
        requires
            old(self).sound(),
        ensures
            final(self).sound(),
            final(self).input == old(self).input,
            final(self).budget == old(self).budget,
            final(self).entries == old(self).entries,
            final(self).object_streams == old(self).object_streams,
            final(self).next_obj matches Some(k) ==> k >= pos,
            final(self).next_trailer matches Some(k) ==> k >= pos,
            final(self).next_startxref matches Some(k) ==> k >= pos,
            old(self).next_obj matches Some(k) && k >= pos ==> final(self).next_obj == old(self).next_obj,
            old(self).next_obj is None ==> final(self).next_obj is None,
            old(self).next_trailer matches Some(k) && k >= pos ==> final(self).next_trailer == old(self).next_trailer,
            old(self).next_trailer is None ==> final(self).next_trailer is None,
    {
        let input = self.input;
        let obj: [u8; 3] = [111, 98, 106];
        let trailer: [u8; 7] = [116, 114, 97, 105, 108, 101, 114];
        let startxref: [u8; 9] = [115, 116, 97, 114, 116, 120, 114, 101, 102];
        assert(obj@ =~= obj_word());
        assert(trailer@ =~= trailer_word());
        assert(startxref@ =~= startxref_word());
        proof {
            lemma_find_from_of(input@, pos as int, obj_word());
            lemma_find_from_of(input@, pos as int, trailer_word());
            lemma_find_from_of(input@, pos as int, startxref_word());
        }
        match self.next_obj {
            Some(at) => if at < pos {
                self.next_obj = find_from(input, pos, obj.as_slice());
            },
            None => {},
        }
        match self.next_trailer {
            Some(at) => if at < pos {
                self.next_trailer = find_from(input, pos, trailer.as_slice());
            },
            None => {},
        }
        match self.next_startxref {
            Some(at) => if at < pos {
                self.next_startxref = find_from(input, pos, startxref.as_slice());
            },
            None => {},
        }
    }
}

proof fn lemma_find_between_of(s: Seq<u8>, from: int, to: int, needle: Seq<u8>)
    requires
        needle.len() > 0,
    ensures
        find_between_of(s, from, to, needle) matches Some(k) ==> from <= k && k + needle.len() <= to,
{
    if 0 <= from <= to <= s.len() {
        let t = s.subrange(from, to);
        lemma_find_from(t, needle, 0);
    }
}

proof fn lemma_next_header_scan(s: Seq<u8>, from: int, pos: int)
    requires
        0 <= from <= pos,
        from <= s.len(),
    ensures
        from <= next_header_scan(s, from, pos) <= s.len(),
    decreases s.len() + 1 - pos,
{
    lemma_find_from_of(s, pos, obj_tag());
    match find_from_of(s, pos, obj_tag()) {
        None => {},
        Some(kw) => {
            match header_before_of(s, kw) {
                Some((start, _, _)) => {
                    lemma_header_before_bounds(s, kw);
                    if !(boundary_after_of(s, kw + 3) && start >= from) {
                        lemma_next_header_scan(s, from, kw + 3);
                    }
                },
                None => {
                    lemma_next_header_scan(s, from, kw + 3);
                },
            }
        },
    }
}

proof fn lemma_header_before_bounds(s: Seq<u8>, kw: int)
    requires
        0 <= kw,
    ensures
        header_before_of(s, kw) matches Some((start, _, _)) ==> 0 <= start < kw,
{
    let gen_end = back_over_space(s, kw);
    lemma_back_over_space(s, kw);
    let gen_start = back_over_digits(s, gen_end);
    lemma_back_over_digits(s, gen_end);
    let num_end = back_over_space(s, gen_start);
    lemma_back_over_space(s, gen_start);
    let num_start = back_over_digits(s, num_end);
    lemma_back_over_digits(s, num_end);
}

/// `t` with `key` copied from `d` when `d` has it.
pub open spec fn kept_key(t: Seq<(Seq<u8>, ObjectView)>, d: Seq<(Seq<u8>, ObjectView)>, key: Seq<u8>) -> Seq<(Seq<u8>, ObjectView)> {
    match dict_get(d, key) {
        Some(v) => crate::object::dict_insert(t, key, v),
        None => t,
    }
}

/// `/Prev` is none of the keys a rebuilt trailer is made of.
proof fn lemma_prev_differs()
    ensures
        "Prev".spec_bytes() != "Root".spec_bytes(),
        "Prev".spec_bytes() != "Size".spec_bytes(),
        "Prev".spec_bytes() != "Info".spec_bytes(),
        "Prev".spec_bytes() != "ID".spec_bytes(),
        "Prev".spec_bytes() != "Encrypt".spec_bytes(),
        "Prev".spec_bytes() != "XRefStm".spec_bytes(),
{
    reveal_strlit("Prev");
    reveal_strlit("Root");
    reveal_strlit("Size");
    reveal_strlit("Info");
    reveal_strlit("ID");
    reveal_strlit("Encrypt");
    reveal_strlit("XRefStm");
    assert(vstd::string::is_ascii("Prev"));
    assert(vstd::string::is_ascii("Root"));
    assert(vstd::string::is_ascii("Size"));
    assert(vstd::string::is_ascii("Info"));
    assert(vstd::string::is_ascii("ID"));
    assert(vstd::string::is_ascii("Encrypt"));
    assert(vstd::string::is_ascii("XRefStm"));
    vstd::string::is_ascii_spec_bytes("Prev");
    vstd::string::is_ascii_spec_bytes("Root");
    vstd::string::is_ascii_spec_bytes("Size");
    vstd::string::is_ascii_spec_bytes("Info");
    vstd::string::is_ascii_spec_bytes("ID");
    vstd::string::is_ascii_spec_bytes("Encrypt");
    vstd::string::is_ascii_spec_bytes("XRefStm");
    assert("Prev".spec_bytes()[0] != "Root".spec_bytes()[0]);
    assert("Prev".spec_bytes()[0] != "Size".spec_bytes()[0]);
    assert("Prev".spec_bytes()[0] != "Info".spec_bytes()[0]);
    assert("Prev".spec_bytes()[0] != "ID".spec_bytes()[0]);
    assert("Prev".spec_bytes()[0] != "Encrypt".spec_bytes()[0]);
    assert("Prev".spec_bytes()[0] != "XRefStm".spec_bytes()[0]);
}

proof fn lemma_kept_key_no_prev(t: Seq<(Seq<u8>, ObjectView)>, d: Seq<(Seq<u8>, ObjectView)>, key: Seq<u8>)
    requires
        crate::object::keys_sorted(t),
        dict_get(t, "Prev".spec_bytes()) is None,
        key != "Prev".spec_bytes(),
    ensures
        crate::object::keys_sorted(kept_key(t, d, key)),
        dict_get(kept_key(t, d, key), "Prev".spec_bytes()) is None,
{
    match dict_get(d, key) {
        Some(v) => {
            crate::object::law_insert_keeps_keys_sorted(t, key, v);
            crate::object::law_get_after_insert(t, key, v, "Prev".spec_bytes());
        },
        None => {},
    }
}

/// The trailer a cross-reference stream gives has no `/Prev`.
proof fn lemma_xref_stream_trailer_no_prev(d: Seq<(Seq<u8>, ObjectView)>)
    ensures
        dict_get(xref_stream_trailer_of(d), "Prev".spec_bytes()) is None,
{
    lemma_prev_differs();
    let e = Seq::<(Seq<u8>, ObjectView)>::empty();
    let t1 = kept_key(e, d, "Root".spec_bytes());
    let t2 = kept_key(t1, d, "Info".spec_bytes());
    let t3 = kept_key(t2, d, "ID".spec_bytes());
    lemma_kept_key_no_prev(e, d, "Root".spec_bytes());
    lemma_kept_key_no_prev(t1, d, "Info".spec_bytes());
    lemma_kept_key_no_prev(t2, d, "ID".spec_bytes());
    lemma_kept_key_no_prev(t3, d, "Encrypt".spec_bytes());
}

/// The trailer keys a cross-reference stream dictionary carries (7.5.8.2):
/// `/Root`, `/Info`, `/ID` and `/Encrypt`, without the stream's own
/// entries.
pub open spec fn xref_stream_trailer_of(d: Seq<(Seq<u8>, ObjectView)>) -> Seq<(Seq<u8>, ObjectView)> {
    kept_key(
        kept_key(kept_key(kept_key(Seq::empty(), d, "Root".spec_bytes()), d, "Info".spec_bytes()), d, "ID".spec_bytes()),
        d,
        "Encrypt".spec_bytes(),
    )
}

fn keep_key(t: &mut Dict, d: &Dict, key: &str)
    ensures
        final(t)@ == kept_key(old(t)@, d@, key.spec_bytes()),
{
    let name = Name::new(key);
    match d.get(&name) {
        Some(v) => t.insert(name, copy_object(v)),
        None => {},
    }
}

/// The trailer part of a cross-reference stream's dictionary (see
/// [`xref_stream_trailer_of`]).
fn xref_stream_trailer(dict: &Dict) -> (t: Dict)
    ensures
        t@ == xref_stream_trailer_of(dict@),
{
    let mut t = Dict::new();
    keep_key(&mut t, dict, "Root");
    keep_key(&mut t, dict, "Info");
    keep_key(&mut t, dict, "ID");
    keep_key(&mut t, dict, "Encrypt");
    t
}

/// The `/Type` name of a dictionary or of a stream's dictionary.
pub open spec fn type_of(o: ObjectView) -> Option<Seq<u8>> {
    match o {
        ObjectView::Dict(d) => match dict_get(d, "Type".spec_bytes()) {
            Some(ObjectView::Name(n)) => Some(n),
            _ => None,
        },
        ObjectView::Stream(d, _) => match dict_get(d, "Type".spec_bytes()) {
            Some(ObjectView::Name(n)) => Some(n),
            _ => None,
        },
        _ => None,
    }
}

/// An object stream: a stream of `/Type /ObjStm`.
pub open spec fn is_object_stream(o: ObjectView) -> bool {
    o is Stream && type_of(o) == Some("ObjStm".spec_bytes())
}

/// A cross-reference stream: a stream of `/Type /XRef`.
pub open spec fn is_xref_stream(o: ObjectView) -> bool {
    o is Stream && !is_object_stream(o) && type_of(o) == Some("XRef".spec_bytes())
}

/// A catalog: of `/Type /Catalog`, and neither of the streams above.
pub open spec fn is_catalog_object(o: ObjectView) -> bool {
    !is_object_stream(o) && !is_xref_stream(o) && type_of(o) == Some("Catalog".spec_bytes())
}

impl<'a> Scan<'a> {
    /// Record object `r`, just parsed at `at`: its definition, and the
    /// object streams, cross-reference streams and catalogs the scan must
    /// remember.
    fn record(&mut self, r: ObjRef, at: usize, obj: &Object)
        requires
            old(self).sound(),
            r.num >= 1,
            header_at(old(self).input@, at as int).0 == Ok::<ObjRef, crate::parser::ParseFailure>(r),
        ensures
            final(self).sound(),
            final(self).input == old(self).input,
            final(self).budget == old(self).budget,
            final(self).next_obj == old(self).next_obj,
            final(self).next_trailer == old(self).next_trailer,
            final(self).entries@ == old(self).entries@.insert(r.num, XrefEntry::InUse { offset: at, gen: r.gen }),
            final(self).ats@ == old(self).ats@.insert(r.num, at),
            final(self).object_streams@ == if is_object_stream(obj@) {
                old(self).object_streams@.push((r.num, at))
            } else {
                old(self).object_streams@
            },
            is_xref_stream(obj@) ==> final(self).trailers@.len() == old(self).trailers@.len() + 1
                && final(self).trailers@.take(old(self).trailers@.len() as int) == old(self).trailers@
                && final(self).trailers@.last()@ == xref_stream_trailer_of(obj@->Stream_0),
            !is_xref_stream(obj@) ==> final(self).trailers@ == old(self).trailers@,
            final(self).catalog == if is_catalog_object(obj@) {
                Some((at, r))
            } else {
                old(self).catalog
            },
    {
        self.put(r.num, XrefEntry::InUse { offset: at, gen: r.gen }, at);
        let dict = match obj.as_dict() {
            Some(d) => d,
            None => return,
        };
        let is_stream = match obj {
            Object::Stream { .. } => true,
            _ => false,
        };
        match dict.get(&Name::new("Type")) {
            Some(Object::Name(n)) => {
                if is_stream && crate::bytes::bytes_eq(n.0.as_slice(), Name::new("ObjStm").0.as_slice()) {
                    self.object_streams.push((r.num, at));
                } else if is_stream && crate::bytes::bytes_eq(n.0.as_slice(), Name::new("XRef").0.as_slice()) {
                    let ghost before = self.trailers@;
                    proof { lemma_xref_stream_trailer_no_prev(dict@); }
                    self.trailers.push(xref_stream_trailer(dict));
                    assert(self.trailers@.take(before.len() as int) =~= before);
                } else if crate::bytes::bytes_eq(n.0.as_slice(), Name::new("Catalog").0.as_slice()) {
                    self.catalog = Some((at, r));
                }
            },
            _ => {},
        }
    }

    /// Parse the object whose header starts at `start` on the input cut at
    /// `end`. On success, record it and return where the parser stopped.
    /// Out of budget, the whole scan stops.
    fn try_parse(&mut self, start: usize, r: ObjRef, end: usize) -> (res: Option<usize>)
        requires
            old(self).sound(),
            r.num >= 1,
            start < old(self).input@.len(),
        ensures
            final(self).sound(),
            final(self).input == old(self).input,
            final(self).next_obj == old(self).next_obj,
            final(self).next_trailer == old(self).next_trailer,
            final(self).budget <= old(self).budget,
            end > start ==> final(self).budget < old(self).budget || final(self).budget == 0,
            res matches Some(p) ==> start < p <= final(self).input@.len(),
            old(self).entries@.dom().subset_of(final(self).entries@.dom()),
    {
        let cost = if end > start {
            end - start
        } else {
            0
        };
        if cost > self.budget {
            self.budget = 0;
            return Some(self.input.len());
        }
        self.budget = self.budget - cost;
        let input = self.input;
        let slice = crate::bytes::prefix_of(input, end);
        let mut parser = Parser::at(slice, start);
        match parser.parse_indirect() {
            Ok((found, obj)) => {
                if found.num == r.num && found.gen == r.gen {
                    // The header read on the whole file is the one found on
                    // the cut: that is what the table records.
                    let mut check = Parser::at(input, start);
                    match check.parse_indirect_header() {
                        Ok(h) => {
                            if h.num == r.num && h.gen == r.gen {
                                self.record(r, start, &obj);
                                let p = parser.pos();
                                return Some(if p > start + 1 { p } else { start + 1 });
                            }
                        },
                        Err(_) => {},
                    }
                }
                None
            },
            Err(_) => None,
        }
    }

    /// `kw` is the position of an `obj` keyword. Accept the object if the
    /// bytes before form a header `n g` and the bytes after parse as an
    /// object. Returns where the scan resumes.
    fn candidate_object(&mut self, kw: usize) -> (resume: usize)
        requires
            old(self).sound(),
            kw + 3 <= old(self).input@.len(),
        ensures
            final(self).sound(),
            final(self).input == old(self).input,
            final(self).next_obj == old(self).next_obj,
            final(self).next_trailer == old(self).next_trailer,
            final(self).budget <= old(self).budget,
            resume <= final(self).input@.len(),
            resume > kw || final(self).budget < old(self).budget || final(self).budget == 0,
            old(self).entries@.dom().subset_of(final(self).entries@.dom()),
    {
        let input = self.input;
        let len = input.len();
        let after = kw + 3;
        if !boundary_after(input, after) {
            return after;
        }
        let (start, r) = match header_before(input, kw) {
            Some(x) => x,
            None => return after,
        };
        proof { lemma_header_before_bounds(input@, kw as int); }
        // Object 0 is the head of the free list, never an object (7.5.4).
        if r.num == 0 || on_comment_line(input, start) {
            return after;
        }
        // Tight cut first: `endobj` if one comes before the next header,
        // else that header. If that parse fails, cut at the real `endobj`
        // instead: this handles `n g obj` inside a string or inside stream
        // data, at the price of a search that may run far.
        let next_header = next_header_start(input, after);
        proof { lemma_next_header_scan(input@, after as int, after as int); }
        let endobj: [u8; 6] = [101, 110, 100, 111, 98, 106];
        proof { lemma_find_between_of(input@, after as int, next_header as int, endobj@); }
        let tight_end = match find_between(input, after, next_header, endobj.as_slice()) {
            Some(e) => e + 6,
            None => next_header,
        };
        match self.try_parse(start, r, tight_end) {
            Some(resume) => return resume,
            None => {},
        }
        let loose_end = object_end(input, after);
        if loose_end > tight_end {
            match self.try_parse(start, r, loose_end) {
                Some(resume) => return resume,
                None => {},
            }
        }
        after
    }
}

impl<'a> Scan<'a> {
    /// `kw` is the position of a `trailer` keyword between objects. Parse
    /// the dictionary that follows, which ends before `startxref`, the next
    /// `obj` or the next `trailer`.
    fn candidate_trailer(&mut self, kw: usize) -> (resume: usize)
        requires
            old(self).sound(),
            kw + 7 <= old(self).input@.len(),
        ensures
            final(self).sound(),
            final(self).input == old(self).input,
            final(self).budget <= old(self).budget,
            kw < resume <= final(self).input@.len(),
            final(self).entries == old(self).entries,
    {
        let input = self.input;
        let len = input.len();
        let after = kw + 7;
        if !boundary_before(input, kw) || !boundary_after(input, after) {
            return after;
        }
        // This keyword is consumed: look for the next one.
        let trailer: [u8; 7] = [116, 114, 97, 105, 108, 101, 114];
        assert(trailer@ =~= trailer_word());
        proof { lemma_find_from_of(input@, after as int, trailer_word()); }
        self.next_trailer = find_from(input, after, trailer.as_slice());
        self.refresh(after);
        let mut end = len;
        match self.next_startxref {
            Some(x) => if x < end {
                end = x;
            },
            None => {},
        }
        match self.next_trailer {
            Some(x) => if x < end {
                end = x;
            },
            None => {},
        }
        match self.next_obj {
            Some(x) => if x < end {
                end = x;
            },
            None => {},
        }
        let cost = if end > kw {
            end - kw
        } else {
            0
        };
        if cost > self.budget {
            self.budget = 0;
            return len;
        }
        self.budget = self.budget - cost;
        let slice = crate::bytes::prefix_of(input, end);
        let mut parser = Parser::at(slice, after);
        match parser.parse_object() {
            Ok(Object::Dict(d)) => {
                let mut d = d;
                proof {
                    use_type_invariant(&d);
                    Dict::lemma_keys_in_order(d);
                    crate::object::law_get_after_remove(d@, "Prev".spec_bytes(), "Prev".spec_bytes());
                }
                let _ = d.remove(&Name::new("Prev"));
                let ghost d1 = d@;
                proof {
                    lemma_prev_differs();
                    crate::object::law_get_after_remove(d1, "XRefStm".spec_bytes(), "Prev".spec_bytes());
                }
                let _ = d.remove(&Name::new("XRefStm"));
                self.trailers.push(d);
                let p = parser.pos();
                if p > after {
                    p
                } else {
                    after
                }
            },
            _ => after,
        }
    }

    /// Walk the file from start to end, alternating between the next `obj`
    /// and the next `trailer` keyword, whichever comes first, until the
    /// end or the budget runs out.
    fn run(&mut self)
        requires
            old(self).sound(),
        ensures
            final(self).sound(),
            final(self).input == old(self).input,
            old(self).entries@.dom().subset_of(final(self).entries@.dom()),
            final(self).budget == 0 || (final(self).next_obj is None && final(self).next_trailer is None),
    {
        let mut pos: usize = 0;
        while self.budget > 0
            invariant
                self.sound(),
                self.input == old(self).input,
                pos <= self.input@.len(),
                old(self).entries@.dom().subset_of(self.entries@.dom()),
            ensures
                self.sound(),
                self.input == old(self).input,
                old(self).entries@.dom().subset_of(self.entries@.dom()),
                self.budget == 0 || (self.next_obj is None && self.next_trailer is None),
            decreases self.budget, self.input@.len() - pos,
        {
            self.refresh(pos);
            let next = match (self.next_obj, self.next_trailer) {
                (None, None) => break,
                (Some(o), None) => self.candidate_object(o),
                (None, Some(t)) => self.candidate_trailer(t),
                (Some(o), Some(t)) => if o < t {
                    self.candidate_object(o)
                } else {
                    self.candidate_trailer(t)
                },
            };
            pos = next;
        }
    }

    /// Re-read and decode the object stream `num` at `at`. Its `/N` and
    /// `/First` must be direct: with the table being rebuilt, references
    /// are not followed here.
    fn load_object_stream(&self, num: u32, at: usize, limits: DecodeLimits) -> (r: Option<ObjectStream>)
        ensures
            match loaded_stream(self.input@, num, at, limits) {
                Some((data, objects)) => r matches Some(st) && st.data@ == data && st.objects@ == objects,
                None => r is None,
            },
    {
        reveal(loaded_stream);
        let mut parser = Parser::at(self.input, at);
        let (found, obj) = match parser.parse_indirect() {
            Ok(x) => x,
            Err(_) => return None,
        };
        if found.num != num {
            return None;
        }
        let (dict, data) = match obj {
            Object::Stream { dict, data } => (dict, data),
            _ => return None,
        };
        let count = match direct_count(&dict, "N") {
            Some(c) => c,
            None => return None,
        };
        let first = match direct_count(&dict, "First") {
            Some(f) => f,
            None => return None,
        };
        let decoded = match decode_stream_with(&dict, data.as_slice(), &Direct, limits) {
            Ok(d) => d,
            Err(_) => return None,
        };
        match ObjectStream::from_decoded(num, decoded, count, first) {
            Ok(s) => Some(s),
            Err(_) => None,
        }
    }

    /// Open every object stream found and index its objects, subject to
    /// the "last wins" rule: an object takes the stream's position. A
    /// stream that cannot be decoded or parsed is skipped.
    #[verifier::rlimit(50)]
    fn index_object_streams(&mut self, limits: DecodeLimits)
        requires
            old(self).sound(),
        ensures
            final(self).sound(),
            final(self).input == old(self).input,
            old(self).entries@.dom().subset_of(final(self).entries@.dom()),
            (final(self).entries@, final(self).ats@, final(self).catalog) == indexed_streams(
                (old(self).entries@, old(self).ats@, old(self).catalog),
                old(self).input@,
                old(self).object_streams@,
                limits,
                old(self).object_streams@.len() as int,
            ),
    {
        let mut streams: Vec<(u32, usize)> = Vec::new();
        let mut k: usize = 0;
        while k < self.object_streams.len()
            invariant
                k <= self.object_streams@.len(),
                streams@ == self.object_streams@.take(k as int),
            decreases self.object_streams@.len() - k,
        {
            streams.push(self.object_streams[k]);
            assert(self.object_streams@.take(k + 1) =~= self.object_streams@.take(k as int).push(self.object_streams@[k as int]));
            k = k + 1;
        }
        assert(self.object_streams@.take(self.object_streams@.len() as int) =~= self.object_streams@);
        let ghost start_dom = self.entries@.dom();
        let ghost start: Placement = (self.entries@, self.ats@, self.catalog);
        let catalog_word: [u8; 8] = [47, 67, 97, 116, 97, 108, 111, 103];
        assert(catalog_word@ =~= catalog_tag());
        let mut s: usize = 0;
        while s < streams.len()
            invariant
                self.sound(),
                self.input == old(self).input,
                self.object_streams == old(self).object_streams,
                streams@ == self.object_streams@,
                start_dom.subset_of(self.entries@.dom()),
                start_dom == old(self).entries@.dom(),
                start == (old(self).entries@, old(self).ats@, old(self).catalog),
                s <= streams@.len(),
                catalog_word@ == catalog_tag(),
                (self.entries@, self.ats@, self.catalog) == indexed_streams(start, self.input@, streams@, limits, s as int),
            decreases streams@.len() - s,
        {
            let (num, at) = streams[s];
            assert(streams@[s as int].0 >= 1);
            let ghost prev: Placement = (self.entries@, self.ats@, self.catalog);
            proof {
                assert(streams@[s as int] == (num, at));
                assert(indexed_streams(start, self.input@, streams@, limits, s + 1) == match loaded_stream(self.input@, num, at, limits) {
                    None => prev,
                    Some((data, objects)) => indexed_stream(prev, num, at, data, objects, spec_find(data, catalog_tag()) is Some, indexed_count(objects)),
                });
            }
            match self.load_object_stream(num, at, limits) {
                None => {
                    assert(loaded_stream(self.input@, num, at, limits) is None);
                },
                Some(stream) => {
                    let has_catalog = find(stream.data.as_slice(), catalog_word.as_slice()).is_some();
                    assert(has_catalog == (spec_find(stream.data@, catalog_tag()) is Some));
                    assert(loaded_stream(self.input@, num, at, limits) == Some((stream.data@, stream.objects@)));
                    self.index_stream(num, at, &stream, has_catalog);
                },
            }
            s = s + 1;
        }
    }
}

impl<'a> Scan<'a> {
    /// Index the objects of `stream`, object stream `num` found at `at`
    /// (see [`indexed_stream`]).
    fn index_stream(&mut self, num: u32, at: usize, stream: &ObjectStream, has_catalog: bool)
        requires
            old(self).sound(),
            num >= 1,
        ensures
            final(self).sound(),
            final(self).input == old(self).input,
            final(self).object_streams == old(self).object_streams,
            old(self).entries@.dom().subset_of(final(self).entries@.dom()),
            (final(self).entries@, final(self).ats@, final(self).catalog) == indexed_stream(
                (old(self).entries@, old(self).ats@, old(self).catalog),
                num,
                at,
                stream.data@,
                stream.objects@,
                has_catalog,
                indexed_count(stream.objects@),
            ),
    {
        let ghost prev: Placement = (self.entries@, self.ats@, self.catalog);
        let mut j: usize = 0;
        while j < stream.objects.len()
            invariant
                self.sound(),
                self.input == old(self).input,
                self.object_streams == old(self).object_streams,
                old(self).entries@.dom().subset_of(self.entries@.dom()),
                num >= 1,
                prev == (old(self).entries@, old(self).ats@, old(self).catalog),
                j <= u32::MAX as int + 1,
                j <= stream.objects@.len(),
                (self.entries@, self.ats@, self.catalog) == indexed_stream(prev, num, at, stream.data@, stream.objects@, has_catalog, j as int),
            ensures
                (self.entries@, self.ats@, self.catalog) == indexed_stream(prev, num, at, stream.data@, stream.objects@, has_catalog, indexed_count(stream.objects@)),
            decreases stream.objects@.len() - j,
        {
            if j > u32::MAX as usize {
                break;
            }
            let (inner, offset) = stream.objects[j];
            self.index_one(num, at, j as u32, inner, offset, stream.data.as_slice(), has_catalog);
            j = j + 1;
        }
    }

    /// Object `inner`, the `index`-th of object stream `num` found at `at`:
    /// recorded when its last definition so far comes before the stream,
    /// and taken as the catalog when it is one and comes after the last
    /// catalog seen.
    /// Whether object `inner` was last defined before `at`, or not at all.
    fn defined_before(&self, inner: u32, at: usize) -> (b: bool)
        ensures
            b == (!self.ats@.contains_key(inner) || self.ats@[inner] < at),
    {
        match self.ats.get(&inner) {
            None => true,
            Some(prev) => *prev < at,
        }
    }

    fn index_one(&mut self, num: u32, at: usize, index: u32, inner: u32, offset: usize, data: &[u8], has_catalog: bool)
        requires
            old(self).sound(),
            num >= 1,
        ensures
            final(self).sound(),
            final(self).input == old(self).input,
            final(self).object_streams == old(self).object_streams,
            old(self).entries@.dom().subset_of(final(self).entries@.dom()),
            final(self).trailers == old(self).trailers,
            final(self).entries@ == if !old(self).ats@.contains_key(inner) || old(self).ats@[inner] < at {
                old(self).entries@.insert(inner, XrefEntry::InStream { stream_num: num, index })
            } else {
                old(self).entries@
            },
            final(self).ats@ == if !old(self).ats@.contains_key(inner) || old(self).ats@[inner] < at {
                old(self).ats@.insert(inner, at)
            } else {
                old(self).ats@
            },
            final(self).catalog == if (!old(self).ats@.contains_key(inner) || old(self).ats@[inner] < at) && has_catalog
                && (match old(self).catalog {
                    None => true,
                    Some((pos, _)) => pos < at,
                }) && is_catalog_at(data@, offset) {
                Some((at, ObjRef { num: inner, gen: 0 }))
            } else {
                old(self).catalog
            },
    {
        if !self.defined_before(inner, at) {
            return;
        }
        self.put(inner, XrefEntry::InStream { stream_num: num, index }, at);
        let later = match self.catalog {
            None => true,
            Some((pos, _)) => pos < at,
        };
        if has_catalog && later && catalog_at(data, offset) {
            self.catalog = Some((at, ObjRef { num: inner, gen: 0 }));
        }
    }
}

/// A direct non-negative integer entry of `d`.
pub open spec fn direct_count_of(d: Seq<(Seq<u8>, ObjectView)>, key: Seq<u8>) -> Option<usize> {
    match dict_get(d, key) {
        Some(ObjectView::Integer(v)) => if 0 <= v <= usize::MAX {
            Some(v as usize)
        } else {
            None
        },
        _ => None,
    }
}

/// The object stream `num` read at `at` of `input`: its decoded data and
/// the numbers and offsets of its objects. None when the object there is
/// not stream `num`, its `/N` or `/First` is not a direct count, its data
/// do not decode, or its header does not parse.
#[verifier::opaque]
pub open spec fn loaded_stream(input: Seq<u8>, num: u32, at: usize, limits: DecodeLimits) -> Option<(Seq<u8>, Seq<(u32, usize)>)> {
    let p = if at <= input.len() { at as int } else { input.len() as int };
    match crate::parser::indirect_at(input, p).0 {
        Ok((found, ObjectView::Stream(dict, data))) => if found.num != num {
            None
        } else {
            match (direct_count_of(dict, "N".spec_bytes()), direct_count_of(dict, "First".spec_bytes())) {
                (Some(count), Some(first)) => match crate::decode::spec_decode_stream(dict, data, &Direct, limits) {
                    Ok(decoded) => if first > decoded.len() {
                        None
                    } else {
                        match crate::document::header_pairs(decoded.take(first as int), 0, count as nat, first as nat, decoded.len(), Seq::empty()) {
                            Ok(pairs) => Some((decoded, pairs)),
                            Err(_) => None,
                        }
                    },
                    Err(_) => None,
                },
                _ => None,
            }
        },
        _ => None,
    }
}

/// What the scan knows of where objects are: the entries, the position
/// of each definition, and the last catalog seen.
pub type Placement = (Map<u32, XrefEntry>, Map<u32, usize>, Option<(usize, ObjRef)>);

/// `st` once object `inner`, the `index`-th of object stream `num` found
/// at `at`, is considered: recorded when its last definition so far comes
/// before the stream, and taken as the catalog when the stream mentions
/// `/Catalog`, it comes after the last catalog seen and it is one.
pub open spec fn indexed_one(st: Placement, num: u32, at: usize, index: u32, inner: u32, offset: usize, data: Seq<u8>, has_catalog: bool) -> Placement {
    if st.1.contains_key(inner) && st.1[inner] >= at {
        st
    } else {
        (
            st.0.insert(inner, XrefEntry::InStream { stream_num: num, index }),
            st.1.insert(inner, at),
            if has_catalog && (match st.2 {
                None => true,
                Some((pos, _)) => pos < at,
            }) && is_catalog_at(data, offset) {
                Some((at, ObjRef { num: inner, gen: 0 }))
            } else {
                st.2
            },
        )
    }
}

/// `st` once the first `j` objects of a stream are considered.
pub open spec fn indexed_stream(st: Placement, num: u32, at: usize, data: Seq<u8>, objects: Seq<(u32, usize)>, has_catalog: bool, j: int) -> Placement
    decreases j,
{
    if j <= 0 {
        st
    } else {
        let prev = indexed_stream(st, num, at, data, objects, has_catalog, j - 1);
        indexed_one(prev, num, at, (j - 1) as u32, objects[j - 1].0, objects[j - 1].1, data, has_catalog)
    }
}

/// `/Catalog`.
pub open spec fn catalog_tag() -> Seq<u8> {
    seq![47u8, 67u8, 97u8, 116u8, 97u8, 108u8, 111u8, 103u8]
}

/// How many objects of a stream are indexed: all, up to the count an
/// index can hold.
pub open spec fn indexed_count(objects: Seq<(u32, usize)>) -> int {
    if objects.len() > u32::MAX as int + 1 {
        u32::MAX as int + 1
    } else {
        objects.len() as int
    }
}

/// `st` once the first `s` of `streams` that load are indexed.
pub open spec fn indexed_streams(st: Placement, input: Seq<u8>, streams: Seq<(u32, usize)>, limits: DecodeLimits, s: int) -> Placement
    decreases s,
{
    if s <= 0 {
        st
    } else {
        let prev = indexed_streams(st, input, streams, limits, s - 1);
        match loaded_stream(input, streams[s - 1].0, streams[s - 1].1, limits) {
            None => prev,
            Some((data, objects)) => indexed_stream(
                prev,
                streams[s - 1].0,
                streams[s - 1].1,
                data,
                objects,
                spec_find(data, catalog_tag()) is Some,
                indexed_count(objects),
            ),
        }
    }
}

/// Whether the object at `offset` of `data` is a dictionary of
/// `/Type /Catalog`.
pub open spec fn is_catalog_at(data: Seq<u8>, offset: usize) -> bool {
    let p = if offset <= data.len() { offset as int } else { data.len() as int };
    match crate::parser::object_at(data, p, 0).0 {
        Ok(ObjectView::Dict(d)) => dict_get(d, "Type".spec_bytes()) == Some(ObjectView::Name("Catalog".spec_bytes())),
        _ => false,
    }
}

fn catalog_at(data: &[u8], offset: usize) -> (b: bool)
    ensures
        b == is_catalog_at(data@, offset),
{
    let mut parser = Parser::at(data, offset);
    match parser.parse_object() {
        Ok(Object::Dict(d)) => match d.get(&Name::new("Type")) {
            Some(Object::Name(n)) => crate::bytes::bytes_eq(n.0.as_slice(), Name::new("Catalog").0.as_slice()),
            _ => false,
        },
        _ => false,
    }
}

/// A direct non-negative integer entry.
fn direct_count(dict: &Dict, key: &str) -> (r: Option<usize>)
    ensures
        match dict_get(dict@, key.spec_bytes()) {
            Some(ObjectView::Integer(v)) => if 0 <= v <= usize::MAX {
                r == Some(v as usize)
            } else {
                r is None
            },
            _ => r is None,
        },
{
    match dict.get(&Name::new(key)) {
        Some(Object::Integer(v)) => {
            if *v >= 0 && *v as u64 <= usize::MAX as u64 {
                Some(*v as usize)
            } else {
                None
            }
        },
        _ => None,
    }
}

/// `/Size` and `/Root` are different keys.
proof fn lemma_size_is_not_root()
    ensures
        "Size".spec_bytes() != "Root".spec_bytes(),
{
    reveal_strlit("Size");
    reveal_strlit("Root");
    assert(vstd::string::is_ascii("Size"));
    assert(vstd::string::is_ascii("Root"));
    vstd::string::is_ascii_spec_bytes("Size");
    vstd::string::is_ascii_spec_bytes("Root");
    assert("Size".spec_bytes()[0] != "Root".spec_bytes()[0]);
}

impl<'a> Scan<'a> {
    /// The trailer dictionaries merged, later ones overriding earlier ones
    /// key by key; `/Root` kept when it is a dictionary or leads to a found
    /// object, else the last catalog found, else none; `/Size` one past the
    /// highest number.
    fn trailer(&self) -> (t: Dict)
        requires
            self.sound(),
            self.max_num is Some,
        ensures
            dict_get(t@, "Size".spec_bytes()) == Some(ObjectView::Integer((self.max_num->Some_0 + 1) as i64)),
            match dict_get(t@, "Root".spec_bytes()) {
                None => true,
                Some(ObjectView::Dict(_)) => true,
                Some(ObjectView::Reference(r)) => self.entries@.contains_key(r.num),
                Some(_) => false,
            },
            dict_get(t@, "Prev".spec_bytes()) is None,
    {
        let mut t = Dict::new();
        assert(crate::object::keys_sorted(t@));
        let mut i: usize = 0;
        while i < self.trailers.len()
            invariant
                i <= self.trailers@.len(),
                crate::object::keys_sorted(t@),
                self.sound(),
                dict_get(t@, "Prev".spec_bytes()) is None,
            decreases self.trailers@.len() - i,
        {
            let entries = self.trailers[i].entries();
            let ghost tv = self.trailers@[i as int]@;
            proof {
                crate::object::lemma_entries_view(entries@);
                crate::object::lemma_key_position(tv, "Prev".spec_bytes());
                assert(dict_get(tv, "Prev".spec_bytes()) is None);
            }
            let mut j: usize = 0;
            while j < entries.len()
                invariant
                    j <= entries@.len(),
                    crate::object::keys_sorted(t@),
                    dict_get(t@, "Prev".spec_bytes()) is None,
                    tv == crate::object::entries_view(entries@),
                    forall|x: int| 0 <= x < tv.len() ==> (#[trigger] tv[x]).0 != "Prev".spec_bytes(),
                decreases entries@.len() - j,
            {
                let ghost before = t@;
                let key = Name(crate::bytes::to_vec(entries[j].0.0.as_slice()));
                let value = copy_object(&entries[j].1);
                proof {
                    crate::object::lemma_entries_view(entries@);
                    assert(tv[j as int].0 == key.0@);
                    crate::object::law_insert_keeps_keys_sorted(before, key.0@, value@);
                    crate::object::law_get_after_insert(before, key.0@, value@, "Prev".spec_bytes());
                }
                t.insert(key, value);
                j = j + 1;
            }
            i = i + 1;
        }
        proof { lemma_prev_differs(); }
        let root = Name::new("Root");
        let root_ok = match t.get(&root) {
            Some(Object::Reference(r)) => self.entries.contains_key(&r.num),
            Some(Object::Dict(_)) => true,
            _ => false,
        };
        if !root_ok {
            let ghost before = t@;
            match self.catalog {
                Some((_, r)) => {
                    proof {
                        crate::object::law_insert_keeps_keys_sorted(before, root.0@, ObjectView::Reference(r));
                        crate::object::law_get_after_insert(before, root.0@, ObjectView::Reference(r), root.0@);
                        crate::object::law_get_after_insert(before, root.0@, ObjectView::Reference(r), "Prev".spec_bytes());
                    }
                    t.insert(root, Object::Reference(r));
                },
                None => {
                    proof {
                        crate::object::law_get_after_remove(before, root.0@, root.0@);
                        crate::object::law_get_after_remove(before, root.0@, "Prev".spec_bytes());
                    }
                    let _ = t.remove(&root);
                },
            }
        }
        let size: i64 = match self.max_num {
            Some(m) => m as i64 + 1,
            None => 0,
        };
        let ghost before = t@;
        let size_key = Name::new("Size");
        proof {
            lemma_size_is_not_root();
            crate::object::law_get_after_insert(before, size_key.0@, ObjectView::Integer(size), "Root".spec_bytes());
            crate::object::law_get_after_insert(before, size_key.0@, ObjectView::Integer(size), "Prev".spec_bytes());
        }
        t.insert(size_key, Object::Integer(size));
        t
    }
}

/// Rebuild a cross-reference table from the objects present in `input`
/// (see [`rebuilt_ok`] for what the result promises; its trailer never has
/// `/Prev`). `None` when no object at all was found: there is nothing to
/// open.
pub fn reconstruct(input: &[u8], limits: DecodeLimits) -> (r: Option<Xref>)
    ensures
        r matches Some(x) ==> x@.kind == crate::xref::SectionKind::Reconstructed && rebuilt_ok(input@, x@.entries, x@.trailer),
        r matches Some(x) ==> dict_get(x@.trailer, "Prev".spec_bytes()) is None,
{
    let obj: [u8; 3] = [111, 98, 106];
    let trailer: [u8; 7] = [116, 114, 97, 105, 108, 101, 114];
    let startxref: [u8; 9] = [115, 116, 97, 114, 116, 120, 114, 101, 102];
    assert(obj@ =~= obj_word());
    assert(trailer@ =~= trailer_word());
    assert(startxref@ =~= startxref_word());
    proof {
        lemma_find_from_of(input@, 0, obj_word());
        lemma_find_from_of(input@, 0, trailer_word());
    }
    let budget = if input.len() <= usize::MAX / BUDGET_FACTOR {
        let b = input.len() * BUDGET_FACTOR;
        if b > BUDGET_FLOOR {
            b
        } else {
            BUDGET_FLOOR
        }
    } else {
        usize::MAX
    };
    let mut scan = Scan {
        input,
        budget,
        next_obj: find_from(input, 0, obj.as_slice()),
        next_trailer: find_from(input, 0, trailer.as_slice()),
        next_startxref: find_from(input, 0, startxref.as_slice()),
        entries: BTreeMap::new(),
        ats: BTreeMap::new(),
        max_num: None,
        object_streams: Vec::new(),
        catalog: None,
        trailers: Vec::new(),
    };
    assert(scan.entries@.dom() =~= Set::<u32>::empty());
    scan.run();
    if scan.max_num.is_none() {
        return None;
    }
    scan.index_object_streams(limits);
    let trailer = scan.trailer();
    let x = Xref::reconstructed(scan.entries, trailer);
    proof {
        let m = scan.max_num->Some_0;
        assert(x@.entries.contains_key(m));
        vstd::std_specs::btree::axiom_btree_map_view_finite_dom(scan.entries);
        assert(x@.entries.dom().contains(m));
        vstd::set_lib::lemma_set_empty_equivalency_len(x@.entries.dom());
    }
    Some(x)
}

} // verus!
