//! Object parser (ISO 32000-2, 7.3): turns tokens into [`Object`] values,
//! with `n g R` references and stream bodies; and the byte-slice search
//! shared by the readers.

use crate::lexer::{
    lemma_skip_from_bounds, lemma_token_at_bounds, skip_from, token_at, token_result, debug_quoted,
    LexFailure, Lexer, Token, TokenView,
};
use crate::object::{
    dict_get, dict_insert, items_view, lemma_items_view, utf8_lossy, Dict, Name, ObjRef, Object,
    ObjectView,
};
use crate::recover::{endstream_tag, find_from, find_from_of};
use crate::bytes::{bytes_eq, to_vec};
use crate::object::lossy_string;
use crate::lexer::debug_string;
use crate::text::string_of;
use crate::Error;
use vstd::prelude::*;

verus! {

/// Deepest nesting of arrays and dictionaries accepted (protection against
/// hostile files).
pub const MAX_DEPTH: usize = 256;

/// `needle` occurs in `haystack` at position `i`.
pub open spec fn occurs_at(haystack: Seq<u8>, needle: Seq<u8>, i: int) -> bool {
    0 <= i && i + needle.len() <= haystack.len() && haystack.subrange(i, i + needle.len()) == needle
}

/// First occurrence of a non-empty `needle` at or after `i`.
pub open spec fn find_from_spec(haystack: Seq<u8>, needle: Seq<u8>, i: int) -> Option<int>
    decreases haystack.len() - i,
{
    if needle.len() == 0 || i < 0 || i + needle.len() > haystack.len() {
        None
    } else if occurs_at(haystack, needle, i) {
        Some(i)
    } else {
        find_from_spec(haystack, needle, i + 1)
    }
}

/// First occurrence of a non-empty `needle` in `haystack`.
pub open spec fn spec_find(haystack: Seq<u8>, needle: Seq<u8>) -> Option<int> {
    find_from_spec(haystack, needle, 0)
}

pub proof fn lemma_find_from(haystack: Seq<u8>, needle: Seq<u8>, i: int)
    requires
        0 <= i,
    ensures
        find_from_spec(haystack, needle, i) matches Some(k) ==> i <= k && occurs_at(haystack, needle, k)
            && forall|j: int| i <= j < k ==> !occurs_at(haystack, needle, j),
        needle.len() > 0 && find_from_spec(haystack, needle, i) is None ==> forall|j: int|
            i <= j ==> !occurs_at(haystack, needle, j),
    decreases haystack.len() - i,
{
    if needle.len() == 0 || i + needle.len() > haystack.len() {
    } else if !occurs_at(haystack, needle, i) {
        lemma_find_from(haystack, needle, i + 1);
    }
}

/// Whether `needle` occurs in `haystack` at `at`.
pub(crate) fn matches_at(haystack: &[u8], needle: &[u8], at: usize) -> (r: bool)
    requires
        at + needle@.len() <= haystack@.len(),
    ensures
        r == occurs_at(haystack@, needle@, at as int),
{
    let hlen = haystack.len();
    let mut k: usize = 0;
    while k < needle.len()
        invariant
            k <= needle@.len(),
            hlen == haystack@.len(),
            at + needle@.len() <= haystack@.len(),
            forall|j: int| 0 <= j < k ==> haystack@[at + j] == needle@[j],
        decreases needle@.len() - k,
    {
        if haystack[at + k] != needle[k] {
            assert(haystack@.subrange(at as int, at + needle@.len())[k as int] != needle@[k as int]);
            return false;
        }
        k = k + 1;
    }
    assert(haystack@.subrange(at as int, at + needle@.len()) =~= needle@);
    true
}

/// Byte-slice search. Returns the index of the first occurrence; `None`
/// when `needle` is empty or does not occur.
pub fn find(haystack: &[u8], needle: &[u8]) -> (r: Option<usize>)
    ensures
        r matches Some(i) ==> spec_find(haystack@, needle@) == Some(i as int),
        r is None ==> spec_find(haystack@, needle@) is None,
{
    if needle.len() == 0 || haystack.len() < needle.len() {
        return None;
    }
    let hlen = haystack.len();
    let last = hlen - needle.len();
    let mut i: usize = 0;
    while i <= last
        invariant
            i <= last + 1,
            hlen == haystack@.len(),
            last + needle@.len() == haystack@.len(),
            needle@.len() > 0,
            spec_find(haystack@, needle@) == find_from_spec(haystack@, needle@, i as int),
        decreases last + 1 - i,
    {
        if matches_at(haystack, needle, i) {
            return Some(i);
        }
        i = i + 1;
    }
    None
}


/// Why no object could be read.
pub enum ParseFailure {
    Eof,
    TooDeep,
    Syntax(int, Seq<char>),
}

/// The failure a lexing failure stands for.
pub open spec fn lex_failure(f: LexFailure) -> ParseFailure {
    match f {
        LexFailure::Eof => ParseFailure::Eof,
        LexFailure::Syntax(o, m) => ParseFailure::Syntax(o, m),
    }
}

/// `e` is the error reported for `f`.
pub open spec fn failure_is(e: Error, f: ParseFailure) -> bool {
    match f {
        ParseFailure::Eof => e == Error::UnexpectedEof,
        ParseFailure::TooDeep => e == Error::TooDeep,
        ParseFailure::Syntax(off, msg) => e matches Error::Syntax { offset, message } && offset == off
            && message@ == msg,
    }
}

/// `r` is what `x` says: the object, or the error.
pub open spec fn object_result(r: Result<Object, Error>, x: Result<ObjectView, ParseFailure>) -> bool {
    match x {
        Ok(v) => r matches Ok(o) && o@ == v,
        Err(f) => r matches Err(e) && failure_is(e, f),
    }
}

pub open spec fn word_true() -> Seq<u8> {
    seq![116u8, 114u8, 117u8, 101u8]
}

pub open spec fn word_false() -> Seq<u8> {
    seq![102u8, 97u8, 108u8, 115u8, 101u8]
}

pub open spec fn word_null() -> Seq<u8> {
    seq![110u8, 117u8, 108u8, 108u8]
}

pub open spec fn word_r() -> Seq<u8> {
    seq![82u8]
}

pub open spec fn word_obj() -> Seq<u8> {
    seq![111u8, 98u8, 106u8]
}

pub open spec fn word_endobj() -> Seq<u8> {
    seq![101u8, 110u8, 100u8, 111u8, 98u8, 106u8]
}

pub open spec fn word_stream() -> Seq<u8> {
    seq![115u8, 116u8, 114u8, 101u8, 97u8, 109u8]
}

pub open spec fn word_length() -> Seq<u8> {
    seq![76u8, 101u8, 110u8, 103u8, 116u8, 104u8]
}

/// The largest object number and generation a reference can carry.
pub open spec fn reference_fits(num: int, gen: int) -> bool {
    0 <= num <= u32::MAX && 0 <= gen <= u16::MAX
}

/// After an integer that ended at `p`: `n g R` is a reference, anything
/// else leaves the integer alone, the parser back at the next token.
pub open spec fn reference_after(s: Seq<u8>, first: i64, p: int) -> (Result<ObjectView, ParseFailure>, int) {
    let (t2, e2) = token_at(s, p);
    let o2 = skip_from(s, p, false);
    match t2 {
        Err(f) => (Err(lex_failure(f)), e2),
        Ok(TokenView::Integer(gen)) => {
            let (t3, e3) = token_at(s, e2);
            match t3 {
                Err(f) => (Err(lex_failure(f)), e3),
                Ok(v3) => if v3 == TokenView::Keyword(word_r()) {
                    if reference_fits(first as int, gen as int) {
                        (Ok(ObjectView::Reference(ObjRef { num: first as u32, gen: gen as u16 })), e3)
                    } else {
                        (Err(ParseFailure::Syntax(o2, "reference out of range"@)), e3)
                    }
                } else {
                    (Ok(ObjectView::Integer(first)), o2)
                },
            }
        },
        Ok(_) => (Ok(ObjectView::Integer(first)), o2),
    }
}

/// Where a run of spaces and tabs from `p` ends.
pub open spec fn blanks_end(s: Seq<u8>, p: int) -> int
    decreases s.len() - p,
{
    if 0 <= p < s.len() && (s[p] == 32u8 || s[p] == 9u8) {
        blanks_end(s, p + 1)
    } else {
        p
    }
}

/// Where stream data starts when the `stream` keyword ends at `p`: after
/// the end of line, which may follow spaces or tabs (ISO 32000-2, 7.3.8.1).
pub open spec fn stream_data_start(s: Seq<u8>, p: int) -> int {
    let b = blanks_end(s, p);
    let p1 = if b < s.len() && (s[b] == 13u8 || s[b] == 10u8) {
        b
    } else {
        p
    };
    let p2 = if 0 <= p1 < s.len() && s[p1] == 13u8 {
        p1 + 1
    } else {
        p1
    };
    if 0 <= p2 < s.len() && s[p2] == 10u8 {
        p2 + 1
    } else {
        p2
    }
}

/// At `e`, after at most one end of line, `endstream` follows.
pub open spec fn endstream_follows(s: Seq<u8>, e: int) -> bool {
    let rest = s.subrange(e, s.len() as int);
    let rest2 = if rest.len() >= 2 && rest[0] == 13u8 && rest[1] == 10u8 {
        rest.skip(2)
    } else if rest.len() >= 1 && (rest[0] == 10u8 || rest[0] == 13u8) {
        rest.skip(1)
    } else {
        rest
    };
    rest2.len() >= 9 && rest2.take(9) == endstream_tag()
}

/// The `/Length` of a stream dictionary when it is a direct integer,
/// else -1.
pub open spec fn declared_length(d: Seq<(Seq<u8>, ObjectView)>) -> int {
    match dict_get(d, word_length()) {
        Some(ObjectView::Integer(n)) => n as int,
        _ => -1,
    }
}

/// Where stream data ends: after the declared `/Length` when `endstream`
/// really follows it, else before the first `endstream` and the end of
/// line that precedes it; `None` without `endstream`.
pub open spec fn stream_data_end(s: Seq<u8>, d: Seq<(Seq<u8>, ObjectView)>, start: int) -> Option<int> {
    let n = declared_length(d);
    if n >= 0 && start + n <= s.len() && endstream_follows(s, start + n) {
        Some(start + n)
    } else {
        match find_from_of(s, start, endstream_tag()) {
            None => None,
            Some(e0) => {
                let e1 = if e0 > start && s[e0 - 1] == 10u8 {
                    e0 - 1
                } else {
                    e0
                };
                Some(
                    if e1 > start && s[e1 - 1] == 13u8 {
                        e1 - 1
                    } else {
                        e1
                    },
                )
            },
        }
    }
}

/// A stream whose dictionary is `d` and whose keyword starts at `ko`.
pub open spec fn stream_at(s: Seq<u8>, d: Seq<(Seq<u8>, ObjectView)>, ko: int) -> (Result<ObjectView, ParseFailure>, int) {
    let start = stream_data_start(s, ko + 6);
    match stream_data_end(s, d, start) {
        None => (Err(ParseFailure::Eof), s.len() as int),
        Some(end) => {
            let after = match find_from_of(s, end, endstream_tag()) {
                Some(k) => k + 9,
                None => s.len() as int,
            };
            (Ok(ObjectView::Stream(d, s.subrange(start, end))), after)
        },
    }
}

/// After a dictionary that ended at `p`: a stream when a keyword starting
/// with `stream` follows, else the dictionary, the parser back at the
/// next token.
pub open spec fn after_dict(s: Seq<u8>, d: Seq<(Seq<u8>, ObjectView)>, p: int) -> (Result<ObjectView, ParseFailure>, int) {
    let (t, e) = token_at(s, p);
    let o = skip_from(s, p, false);
    match t {
        Err(f) => (Err(lex_failure(f)), e),
        Ok(TokenView::Keyword(k)) => if k.len() >= 6 && k.take(6) == word_stream() {
            stream_at(s, d, o)
        } else {
            (Ok(ObjectView::Dict(d)), o)
        },
        Ok(_) => (Ok(ObjectView::Dict(d)), o),
    }
}

/// The object read from `p` at nesting `depth` (ISO 32000-2, 7.3), and
/// where the parser stands after it.
pub open spec fn object_at(s: Seq<u8>, p: int, depth: int) -> (Result<ObjectView, ParseFailure>, int)
    decreases s.len() - p, 0int,
{
    if depth > MAX_DEPTH {
        (Err(ParseFailure::TooDeep), p)
    } else {
        let (t, e) = token_at(s, p);
        let start = skip_from(s, p, false);
        match t {
            Err(f) => (Err(lex_failure(f)), e),
            Ok(TokenView::Eof) => (Err(ParseFailure::Eof), e),
            Ok(TokenView::Integer(first)) => reference_after(s, first, e),
            Ok(TokenView::Real(r)) => (Ok(ObjectView::Real(r)), e),
            Ok(TokenView::LiteralString(v)) => (Ok(ObjectView::String(v)), e),
            Ok(TokenView::HexString(v)) => (Ok(ObjectView::String(v)), e),
            Ok(TokenView::Name(n)) => (Ok(ObjectView::Name(n)), e),
            Ok(TokenView::ArrayOpen) => {
                proof {
                    lemma_token_at_bounds(s, p);
                }
                items_at(s, e, depth, Seq::empty())
            },
            Ok(TokenView::DictOpen) => {
                proof {
                    lemma_token_at_bounds(s, p);
                }
                match dict_at(s, e, depth, Seq::empty()) {
                    (Err(f), e2) => (Err(f), e2),
                    (Ok(d), e2) => after_dict(s, d, e2),
                }
            },
            Ok(TokenView::Keyword(k)) => if k == word_true() {
                (Ok(ObjectView::Bool(true)), e)
            } else if k == word_false() {
                (Ok(ObjectView::Bool(false)), e)
            } else if k == word_null() {
                (Ok(ObjectView::Null), e)
            } else {
                (Err(ParseFailure::Syntax(start, "unexpected keyword "@ + debug_quoted(utf8_lossy(k)))), e)
            },
            Ok(_) => (Err(ParseFailure::Syntax(start, "unexpected delimiter"@)), e),
        }
    }
}

/// The rest of an array from `p`, with `acc` already read.
pub open spec fn items_at(s: Seq<u8>, p: int, depth: int, acc: Seq<ObjectView>) -> (Result<ObjectView, ParseFailure>, int)
    decreases s.len() - p, 1int,
{
    let (t, e) = token_at(s, p);
    match t {
        Err(f) => (Err(lex_failure(f)), e),
        Ok(TokenView::ArrayClose) => (Ok(ObjectView::Array(acc)), e),
        Ok(TokenView::Eof) => (Err(ParseFailure::Eof), e),
        Ok(_) => {
            proof {
                lemma_token_at_bounds(s, p);
            }
            let o = skip_from(s, p, false);
            let (r, e2) = object_at(s, o, depth + 1);
            match r {
                Err(f) => (Err(f), e2),
                Ok(v) => if p < e2 <= s.len() {
                    items_at(s, e2, depth, acc.push(v))
                } else {
                    (Err(ParseFailure::Eof), e2)
                },
            }
        },
    }
}

/// The rest of a dictionary from `p`, with `acc` already read. Keys set
/// twice keep their last value; tokens other than a key are skipped.
pub open spec fn dict_at(s: Seq<u8>, p: int, depth: int, acc: Seq<(Seq<u8>, ObjectView)>) -> (Result<Seq<(Seq<u8>, ObjectView)>, ParseFailure>, int)
    decreases s.len() - p, 1int,
{
    let (t, e) = token_at(s, p);
    match t {
        Err(f) => (Err(lex_failure(f)), e),
        Ok(TokenView::DictClose) => (Ok(acc), e),
        Ok(TokenView::Eof) => (Err(ParseFailure::Eof), e),
        Ok(TokenView::Name(key)) => {
            proof {
                lemma_token_at_bounds(s, p);
            }
            let (r, e2) = object_at(s, e, depth + 1);
            match r {
                Err(f) => (Err(f), e2),
                Ok(v) => if p < e2 <= s.len() {
                    dict_at(s, e2, depth, dict_insert(acc, key, v))
                } else {
                    (Err(ParseFailure::Eof), e2)
                },
            }
        },
        Ok(_) => {
            proof {
                lemma_token_at_bounds(s, p);
            }
            dict_at(s, e, depth, acc)
        },
    }
}

/// The `n g obj` header read from `p`, and where the parser stands after it.
pub open spec fn header_at(s: Seq<u8>, p: int) -> (Result<ObjRef, ParseFailure>, int) {
    let o1 = skip_from(s, p, false);
    let (t1, e1) = token_at(s, p);
    let (t2, e2) = token_at(s, e1);
    let (t3, e3) = token_at(s, e2);
    match t1 {
        Err(f) => (Err(lex_failure(f)), e1),
        Ok(v1) => match t2 {
            Err(f) => (Err(lex_failure(f)), e2),
            Ok(v2) => match t3 {
                Err(f) => (Err(lex_failure(f)), e3),
                Ok(v3) => if v1 is Integer && v2 is Integer && v3 == TokenView::Keyword(word_obj()) {
                    let n = v1->Integer_0;
                    let g = v2->Integer_0;
                    if !(0 <= n <= u32::MAX) {
                        (Err(ParseFailure::Syntax(o1, "bad object number"@)), e3)
                    } else if !(0 <= g <= u16::MAX) {
                        (Err(ParseFailure::Syntax(o1, "bad generation"@)), e3)
                    } else {
                        (Ok(ObjRef { num: n as u32, gen: g as u16 }), e3)
                    }
                } else {
                    (Err(ParseFailure::Syntax(o1, "expected `n g obj`"@)), e3)
                },
            },
        },
    }
}

/// The indirect object `n g obj ... endobj` read from `p`; a missing
/// `endobj` is tolerated.
pub open spec fn indirect_at(s: Seq<u8>, p: int) -> (Result<(ObjRef, ObjectView), ParseFailure>, int) {
    match header_at(s, p) {
        (Err(f), e) => (Err(f), e),
        (Ok(r), e) => match object_at(s, e, 0) {
            (Err(f), e2) => (Err(f), e2),
            (Ok(v), e2) => {
                let (t, e3) = token_at(s, e2);
                match t {
                    Err(f) => (Err(lex_failure(f)), e3),
                    Ok(tv) => if tv == TokenView::Keyword(word_endobj()) {
                        (Ok((r, v)), e3)
                    } else {
                        (Ok((r, v)), skip_from(s, e2, false))
                    },
                }
            },
        },
    }
}


/// Where a run of spaces and tabs from `p` ends.
fn blanks_end_at(input: &[u8], p: usize) -> (r: usize)
    requires
        p <= input@.len(),
    ensures
        r == blanks_end(input@, p as int),
        p <= r <= input@.len(),
{
    let mut q = p;
    while q < input.len() && (input[q] == 32 || input[q] == 9)
        invariant
            p <= q <= input@.len(),
            blanks_end(input@, q as int) == blanks_end(input@, p as int),
        decreases input@.len() - q,
    {
        q = q + 1;
    }
    q
}

/// Where stream data starts when the `stream` keyword ends at `p`.
fn data_start(input: &[u8], p: usize) -> (r: usize)
    requires
        p <= input@.len(),
    ensures
        r == stream_data_start(input@, p as int),
        p <= r <= input@.len(),
{
    let b = blanks_end_at(input, p);
    let p1 = if b < input.len() && (input[b] == 13 || input[b] == 10) {
        b
    } else {
        p
    };
    let p2 = if p1 < input.len() && input[p1] == 13 {
        p1 + 1
    } else {
        p1
    };
    if p2 < input.len() && input[p2] == 10 {
        p2 + 1
    } else {
        p2
    }
}

/// The bytes `endstream`.
fn endstream_word() -> (w: [u8; 9])
    ensures
        w@ == endstream_tag(),
{
    let w: [u8; 9] = [0x65, 0x6E, 0x64, 0x73, 0x74, 0x72, 0x65, 0x61, 0x6D];
    assert(w@ =~= endstream_tag());
    w
}

/// Whether `endstream` follows `e`, after at most one end of line.
fn endstream_at(input: &[u8], e: usize) -> (r: bool)
    requires
        e <= input@.len(),
    ensures
        r == endstream_follows(input@, e as int),
{
    let len = input.len();
    let skip: usize = if len - e >= 2 && input[e] == 13 && input[e + 1] == 10 {
        2
    } else if len - e >= 1 && (input[e] == 10 || input[e] == 13) {
        1
    } else {
        0
    };
    let ghost rest = input@.subrange(e as int, len as int);
    assert(rest.skip(skip as int) =~= input@.subrange(e + skip, len as int));
    if len - e - skip < 9 {
        return false;
    }
    let word = endstream_word();
    let at = vstd::slice::slice_subrange(input, e + skip, e + skip + 9);
    assert(at@ =~= rest.skip(skip as int).take(9));
    bytes_eq(at, word.as_slice())
}

/// Where stream data ends (see [`stream_data_end`]).
fn data_end(input: &[u8], dict: &Dict, start: usize) -> (r: Option<usize>)
    requires
        start <= input@.len(),
    ensures
        match stream_data_end(input@, dict@, start as int) {
            Some(e) => r == Some(e as usize) && start <= e <= input@.len(),
            None => r is None,
        },
{
    let length_key: [u8; 6] = [76, 101, 110, 103, 116, 104];
    assert(length_key@ =~= word_length());
    let key = Name(to_vec(length_key.as_slice()));
    let declared = match dict.get(&key) {
        Some(o) => o.as_i64(),
        None => None,
    };
    assert(declared_length(dict@) == match declared { Some(n) => n as int, None => -1 });
    if let Some(n) = declared {
        if n >= 0 && (n as u64) <= ((input.len() - start) as u64) {
            let e = start + (n as usize);
            if endstream_at(input, e) {
                return Some(e);
            }
        }
    }
    let word = endstream_word();
    match find_from(input, start, word.as_slice()) {
        None => None,
        Some(e0) => {
            proof {
                crate::recover::lemma_find_from_of(input@, start as int, endstream_tag());
            }
            let e1 = if e0 > start && input[e0 - 1] == 10 {
                e0 - 1
            } else {
                e0
            };
            Some(
                if e1 > start && input[e1 - 1] == 13 {
                    e1 - 1
                } else {
                    e1
                },
            )
        },
    }
}

/// Recursive-descent parser over a [`Lexer`]. A token read ahead and not
/// used is read again: the parser steps back to where it starts.
pub struct Parser<'a> {
    lexer: Lexer<'a>,
}

impl<'a> Parser<'a> {
    /// The bytes being parsed.
    pub closed spec fn bytes(self) -> Seq<u8> {
        self.lexer.bytes()
    }

    /// Where the next token is read from.
    pub closed spec fn position(self) -> int {
        self.lexer.position()
    }

    /// Parser over the whole input.
    pub fn new(input: &'a [u8]) -> (p: Parser<'a>)
        ensures
            p.bytes() == input@,
            p.position() == 0,
    {
        Parser { lexer: Lexer::new(input) }
    }

    /// Parser starting at `offset` (at the end of the input when `offset`
    /// lies beyond it).
    pub fn at(input: &'a [u8], offset: usize) -> (p: Parser<'a>)
        ensures
            p.bytes() == input@,
            p.position() == if offset <= input@.len() { offset as int } else { input@.len() as int },
    {
        Parser { lexer: Lexer::at(input, offset) }
    }

    /// Byte offset of the next token to be read.
    pub fn pos(&self) -> (r: usize)
        ensures
            r == self.position(),
            r <= self.bytes().len(),
    {
        self.lexer.pos()
    }

    /// Read one token: the token and where it starts.
    fn next_tok(&mut self) -> (r: Result<(Token, usize), Error>)
        ensures
            final(self).bytes() == old(self).bytes(),
            0 <= old(self).position() <= old(self).bytes().len(),
            final(self).position() <= final(self).bytes().len(),
            match token_at(old(self).bytes(), old(self).position()).0 {
                Ok(tv) => r matches Ok((t, o)) && t@ == tv && o == skip_from(
                    old(self).bytes(),
                    old(self).position(),
                    false,
                ) && final(self).position() == token_at(old(self).bytes(), old(self).position()).1,
                Err(f) => r matches Err(e) && failure_is(e, lex_failure(f)),
            },
    {
        let _ = self.lexer.pos();
        let ghost s = self.bytes();
        let ghost p = self.position();
        self.lexer.skip_whitespace_and_comments();
        let start = self.lexer.pos();
        proof {
            lemma_token_at_bounds(s, p);
        }
        let r = self.lexer.next_token();
        let _ = self.lexer.pos();
        match r {
            Ok(t) => Ok((t, start)),
            Err(e) => Err(e),
        }
    }

    /// Parse one object (ISO 32000-2, 7.3), with `n g R` read as a
    /// reference.
    pub fn parse_object(&mut self) -> (r: Result<Object, Error>)
        ensures
            final(self).bytes() == old(self).bytes(),
            object_result(r, object_at(old(self).bytes(), old(self).position(), 0).0),
            r is Ok ==> final(self).position() == object_at(old(self).bytes(), old(self).position(), 0).1,
    {
        self.parse_with_depth(0)
    }

    fn parse_with_depth(&mut self, depth: usize) -> (r: Result<Object, Error>)
        ensures
            final(self).bytes() == old(self).bytes(),
            object_result(r, object_at(old(self).bytes(), old(self).position(), depth as int).0),
            r is Ok ==> final(self).position() == object_at(old(self).bytes(), old(self).position(), depth as int).1
                && old(self).position() < final(self).position() <= final(self).bytes().len(),
        decreases MAX_DEPTH + 1 - depth, 1int,
    {
        if depth > MAX_DEPTH {
            return Err(Error::TooDeep);
        }
        let ghost s = self.bytes();
        let ghost p = self.position();
        let (tok, offset) = match self.next_tok() {
            Ok(x) => x,
            Err(e) => return Err(e),
        };
        proof {
            lemma_token_at_bounds(s, p);
        }
        match tok {
            Token::Eof => Err(Error::UnexpectedEof),
            Token::Integer(first) => self.maybe_reference(first),
            Token::Real(r) => Ok(Object::Real(r)),
            Token::LiteralString(v) => Ok(Object::String(v)),
            Token::HexString(v) => Ok(Object::String(v)),
            Token::Name(n) => Ok(Object::Name(Name(n))),
            Token::ArrayOpen => self.parse_array(depth),
            Token::DictOpen => {
                let dict = match self.parse_dict_body(depth) {
                    Ok(d) => d,
                    Err(e) => return Err(e),
                };
                self.finish_dict(dict)
            },
            Token::Keyword(k) => {
                let w_true: [u8; 4] = [116, 114, 117, 101];
                let w_false: [u8; 5] = [102, 97, 108, 115, 101];
                let w_null: [u8; 4] = [110, 117, 108, 108];
                assert(w_true@ =~= word_true());
                assert(w_false@ =~= word_false());
                assert(w_null@ =~= word_null());
                if bytes_eq(k.as_slice(), w_true.as_slice()) {
                    Ok(Object::Bool(true))
                } else if bytes_eq(k.as_slice(), w_false.as_slice()) {
                    Ok(Object::Bool(false))
                } else if bytes_eq(k.as_slice(), w_null.as_slice()) {
                    Ok(Object::Null)
                } else {
                    let mut message = string_of("unexpected keyword ");
                    let text = lossy_string(k.as_slice());
                    let quoted = debug_string(text.as_str());
                    crate::text::push_str(&mut message, quoted.as_str());
                    Err(Error::Syntax { offset, message })
                }
            },
            _ => Err(Error::Syntax { offset, message: string_of("unexpected delimiter") }),
        }
    }

    /// After an integer: `n g R` or the integer alone.
    fn maybe_reference(&mut self, first: i64) -> (r: Result<Object, Error>)
        ensures
            final(self).bytes() == old(self).bytes(),
            object_result(r, reference_after(old(self).bytes(), first, old(self).position()).0),
            r is Ok ==> final(self).position() == reference_after(old(self).bytes(), first, old(self).position()).1
                && old(self).position() <= final(self).position() <= final(self).bytes().len(),
    {
        let ghost s = self.bytes();
        let ghost p = self.position();
        let (second, o2) = match self.next_tok() {
            Ok(x) => x,
            Err(e) => return Err(e),
        };
        proof {
            lemma_token_at_bounds(s, p);
        }
        if let Token::Integer(gen) = second {
            let ghost e2 = self.position();
            let (third, _) = match self.next_tok() {
                Ok(x) => x,
                Err(e) => return Err(e),
            };
            proof {
                lemma_token_at_bounds(s, e2);
            }
            let w_r: [u8; 1] = [82];
            assert(w_r@ =~= word_r());
            let is_r = match &third {
                Token::Keyword(k) => bytes_eq(k.as_slice(), w_r.as_slice()),
                _ => false,
            };
            if is_r {
                if !(0 <= first && first <= 0xFFFF_FFFF && 0 <= gen && gen <= 0xFFFF) {
                    return Err(Error::Syntax { offset: o2, message: string_of("reference out of range") });
                }
                return Ok(Object::Reference(ObjRef { num: first as u32, gen: gen as u16 }));
            }
        }
        self.lexer.seek(o2);
        Ok(Object::Integer(first))
    }

    /// The rest of an array, its `[` read.
    fn parse_array(&mut self, depth: usize) -> (r: Result<Object, Error>)
        requires
            depth <= MAX_DEPTH,
        ensures
            final(self).bytes() == old(self).bytes(),
            object_result(r, items_at(old(self).bytes(), old(self).position(), depth as int, Seq::empty()).0),
            r is Ok ==> final(self).position() == items_at(old(self).bytes(), old(self).position(), depth as int, Seq::empty()).1
                && old(self).position() <= final(self).position() <= final(self).bytes().len(),
        decreases MAX_DEPTH + 1 - depth, 0int,
    {
        let ghost s = self.bytes();
        let ghost p0 = self.position();
        let mut items: Vec<Object> = Vec::new();
        let _ = self.lexer.pos();
        loop
            invariant
                depth <= MAX_DEPTH,
                self.bytes() == s,
                s == old(self).bytes(),
                p0 == old(self).position(),
                p0 <= self.position() <= s.len(),
                items_at(s, p0, depth as int, Seq::empty()) == items_at(s, self.position(), depth as int, items_view(items@)),
            decreases s.len() - self.position(),
        {
            let ghost p = self.position();
            let (tok, offset) = match self.next_tok() {
                Ok(x) => x,
                Err(e) => return Err(e),
            };
            proof {
                lemma_token_at_bounds(s, p);
            }
            match tok {
                Token::ArrayClose => {
                    return Ok(Object::Array(items));
                },
                Token::Eof => {
                    return Err(Error::UnexpectedEof);
                },
                _ => {
                    self.lexer.seek(offset);
                    let item = match self.parse_with_depth(depth + 1) {
                        Ok(o) => o,
                        Err(e) => return Err(e),
                    };
                    let ghost before = items@;
                    items.push(item);
                    proof {
                        assert(items@.subrange(0, items@.len() - 1) =~= before);
                    }
                },
            }
        }
    }

    /// The entries of a dictionary, its `<<` read, up to `>>`.
    fn parse_dict_body(&mut self, depth: usize) -> (r: Result<Dict, Error>)
        requires
            depth <= MAX_DEPTH,
        ensures
            final(self).bytes() == old(self).bytes(),
            match dict_at(old(self).bytes(), old(self).position(), depth as int, Seq::empty()).0 {
                Ok(d) => r matches Ok(x) && x@ == d,
                Err(f) => r matches Err(e) && failure_is(e, f),
            },
            r is Ok ==> final(self).position() == dict_at(old(self).bytes(), old(self).position(), depth as int, Seq::empty()).1
                && old(self).position() <= final(self).position() <= final(self).bytes().len(),
        decreases MAX_DEPTH + 1 - depth, 0int,
    {
        let ghost s = self.bytes();
        let ghost p0 = self.position();
        let mut dict = Dict::new();
        let _ = self.lexer.pos();
        loop
            invariant
                depth <= MAX_DEPTH,
                self.bytes() == s,
                s == old(self).bytes(),
                p0 == old(self).position(),
                p0 <= self.position() <= s.len(),
                dict_at(s, p0, depth as int, Seq::empty()) == dict_at(s, self.position(), depth as int, dict@),
            decreases s.len() - self.position(),
        {
            let ghost p = self.position();
            let (tok, _) = match self.next_tok() {
                Ok(x) => x,
                Err(e) => return Err(e),
            };
            proof {
                lemma_token_at_bounds(s, p);
            }
            match tok {
                Token::DictClose => {
                    return Ok(dict);
                },
                Token::Eof => {
                    return Err(Error::UnexpectedEof);
                },
                Token::Name(key) => {
                    let value = match self.parse_with_depth(depth + 1) {
                        Ok(o) => o,
                        Err(e) => return Err(e),
                    };
                    dict.insert(Name(key), value);
                },
                _ => {},
            }
        }
    }

    /// After a dictionary: a stream when `stream` follows, else the
    /// dictionary.
    fn finish_dict(&mut self, dict: Dict) -> (r: Result<Object, Error>)
        ensures
            final(self).bytes() == old(self).bytes(),
            object_result(r, after_dict(old(self).bytes(), dict@, old(self).position()).0),
            r is Ok ==> final(self).position() == after_dict(old(self).bytes(), dict@, old(self).position()).1
                && old(self).position() <= final(self).position() <= final(self).bytes().len(),
    {
        let ghost s = self.bytes();
        let ghost p = self.position();
        let (tok, offset) = match self.next_tok() {
            Ok(x) => x,
            Err(e) => return Err(e),
        };
        proof {
            lemma_token_at_bounds(s, p);
        }
        let w_stream: [u8; 6] = [115, 116, 114, 101, 97, 109];
        assert(w_stream@ =~= word_stream());
        let is_stream = match &tok {
            Token::Keyword(k) => k.len() >= 6 && bytes_eq(
                vstd::slice::slice_subrange(k.as_slice(), 0, 6),
                w_stream.as_slice(),
            ),
            _ => false,
        };
        if is_stream {
            proof {
                let k = tok@->Keyword_0;
                assert(k.take(6) =~= k.subrange(0, 6));
            }
            self.parse_stream_body(dict, offset)
        } else {
            proof {
                if tok@ is Keyword {
                    let k = tok@->Keyword_0;
                    assert(k.len() >= 6 ==> k.take(6) =~= k.subrange(0, 6));
                }
            }
            self.lexer.seek(offset);
            Ok(Object::Dict(dict))
        }
    }

    /// The data of a stream whose keyword starts at `keyword_offset`; the
    /// parser moves past the `endstream` that follows.
    fn parse_stream_body(&mut self, dict: Dict, keyword_offset: usize) -> (r: Result<Object, Error>)
        requires
            keyword_offset + 6 <= old(self).bytes().len(),
        ensures
            final(self).bytes() == old(self).bytes(),
            object_result(r, stream_at(old(self).bytes(), dict@, keyword_offset as int).0),
            r is Ok ==> final(self).position() == stream_at(old(self).bytes(), dict@, keyword_offset as int).1
                && keyword_offset < final(self).position() <= final(self).bytes().len(),
    {
        let input = self.lexer.input();
        let len = input.len();
        assert(len == old(self).bytes().len());
        let start = data_start(input, keyword_offset + 6);
        let end = match data_end(input, &dict, start) {
            Some(e) => e,
            None => return Err(Error::UnexpectedEof),
        };
        let data = to_vec(vstd::slice::slice_subrange(input, start, end));
        let word = endstream_word();
        let after = match find_from(input, end, word.as_slice()) {
            Some(i) => {
                proof {
                    crate::recover::lemma_find_from_of(input@, end as int, endstream_tag());
                }
                i + 9
            },
            None => input.len(),
        };
        self.lexer.seek(after);
        Ok(Object::Stream { dict, data })
    }

    /// Parse an indirect object definition `n g obj ... endobj` at the
    /// current position (ISO 32000-2, 7.3.10): the reference and the
    /// object. A missing `endobj` is tolerated.
    pub fn parse_indirect(&mut self) -> (r: Result<(ObjRef, Object), Error>)
        ensures
            final(self).bytes() == old(self).bytes(),
            match indirect_at(old(self).bytes(), old(self).position()).0 {
                Ok((x, v)) => r matches Ok((y, o)) && y == x && o@ == v,
                Err(f) => r matches Err(e) && failure_is(e, f),
            },
            r is Ok ==> final(self).position() == indirect_at(old(self).bytes(), old(self).position()).1,
    {
        let r = match self.parse_indirect_header() {
            Ok(r) => r,
            Err(e) => return Err(e),
        };
        let obj = match self.parse_object() {
            Ok(o) => o,
            Err(e) => return Err(e),
        };
        let ghost s = self.bytes();
        let ghost p = self.position();
        let (t, o) = match self.next_tok() {
            Ok(x) => x,
            Err(e) => return Err(e),
        };
        let w_endobj: [u8; 6] = [101, 110, 100, 111, 98, 106];
        assert(w_endobj@ =~= word_endobj());
        let is_end = match &t {
            Token::Keyword(k) => bytes_eq(k.as_slice(), w_endobj.as_slice()),
            _ => false,
        };
        if !is_end {
            self.lexer.seek(o);
        }
        proof {
            lemma_token_at_bounds(s, p);
        }
        Ok((r, obj))
    }

    /// Parse just the `n g obj` header at the current position, leaving
    /// the parser on the object that follows.
    pub fn parse_indirect_header(&mut self) -> (r: Result<ObjRef, Error>)
        ensures
            final(self).bytes() == old(self).bytes(),
            match header_at(old(self).bytes(), old(self).position()).0 {
                Ok(x) => r == Ok::<ObjRef, Error>(x),
                Err(f) => r matches Err(e) && failure_is(e, f),
            },
            r is Ok ==> final(self).position() == header_at(old(self).bytes(), old(self).position()).1,
    {
        let (t1, o1) = match self.next_tok() {
            Ok(x) => x,
            Err(e) => return Err(e),
        };
        let (t2, _) = match self.next_tok() {
            Ok(x) => x,
            Err(e) => return Err(e),
        };
        let (t3, _) = match self.next_tok() {
            Ok(x) => x,
            Err(e) => return Err(e),
        };
        let w_obj: [u8; 3] = [111, 98, 106];
        assert(w_obj@ =~= word_obj());
        let (num, gen) = match (t1, t2, t3) {
            (Token::Integer(n), Token::Integer(g), Token::Keyword(k)) => {
                if bytes_eq(k.as_slice(), w_obj.as_slice()) {
                    (n, g)
                } else {
                    return Err(Error::Syntax { offset: o1, message: string_of("expected `n g obj`") });
                }
            },
            _ => {
                return Err(Error::Syntax { offset: o1, message: string_of("expected `n g obj`") });
            },
        };
        if !(0 <= num && num <= 0xFFFF_FFFF) {
            return Err(Error::Syntax { offset: o1, message: string_of("bad object number") });
        }
        if !(0 <= gen && gen <= 0xFFFF) {
            return Err(Error::Syntax { offset: o1, message: string_of("bad generation") });
        }
        Ok(ObjRef { num: num as u32, gen: gen as u16 })
    }
}

} // verus!
