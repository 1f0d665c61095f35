//! Cross-reference entries (ISO 32000-2, 7.5.4 and 7.5.8): what one entry
//! says of an object number, how a row of a cross-reference stream is
//! decoded, and the rule that object 0 is never in use.

use crate::decode::{decode_failure_is, decode_stream_with, spec_decode_stream, DecodeFailure, Direct};
use crate::filters::DecodeLimits;
use crate::lexer::{lemma_token_at_bounds, skip_from, token_at, LexFailure, Lexer, Token, TokenView};
use crate::object::{dict_get, Dict, Name, Object, ObjectView};
use crate::parser::{failure_is, indirect_at, lex_failure, object_at, ParseFailure, Parser};
use crate::text::string_of;
use crate::Error;
use std::collections::BTreeMap;
use vstd::prelude::*;
use vstd::std_specs::iter::IteratorSpec;
use vstd::string::StringSliceAdditionalSpecFns;

verus! {

/// One cross-reference entry (ISO 32000-2, 7.5.4 and table 18).
#[derive(Debug, Clone, Copy, PartialEq, Eq, Structural)]
pub enum XrefEntry {
    /// `f` entry, or type 0: the object number is free.
    Free {
        /// Generation number for the next reuse of this object number.
        gen: u16,
    },
    /// `n` entry, or type 1: the object is stored in the file.
    InUse {
        /// Byte offset of its `n g obj` header.
        offset: usize,
        /// Generation number.
        gen: u16,
    },
    /// Type 2: the object is compressed in an object stream (7.5.7). Such
    /// objects always have generation 0.
    InStream {
        /// Object number of the object stream holding it.
        stream_num: u32,
        /// Position of the object within that stream, counted from 0.
        index: u32,
    },
}

/// How a cross-reference section is stored in the file.
#[derive(Debug, Clone, Copy, PartialEq, Eq, Structural)]
pub enum SectionKind {
    /// Classic `xref` table followed by a `trailer` dictionary
    /// (ISO 32000-2, 7.5.4).
    Table,
    /// Cross-reference stream (ISO 32000-2, 7.5.8).
    Stream,
    /// Classic table whose trailer points to a cross-reference stream
    /// through `/XRefStm` (ISO 32000-2, 7.5.8.4).
    Hybrid,
    /// No usable section in the file: the table was rebuilt by scanning
    /// for `n g obj` headers (see [`crate::recover`]).
    Reconstructed,
}

/// The big-endian value of `s`, kept to 64 bits.
pub open spec fn be_value(s: Seq<u8>) -> u64
    decreases s.len(),
{
    if s.len() == 0 {
        0
    } else {
        ((be_value(s.drop_last()) as nat * 256 + s.last() as nat) % 18446744073709551616) as u64
    }
}

/// Big-endian unsigned integer (at most 8 bytes are ever given: wider
/// fields are refused when `/W` is read).
pub fn big_endian(bytes: &[u8]) -> (v: u64)
    ensures
        v == be_value(bytes@),
{
    let mut acc: u64 = 0;
    let mut i: usize = 0;
    while i < bytes.len()
        invariant
            i <= bytes@.len(),
            acc == be_value(bytes@.take(i as int)),
        decreases bytes@.len() - i,
    {
        let b = bytes[i];
        assert(bytes@.take(i + 1).drop_last() =~= bytes@.take(i as int));
        let next = (acc << 8u64) | (b as u64);
        assert(next == ((acc as nat * 256 + b as nat) % 18446744073709551616) as u64) by (bit_vector)
            requires
                next == (acc << 8u64) | (b as u64),
        ;
        acc = next;
        i = i + 1;
    }
    assert(bytes@.take(bytes@.len() as int) =~= bytes@);
    acc
}

/// The three fields of a row: the type field, the second and the third,
/// each cut to its width from what the row holds.
pub open spec fn row_fields(row: Seq<u8>, w: (usize, usize, usize)) -> (Seq<u8>, Seq<u8>, Seq<u8>) {
    let w1 = if w.0 <= row.len() {
        w.0 as int
    } else {
        row.len() as int
    };
    let rest = row.skip(w1);
    let w2 = if w.1 <= rest.len() {
        w.1 as int
    } else {
        rest.len() as int
    };
    let f3 = rest.skip(w2);
    (
        row.take(w1),
        rest.take(w2),
        if w.2 <= f3.len() {
            f3.take(w.2 as int)
        } else {
            f3
        },
    )
}

/// The three widths of an array.
pub open spec fn widths_of(widths: [usize; 3]) -> (usize, usize, usize) {
    (widths[0], widths[1], widths[2])
}

/// The entry a row of a cross-reference stream describes (7.5.8.3,
/// table 18): `Ok(None)` for the types other than 0, 1 and 2, which
/// denote the null object; the message of the error for a value that does
/// not fit its type.
pub open spec fn row_entry(row: Seq<u8>, w: (usize, usize, usize)) -> Result<Option<XrefEntry>, Seq<char>> {
    let (t, a, b) = row_fields(row, w);
    let kind: u64 = if w.0 == 0 {
        1
    } else {
        be_value(t)
    };
    let f2 = be_value(a);
    let f3 = be_value(b);
    let clamped_gen: u16 = if f3 <= u16::MAX {
        f3 as u16
    } else {
        u16::MAX
    };
    if kind == 0 || (kind == 1 && f2 == 0) {
        Ok(Some(XrefEntry::Free { gen: clamped_gen }))
    } else if kind == 1 {
        if f2 > usize::MAX {
            Err("object offset out of range"@)
        } else if f3 > u16::MAX {
            Err("generation out of range"@)
        } else {
            Ok(Some(XrefEntry::InUse { offset: f2 as usize, gen: f3 as u16 }))
        }
    } else if kind == 2 {
        if f2 > u32::MAX {
            Err("object stream number out of range"@)
        } else if f3 > u32::MAX {
            Err("index in object stream out of range"@)
        } else {
            Ok(Some(XrefEntry::InStream { stream_num: f2 as u32, index: f3 as u32 }))
        }
    } else {
        Ok(None)
    }
}

fn bad(offset: usize, message: &str) -> (e: Error)
    ensures
        e matches Error::BadXref { offset: o, message: m } && o == offset && m@ == message@,
{
    Error::BadXref { offset, message: string_of(message) }
}

fn split_at_most(s: &[u8], n: usize) -> (r: (&[u8], &[u8]))
    ensures
        ({
            let k = if n <= s@.len() {
                n as int
            } else {
                s@.len() as int
            };
            r.0@ == s@.take(k) && r.1@ == s@.skip(k)
        }),
{
    let k = if n <= s.len() {
        n
    } else {
        s.len()
    };
    let a = vstd::slice::slice_subrange(s, 0, k);
    let b = vstd::slice::slice_subrange(s, k, s.len());
    assert(b@ =~= s@.skip(k as int));
    (a, b)
}

/// One row of a cross-reference stream (7.5.8.3, table 18). Types other
/// than 0, 1 and 2 denote the null object: `None`. A missing type field
/// means type 1; a row "in use at offset 0" is taken as free, as no object
/// can start where the header is.
pub fn decode_row(row: &[u8], widths: [usize; 3], offset: usize) -> (r: Result<Option<XrefEntry>, Error>)
    ensures
        match row_entry(row@, widths_of(widths)) {
            Ok(e) => r == Ok::<Option<XrefEntry>, Error>(e),
            Err(msg) => r matches Err(Error::BadXref { offset: o, message: m }) && o == offset && m@
                == msg,
        },
{
    let w1 = widths[0];
    let w2 = widths[1];
    let w3 = widths[2];
    let (type_bytes, rest) = split_at_most(row, w1);
    let (f2_bytes, f3_all) = split_at_most(rest, w2);
    let f3_bytes = if w3 <= f3_all.len() {
        vstd::slice::slice_subrange(f3_all, 0, w3)
    } else {
        f3_all
    };
    let kind: u64 = if w1 == 0 {
        1
    } else {
        big_endian(type_bytes)
    };
    let f2 = big_endian(f2_bytes);
    let f3 = big_endian(f3_bytes);
    let clamped_gen: u16 = if f3 <= 65535 {
        f3 as u16
    } else {
        65535
    };
    if kind == 0 || (kind == 1 && f2 == 0) {
        Ok(Some(XrefEntry::Free { gen: clamped_gen }))
    } else if kind == 1 {
        if f2 as u128 > usize::MAX as u128 {
            Err(bad(offset, "object offset out of range"))
        } else if f3 > 65535 {
            Err(bad(offset, "generation out of range"))
        } else {
            Ok(Some(XrefEntry::InUse { offset: f2 as usize, gen: f3 as u16 }))
        }
    } else if kind == 2 {
        if f2 > 4294967295 {
            Err(bad(offset, "object stream number out of range"))
        } else if f3 > 4294967295 {
            Err(bad(offset, "index in object stream out of range"))
        } else {
            Ok(Some(XrefEntry::InStream { stream_num: f2 as u32, index: f3 as u32 }))
        }
    } else {
        Ok(None)
    }
}

/// Object number 0 is the head of the free list and never a stored object
/// (ISO 32000-2, 7.5.4). A table listing it in use describes a writer's
/// junk object, which readers ignore: the entry becomes free with
/// generation 65535. Every other entry is kept.
pub fn free_object_zero(entries: &mut BTreeMap<u32, XrefEntry>)
    ensures
        old(entries)@.contains_key(0) && !(old(entries)@[0] is Free) ==> final(entries)@ == old(
            entries,
        )@.insert(0, XrefEntry::Free { gen: 65535 }),
        !(old(entries)@.contains_key(0) && !(old(entries)@[0] is Free)) ==> final(entries)@ == old(
            entries,
        )@,
{
    let in_use = match entries.get(&0) {
        Some(XrefEntry::Free { .. }) => false,
        Some(_) => true,
        None => false,
    };
    if in_use {
        entries.insert(0, XrefEntry::Free { gen: 65535 });
    }
}


// ---------------------------------------------------------------------------
// Reading sections
// ---------------------------------------------------------------------------

/// Why a cross-reference section could not be read.
pub enum XrefFailure {
    /// A token could not be read.
    Lexing(LexFailure),
    /// [`Error::BadXref`] at this offset, with this message.
    Bad(int, Seq<char>),
    /// The input ended inside the section.
    Eof,
    /// An object (trailer, stream) could not be parsed.
    Parsing(ParseFailure),
    /// [`Error::XrefLoop`] at this offset.
    Loop(int),
    /// A cross-reference stream could not be decoded under these limits.
    Decoding(DecodeFailure, DecodeLimits),
}

/// `e` is the error reported for `f`.
pub open spec fn xref_failure_is(e: Error, f: XrefFailure) -> bool {
    match f {
        XrefFailure::Lexing(l) => failure_is(e, lex_failure(l)),
        XrefFailure::Bad(o, m) => e matches Error::BadXref { offset, message } && offset == o && message@ == m,
        XrefFailure::Eof => e == Error::UnexpectedEof,
        XrefFailure::Parsing(p) => failure_is(e, p),
        XrefFailure::Loop(o) => e matches Error::XrefLoop { offset } && offset == o,
        XrefFailure::Decoding(d, limits) => decode_failure_is(e, d, limits),
    }
}

/// A generation number out of range is clamped to 65535 ("never
/// reused"): many writers put 65536 on the head of the free list.
pub open spec fn clamped_gen(gen: i64) -> u16 {
    if 0 <= gen <= u16::MAX {
        gen as u16
    } else {
        u16::MAX
    }
}

/// One table entry read from `p`, `nnnnnnnnnn ggggg n` or `... f`
/// (ISO 32000-2, 7.5.4), as three tokens; and where it ends. An `n`
/// entry at offset 0 is free: no object can start where the header is.
pub open spec fn entry_at(s: Seq<u8>, p: int) -> (Result<XrefEntry, XrefFailure>, int) {
    let at = skip_from(s, p, false);
    let (t1, e1) = token_at(s, p);
    let (t2, e2) = token_at(s, e1);
    let (t3, e3) = token_at(s, e2);
    match t1 {
        Err(f) => (Err(XrefFailure::Lexing(f)), e1),
        Ok(v1) => match t2 {
            Err(f) => (Err(XrefFailure::Lexing(f)), e2),
            Ok(v2) => match t3 {
                Err(f) => (Err(XrefFailure::Lexing(f)), e3),
                Ok(v3) => (
                    if !(v1 is Integer && v2 is Integer) {
                        Err(XrefFailure::Bad(at, "malformed cross-reference entry"@))
                    } else {
                        let field = v1->Integer_0;
                        let gen = v2->Integer_0;
                        if v3 == TokenView::Keyword("n".spec_bytes()) {
                            if field == 0 {
                                Ok(XrefEntry::Free { gen: clamped_gen(gen) })
                            } else if !(0 <= gen <= u16::MAX) {
                                Err(XrefFailure::Bad(at, "generation out of range"@))
                            } else if !(0 <= field <= usize::MAX) {
                                Err(XrefFailure::Bad(at, "negative object offset"@))
                            } else {
                                Ok(XrefEntry::InUse { offset: field as usize, gen: gen as u16 })
                            }
                        } else if v3 == TokenView::Keyword("f".spec_bytes()) {
                            Ok(XrefEntry::Free { gen: clamped_gen(gen) })
                        } else {
                            Err(XrefFailure::Bad(at, "entry type must be `n` or `f`"@))
                        }
                    },
                    e3,
                ),
            },
        },
    }
}

/// The entries of a subsection of `count` entries from object `first`,
/// the `i` first already read into `m`: a later entry for a number
/// replaces an earlier one.
pub open spec fn rows_at(s: Seq<u8>, p: int, first: int, first_at: int, count: int, i: int, m: Map<u32, XrefEntry>) -> (Result<Map<u32, XrefEntry>, XrefFailure>, int)
    decreases count - i,
{
    if i >= count {
        (Ok(m), p)
    } else if first + i > u32::MAX {
        (Err(XrefFailure::Bad(first_at, "object number out of range"@)), p)
    } else {
        match entry_at(s, p) {
            (Err(f), e) => (Err(f), e),
            (Ok(en), e) => rows_at(s, e, first, first_at, count, i + 1, m.insert((first + i) as u32, en)),
        }
    }
}

/// The subsections of a table from `p` up to the `trailer` keyword: the
/// entries, and where the keyword ends.
pub open spec fn subsections_at(s: Seq<u8>, p: int, m: Map<u32, XrefEntry>) -> Result<(Map<u32, XrefEntry>, int), XrefFailure>
    decreases s.len() - p,
{
    let (t, e) = token_at(s, p);
    let at = skip_from(s, p, false);
    match t {
        Err(f) => Err(XrefFailure::Lexing(f)),
        Ok(TokenView::Integer(first)) => if !(0 <= first <= u32::MAX) {
            Err(XrefFailure::Bad(at, "subsection start out of range"@))
        } else {
            let (t2, e2) = token_at(s, e);
            let at2 = skip_from(s, e, false);
            match t2 {
                Err(f) => Err(XrefFailure::Lexing(f)),
                Ok(TokenView::Integer(n)) => if !(0 <= n <= u32::MAX) {
                    Err(XrefFailure::Bad(at2, "subsection count out of range"@))
                } else {
                    match rows_at(s, e2, first as int, at, n as int, 0, m) {
                        (Err(f), _) => Err(f),
                        (Ok(m2), e3) => if p < e3 <= s.len() {
                            subsections_at(s, e3, m2)
                        } else {
                            Err(XrefFailure::Eof)
                        },
                    }
                },
                Ok(_) => Err(XrefFailure::Bad(at2, "expected subsection entry count"@)),
            }
        },
        Ok(TokenView::Eof) => Err(XrefFailure::Eof),
        Ok(v) => if v == TokenView::Keyword("trailer".spec_bytes()) {
            Ok((m, e))
        } else {
            Err(XrefFailure::Bad(at, "expected subsection header or `trailer`"@))
        },
    }
}

/// One cross-reference section as read: its entries, its trailer, and
/// the `/XRefStm` of a hybrid-reference file's trailer (7.5.8.4).
pub struct SectionView {
    pub entries: Map<u32, XrefEntry>,
    pub trailer: Seq<(Seq<u8>, ObjectView)>,
    pub xref_stm: Option<usize>,
}

/// A classic `xref` table from `p`, just past the `xref` keyword, with
/// its `trailer` dictionary (ISO 32000-2, 7.5.4 and 7.5.5).
pub open spec fn table_section_at(s: Seq<u8>, p: int) -> Result<SectionView, XrefFailure> {
    match subsections_at(s, p, Map::empty()) {
        Err(f) => Err(f),
        Ok((m, ta)) => match object_at(s, ta, 0).0 {
            Err(f) => Err(XrefFailure::Parsing(f)),
            Ok(ObjectView::Dict(d)) => match dict_get(d, "XRefStm".spec_bytes()) {
                None => Ok(SectionView { entries: m, trailer: d, xref_stm: None }),
                Some(ObjectView::Integer(x)) => if 0 <= x <= usize::MAX {
                    Ok(SectionView { entries: m, trailer: d, xref_stm: Some(x as usize) })
                } else {
                    Err(XrefFailure::Bad(ta, "trailer /XRefStm is not a valid offset"@))
                },
                Some(_) => Err(XrefFailure::Bad(ta, "trailer /XRefStm is not a valid offset"@)),
            },
            Ok(_) => Err(XrefFailure::Bad(ta, "trailer is not a dictionary"@)),
        },
    }
}

/// One section as the program holds it.
pub struct Section {
    pub entries: BTreeMap<u32, XrefEntry>,
    pub trailer: Dict,
    pub xref_stm: Option<usize>,
}

/// `r` is what `x` says: the section, or the error.
pub open spec fn section_result(r: Result<Section, Error>, x: Result<SectionView, XrefFailure>) -> bool {
    match x {
        Ok(v) => r matches Ok(sec) && sec.entries@ == v.entries && sec.trailer@ == v.trailer && sec.xref_stm == v.xref_stm,
        Err(f) => r matches Err(e) && xref_failure_is(e, f),
    }
}

/// Next token with its start offset.
fn next(lexer: &mut Lexer) -> (r: Result<(Token, usize), Error>)
    ensures
        final(lexer).bytes() == old(lexer).bytes(),
        0 <= old(lexer).position() <= old(lexer).bytes().len(),
        final(lexer).position() <= final(lexer).bytes().len(),
        match token_at(old(lexer).bytes(), old(lexer).position()).0 {
            Ok(tv) => r matches Ok((t, o)) && t@ == tv && o == skip_from(
                old(lexer).bytes(),
                old(lexer).position(),
                false,
            ) && final(lexer).position() == token_at(old(lexer).bytes(), old(lexer).position()).1,
            Err(f) => r matches Err(e) && failure_is(e, lex_failure(f)),
        },
{
    let _ = lexer.pos();
    let ghost s = lexer.bytes();
    let ghost p = lexer.position();
    lexer.skip_whitespace_and_comments();
    let at = lexer.pos();
    proof {
        lemma_token_at_bounds(s, p);
    }
    let r = lexer.next_token();
    let _ = lexer.pos();
    match r {
        Ok(t) => Ok((t, at)),
        Err(e) => Err(e),
    }
}

fn is_keyword(t: &Token, word: &str) -> (b: bool)
    ensures
        b == (t@ == TokenView::Keyword(word.spec_bytes())),
{
    match t {
        Token::Keyword(k) => crate::bytes::bytes_eq(k.as_slice(), word.as_bytes()),
        _ => false,
    }
}

/// One entry, `nnnnnnnnnn ggggg n` or `... f` (ISO 32000-2, 7.5.4). The
/// standard fixes a 20-byte layout; reading tokens instead tolerates the
/// common deviations in spacing and end-of-line markers.
fn parse_entry(lexer: &mut Lexer) -> (r: Result<XrefEntry, Error>)
    ensures
        final(lexer).bytes() == old(lexer).bytes(),
        match entry_at(old(lexer).bytes(), old(lexer).position()).0 {
            Ok(en) => r == Ok::<XrefEntry, Error>(en),
            Err(f) => r matches Err(e) && xref_failure_is(e, f),
        },
        r is Ok ==> final(lexer).position() == entry_at(old(lexer).bytes(), old(lexer).position()).1,
        final(lexer).position() <= final(lexer).bytes().len(),
{
    let (t1, at) = match next(lexer) {
        Ok(x) => x,
        Err(e) => return Err(e),
    };
    let (t2, _) = match next(lexer) {
        Ok(x) => x,
        Err(e) => return Err(e),
    };
    let (kind, _) = match next(lexer) {
        Ok(x) => x,
        Err(e) => return Err(e),
    };
    let (field, gen) = match (t1, t2) {
        (Token::Integer(f), Token::Integer(g)) => (f, g),
        _ => return Err(bad(at, "malformed cross-reference entry")),
    };
    let clamped: u16 = if 0 <= gen && gen <= 65535 {
        gen as u16
    } else {
        65535
    };
    if is_keyword(&kind, "n") {
        if field == 0 {
            Ok(XrefEntry::Free { gen: clamped })
        } else if !(0 <= gen && gen <= 65535) {
            Err(bad(at, "generation out of range"))
        } else if !(0 <= field && (field as u64) <= (usize::MAX as u64)) {
            Err(bad(at, "negative object offset"))
        } else {
            Ok(XrefEntry::InUse { offset: field as usize, gen: gen as u16 })
        }
    } else if is_keyword(&kind, "f") {
        Ok(XrefEntry::Free { gen: clamped })
    } else {
        Err(bad(at, "entry type must be `n` or `f`"))
    }
}

/// The entries of a subsection: `count` entries from object `first`,
/// each stored into `entries`.
fn parse_rows(lexer: &mut Lexer, first: u32, first_at: usize, count: u32, entries: &mut BTreeMap<u32, XrefEntry>)
    -> (r: Result<(), Error>)
    ensures
        final(lexer).bytes() == old(lexer).bytes(),
        match rows_at(old(lexer).bytes(), old(lexer).position(), first as int, first_at as int, count as int, 0, old(entries)@).0 {
            Ok(m) => r is Ok && final(entries)@ == m,
            Err(f) => r matches Err(e) && xref_failure_is(e, f),
        },
        r is Ok ==> final(lexer).position() == rows_at(old(lexer).bytes(), old(lexer).position(), first as int, first_at as int, count as int, 0, old(entries)@).1,
        r is Ok ==> old(lexer).position() <= final(lexer).position() <= final(lexer).bytes().len(),
{
    let ghost s = lexer.bytes();
    let ghost p0 = lexer.position();
    let ghost m0 = entries@;
    let _ = lexer.pos();
    let mut i: u32 = 0;
    while i < count
        invariant
            lexer.bytes() == s,
            s == old(lexer).bytes(),
            p0 == old(lexer).position(),
            m0 == old(entries)@,
            p0 <= lexer.position() <= s.len(),
            i <= count,
            rows_at(s, p0, first as int, first_at as int, count as int, 0, m0) == rows_at(
                s,
                lexer.position(),
                first as int,
                first_at as int,
                count as int,
                i as int,
                entries@,
            ),
        decreases count - i,
    {
        let num = match first.checked_add(i) {
            Some(n) => n,
            None => return Err(bad(first_at, "object number out of range")),
        };
        let _ = lexer.pos();
        let ghost q = lexer.position();
        proof {
            lemma_token_at_bounds(s, q);
            let (_, e1) = token_at(s, q);
            lemma_token_at_bounds(s, e1);
            let (_, e2) = token_at(s, e1);
            lemma_token_at_bounds(s, e2);
        }
        let entry = match parse_entry(lexer) {
            Ok(en) => en,
            Err(e) => return Err(e),
        };
        entries.insert(num, entry);
        i = i + 1;
    }
    Ok(())
}

/// The subsections of a table, the lexer just past `xref`, up to the
/// `trailer` keyword: the entries and where the keyword ends.
fn parse_subsections(lexer: &mut Lexer) -> (r: Result<(BTreeMap<u32, XrefEntry>, usize), Error>)
    ensures
        match subsections_at(old(lexer).bytes(), old(lexer).position(), Map::empty()) {
            Ok((m, ta)) => r matches Ok((x, t)) && x@ == m && t == ta,
            Err(f) => r matches Err(e) && xref_failure_is(e, f),
        },
{
    let ghost s = lexer.bytes();
    let ghost p0 = lexer.position();
    let mut entries: BTreeMap<u32, XrefEntry> = BTreeMap::new();
    let _ = lexer.pos();
    loop
        invariant
            lexer.bytes() == s,
            s == old(lexer).bytes(),
            p0 == old(lexer).position(),
            p0 <= lexer.position() <= s.len(),
            subsections_at(s, p0, Map::empty()) == subsections_at(s, lexer.position(), entries@),
        decreases s.len() - lexer.position(),
    {
        let _ = lexer.pos();
        let ghost p = lexer.position();
        proof {
            lemma_token_at_bounds(s, p);
        }
        let (t, at) = match next(lexer) {
            Ok(x) => x,
            Err(e) => return Err(e),
        };
        if is_keyword(&t, "trailer") {
            return Ok((entries, lexer.pos()));
        }
        match t {
            Token::Integer(first) => {
                if !(0 <= first && first <= 0xFFFF_FFFF) {
                    return Err(bad(at, "subsection start out of range"));
                }
                let ghost e = lexer.position();
                proof {
                    lemma_token_at_bounds(s, e);
                }
                let (t2, count_at) = match next(lexer) {
                    Ok(x) => x,
                    Err(e) => return Err(e),
                };
                let count: u32 = match t2 {
                    Token::Integer(n) => {
                        if !(0 <= n && n <= 0xFFFF_FFFF) {
                            return Err(bad(count_at, "subsection count out of range"));
                        }
                        n as u32
                    },
                    _ => return Err(bad(count_at, "expected subsection entry count")),
                };
                match parse_rows(lexer, first as u32, at, count, &mut entries) {
                    Ok(()) => {},
                    Err(e) => return Err(e),
                }
            },
            Token::Eof => {
                return Err(Error::UnexpectedEof);
            },
            _ => {
                return Err(bad(at, "expected subsection header or `trailer`"));
            },
        }
    }
}

/// Parse one `xref` ... `trailer << >>` section; the lexer is just past
/// the `xref` keyword.
fn parse_table_section(input: &[u8], lexer: &mut Lexer) -> (r: Result<Section, Error>)
    requires
        old(lexer).bytes() == input@,
    ensures
        section_result(r, table_section_at(input@, old(lexer).position())),
{
    let (entries, trailer_at) = match parse_subsections(lexer) {
        Ok(x) => x,
        Err(e) => return Err(e),
    };
    let mut parser = Parser::at(input, trailer_at);
    let trailer = match parser.parse_object() {
        Ok(Object::Dict(d)) => d,
        Ok(_) => return Err(bad(trailer_at, "trailer is not a dictionary")),
        Err(e) => return Err(e),
    };
    let xref_stm = match trailer.get(&Name::new("XRefStm")) {
        None => None,
        Some(obj) => match obj.as_i64() {
            Some(x) => {
                if 0 <= x && (x as u64) <= (usize::MAX as u64) {
                    Some(x as usize)
                } else {
                    return Err(bad(trailer_at, "trailer /XRefStm is not a valid offset"));
                }
            },
            None => return Err(bad(trailer_at, "trailer /XRefStm is not a valid offset")),
        },
    };
    Ok(Section { entries, trailer, xref_stm })
}


/// Largest field width in a cross-reference stream's `/W` array: a field
/// is read into a `u64`.
pub const MAX_FIELD_WIDTH: usize = 8;

/// Item `i` of `/W` is a width from 0 to 8.
pub open spec fn width_ok(w: Seq<ObjectView>, i: int) -> bool {
    i < w.len() && w[i] is Integer && 0 <= w[i]->Integer_0 <= MAX_FIELD_WIDTH
}

/// `/W`: the byte width of the three fields of every row (7.5.8.2,
/// table 17); widths above 8 or an all-zero `/W` are refused.
pub open spec fn spec_field_widths(d: Seq<(Seq<u8>, ObjectView)>) -> Result<(usize, usize, usize), Seq<char>> {
    match dict_get(d, "W".spec_bytes()) {
        Some(ObjectView::Array(w)) => if !(width_ok(w, 0) && width_ok(w, 1) && width_ok(w, 2)) {
            Err("/W must hold three widths between 0 and 8"@)
        } else {
            let a = w[0]->Integer_0 as usize;
            let b = w[1]->Integer_0 as usize;
            let c = w[2]->Integer_0 as usize;
            if a == 0 && b == 0 && c == 0 {
                Err("/W declares empty rows"@)
            } else {
                Ok((a, b, c))
            }
        },
        _ => Err("cross-reference stream has no /W array"@),
    }
}

/// Pair `k` of `/Index` holds a first object number and a count.
pub open spec fn pair_ok(items: Seq<ObjectView>, k: int) -> bool {
    &&& items[2 * k] is Integer
    &&& 0 <= items[2 * k]->Integer_0 <= u32::MAX
    &&& items[2 * k + 1] is Integer
    &&& 0 <= items[2 * k + 1]->Integer_0
}

/// `/Index`: pairs `first count` (7.5.8.2). Defaults to `[0 /Size]`;
/// when `/Size` is unusable too, every row is taken from object 0 on.
pub open spec fn spec_index_pairs(d: Seq<(Seq<u8>, ObjectView)>) -> Result<Seq<(u32, u64)>, Seq<char>> {
    match dict_get(d, "Index".spec_bytes()) {
        None => {
            let size: u64 = match dict_get(d, "Size".spec_bytes()) {
                Some(ObjectView::Integer(n)) => if n >= 0 {
                    n as u64
                } else {
                    u64::MAX
                },
                _ => u64::MAX,
            };
            Ok(seq![(0u32, size)])
        },
        Some(ObjectView::Array(items)) => if items.len() % 2 != 0 {
            Err("/Index must hold pairs of integers"@)
        } else if forall|k: int| 0 <= k < items.len() / 2 ==> #[trigger] pair_ok(items, k) {
            Ok(
                Seq::new(
                    (items.len() / 2) as nat,
                    |k: int| (items[2 * k]->Integer_0 as u32, items[2 * k + 1]->Integer_0 as u64),
                ),
            )
        } else {
            Err("/Index must hold non-negative integers"@)
        },
        Some(_) => Err("/Index is not an array"@),
    }
}

/// The entries of the rows of a decoded cross-reference stream from byte
/// `q`, for subsections `pairs` from `pi`, `i` rows of which are read;
/// reading stops at the last whole row, whatever the counts claim. Types
/// other than 0, 1 and 2 stand for the null object: no entry.
pub open spec fn stream_rows(data: Seq<u8>, row_len: int, w: (usize, usize, usize), pairs: Seq<(u32, u64)>, pi: int, i: int, q: int, m: Map<u32, XrefEntry>, offset: int) -> Result<Map<u32, XrefEntry>, XrefFailure>
    decreases data.len() - q, pairs.len() - pi,
{
    if row_len < 1 || q < 0 || pi < 0 || pi >= pairs.len() {
        Ok(m)
    } else if i >= pairs[pi].1 {
        stream_rows(data, row_len, w, pairs, pi + 1, 0, q, m, offset)
    } else if q + row_len > data.len() {
        Ok(m)
    } else if pairs[pi].0 + i > u32::MAX {
        Err(XrefFailure::Bad(offset, "object number out of range"@))
    } else {
        match row_entry(data.subrange(q, q + row_len), w) {
            Err(msg) => Err(XrefFailure::Bad(offset, msg)),
            Ok(None) => stream_rows(data, row_len, w, pairs, pi, i + 1, q + row_len, m, offset),
            Ok(Some(en)) => stream_rows(
                data,
                row_len,
                w,
                pairs,
                pi,
                i + 1,
                q + row_len,
                m.insert((pairs[pi].0 + i) as u32, en),
                offset,
            ),
        }
    }
}

/// A cross-reference stream, `n g obj << /Type /XRef ... >> stream`, at
/// `offset` (ISO 32000-2, 7.5.8.2 and 7.5.8.3). Its dictionary is its
/// trailer; references in it are not followed: there is no table yet.
pub open spec fn stream_section_at(s: Seq<u8>, offset: int, limits: DecodeLimits) -> Result<SectionView, XrefFailure> {
    if offset < 0 || offset >= s.len() {
        Err(XrefFailure::Bad(offset, "offset beyond end of file"@))
    } else {
        match indirect_at(s, offset).0 {
            Err(_) => Err(XrefFailure::Bad(offset, "expected `xref` or a cross-reference stream"@)),
            Ok((_, ObjectView::Stream(d, data))) => if dict_get(d, "Type".spec_bytes()) != Some(
                ObjectView::Name("XRef".spec_bytes()),
            ) {
                Err(XrefFailure::Bad(offset, "stream is not of /Type /XRef"@))
            } else {
                match spec_decode_stream(d, data, &Direct, limits) {
                    Err(f) => Err(XrefFailure::Decoding(f, limits)),
                    Ok(decoded) => match spec_field_widths(d) {
                        Err(msg) => Err(XrefFailure::Bad(offset, msg)),
                        Ok(w) => match spec_index_pairs(d) {
                            Err(msg) => Err(XrefFailure::Bad(offset, msg)),
                            Ok(pairs) => match stream_rows(
                                decoded,
                                w.0 + w.1 + w.2,
                                w,
                                pairs,
                                0,
                                0,
                                0,
                                Map::empty(),
                                offset,
                            ) {
                                Ok(m) => Ok(SectionView { entries: m, trailer: d, xref_stm: None }),
                                Err(f) => Err(f),
                            },
                        },
                    },
                }
            },
            Ok(_) => Err(XrefFailure::Bad(offset, "cross-reference object is not a stream"@)),
        }
    }
}

/// Item `k` of `/W`, when it is a width from 0 to 8.
fn width_at(w: &Vec<Object>, k: usize) -> (r: Option<usize>)
    ensures
        match r {
            Some(v) => width_ok(crate::object::items_view(w@), k as int) && v == crate::object::items_view(
                w@,
            )[k as int]->Integer_0 as usize,
            None => !width_ok(crate::object::items_view(w@), k as int),
        },
{
    proof {
        crate::object::lemma_items_view(w@);
    }
    if k >= w.len() {
        return None;
    }
    match w[k].as_i64() {
        Some(v) => {
            if 0 <= v && v <= 8 {
                Some(v as usize)
            } else {
                None
            }
        },
        None => None,
    }
}

/// `/W` of a cross-reference stream dictionary (see [`spec_field_widths`]).
fn field_widths(dict: &Dict, offset: usize) -> (r: Result<[usize; 3], Error>)
    ensures
        match spec_field_widths(dict@) {
            Ok(w) => r matches Ok(a) && widths_of(a) == w,
            Err(msg) => r matches Err(Error::BadXref { offset: o, message }) && o == offset && message@ == msg,
        },
{
    let w = match dict.get(&Name::new("W")) {
        Some(Object::Array(w)) => w,
        _ => return Err(bad(offset, "cross-reference stream has no /W array")),
    };
    let a = match width_at(w, 0) {
        Some(v) => v,
        None => return Err(bad(offset, "/W must hold three widths between 0 and 8")),
    };
    let b = match width_at(w, 1) {
        Some(v) => v,
        None => return Err(bad(offset, "/W must hold three widths between 0 and 8")),
    };
    let c = match width_at(w, 2) {
        Some(v) => v,
        None => return Err(bad(offset, "/W must hold three widths between 0 and 8")),
    };
    if a == 0 && b == 0 && c == 0 {
        return Err(bad(offset, "/W declares empty rows"));
    }
    let widths: [usize; 3] = [a, b, c];
    assert(widths_of(widths) == (a, b, c));
    Ok(widths)
}

/// `/Index` of a cross-reference stream dictionary (see
/// [`spec_index_pairs`]).
#[verifier::spinoff_prover]
fn index_pairs(dict: &Dict, offset: usize) -> (r: Result<Vec<(u32, u64)>, Error>)
    ensures
        match spec_index_pairs(dict@) {
            Ok(pairs) => r matches Ok(v) && v@ == pairs,
            Err(msg) => r matches Err(Error::BadXref { offset: o, message }) && o == offset && message@ == msg,
        },
{
    match dict.get(&Name::new("Index")) {
        None => {
            let size: u64 = match dict.get(&Name::new("Size")) {
                Some(Object::Integer(n)) => {
                    if *n >= 0 {
                        *n as u64
                    } else {
                        u64::MAX
                    }
                },
                _ => u64::MAX,
            };
            let mut v: Vec<(u32, u64)> = Vec::new();
            v.push((0, size));
            assert(v@ =~= seq![(0u32, size)]);
            Ok(v)
        },
        Some(Object::Array(items)) => {
            let ghost iv = crate::object::items_view(items@);
            proof {
                crate::object::lemma_items_view(items@);
            }
            if items.len() % 2 != 0 {
                return Err(bad(offset, "/Index must hold pairs of integers"));
            }
            let n = items.len() / 2;
            assert(items@.len() == 2 * n);
            let mut out: Vec<(u32, u64)> = Vec::new();
            let mut k: usize = 0;
            while k < n
                invariant
                    dict_get(dict@, "Index".spec_bytes()) == Some(ObjectView::Array(iv)),
                    items@.len() == 2 * n,
                    2 * n <= usize::MAX,
                    k <= n,
                    n == items@.len() / 2,
                    items@.len() % 2 == 0,
                    iv == crate::object::items_view(items@),
                    iv.len() == items@.len(),
                    forall|j: int| 0 <= j < items@.len() ==> #[trigger] iv[j] == items@[j]@,
                    out@.len() == k,
                    forall|j: int| 0 <= j < k ==> #[trigger] pair_ok(iv, j) && out@[j] == (
                        iv[2 * j]->Integer_0 as u32,
                        iv[2 * j + 1]->Integer_0 as u64,
                    ),
                decreases n - k,
            {
                assert(2 * k + 1 < items@.len());
                assert(iv[2 * k as int] == items@[2 * k as int]@);
                assert(iv[2 * k + 1] == items@[2 * k + 1]@);
                let i0 = k + k;
                let first = items[i0].as_i64();
                let count = items[i0 + 1].as_i64();
                match (first, count) {
                    (Some(f), Some(c)) => {
                        if 0 <= f && f <= 0xFFFF_FFFF && c >= 0 {
                            let ghost before = out@;
                            out.push((f as u32, c as u64));
                            proof {
                                assert(i0 == 2 * k);
                                assert(iv[2 * k as int] == ObjectView::Integer(f));
                                assert(iv[2 * k + 1] == ObjectView::Integer(c));
                                assert(pair_ok(iv, k as int));
                                assert forall|j: int| 0 <= j < k + 1 implies #[trigger] pair_ok(iv, j) && out@[j] == (
                                    iv[2 * j]->Integer_0 as u32,
                                    iv[2 * j + 1]->Integer_0 as u64,
                                ) by {
                                    if j < k {
                                        assert(out@[j] == before[j]);
                                    } else {
                                        assert(j == k);
                                        assert(out@[j] == (f as u32, c as u64));
                                    }
                                }
                            }
                        } else {
                            proof {
                                assert(!pair_ok(iv, k as int));
                            }
                            return Err(bad(offset, "/Index must hold non-negative integers"));
                        }
                    },
                    _ => {
                        proof {
                            assert(!pair_ok(iv, k as int));
                        }
                        return Err(bad(offset, "/Index must hold non-negative integers"));
                    },
                }
                k = k + 1;
            }
            proof {
                assert(iv.len() / 2 == n);
                assert(forall|j: int| 0 <= j < iv.len() / 2 ==> #[trigger] pair_ok(iv, j));
                let pairs = Seq::new(
                    (iv.len() / 2) as nat,
                    |j: int| (iv[2 * j]->Integer_0 as u32, iv[2 * j + 1]->Integer_0 as u64),
                );
                assert(spec_index_pairs(dict@) == Ok::<Seq<(u32, u64)>, Seq<char>>(pairs));
                assert forall|j: int| 0 <= j < n implies out@[j] == pairs[j] by {
                    assert(pair_ok(iv, j));
                }
                assert(out@ =~= pairs);
            }
            Ok(out)
        },
        Some(_) => Err(bad(offset, "/Index is not an array")),
    }
}


/// The entries of the rows of a decoded cross-reference stream (see
/// [`stream_rows`]).
fn read_rows(data: &[u8], widths: [usize; 3], pairs: &Vec<(u32, u64)>, offset: usize) -> (r: Result<BTreeMap<u32, XrefEntry>, Error>)
    requires
        widths[0] <= MAX_FIELD_WIDTH && widths[1] <= MAX_FIELD_WIDTH && widths[2] <= MAX_FIELD_WIDTH,
    ensures
        match stream_rows(data@, widths[0] + widths[1] + widths[2], widths_of(widths), pairs@, 0, 0, 0, Map::empty(), offset as int) {
            Ok(m) => r matches Ok(x) && x@ == m,
            Err(f) => r matches Err(e) && xref_failure_is(e, f),
        },
{
    let row_len = widths[0] + widths[1] + widths[2];
    let ghost w = widths_of(widths);
    let ghost target = stream_rows(data@, row_len as int, w, pairs@, 0, 0, 0, Map::empty(), offset as int);
    let mut entries: BTreeMap<u32, XrefEntry> = BTreeMap::new();
    let mut pi: usize = 0;
    let mut i: u64 = 0;
    let mut q: usize = 0;
    let mut done = false;
    if row_len == 0 {
        return Ok(entries);
    }
    while !done && pi < pairs.len()
        invariant
            row_len == widths[0] + widths[1] + widths[2],
            row_len >= 1,
            w == widths_of(widths),
            q <= data@.len(),
            target == stream_rows(data@, row_len as int, w, pairs@, 0, 0, 0, Map::empty(), offset as int),
            !done ==> target == stream_rows(data@, row_len as int, w, pairs@, pi as int, i as int, q as int, entries@, offset as int),
            done ==> target == Ok::<Map<u32, XrefEntry>, XrefFailure>(entries@),
            pi <= pairs@.len(),
            i <= q,
        decreases data@.len() - q, pairs@.len() - pi, if done { 0int } else { 1int },
    {
        let (first, count) = pairs[pi];
        if i >= count {
            pi = pi + 1;
            i = 0;
        } else if row_len > data.len() - q {
            done = true;
        } else {
            if i > 0xFFFF_FFFF || (first as u64) + i > 0xFFFF_FFFF {
                return Err(bad(offset, "object number out of range"));
            }
            let num = ((first as u64) + i) as u32;
            let row = vstd::slice::slice_subrange(data, q, q + row_len);
            match decode_row(row, widths, offset) {
                Err(e) => return Err(e),
                Ok(None) => {},
                Ok(Some(entry)) => {
                    entries.insert(num, entry);
                },
            }
            i = i + 1;
            q = q + row_len;
        }
    }
    Ok(entries)
}

/// Parse a cross-reference stream at `offset` (see [`stream_section_at`]).
fn parse_stream_section(input: &[u8], offset: usize, limits: DecodeLimits) -> (r: Result<Section, Error>)
    ensures
        match stream_section_at(input@, offset as int, limits) {
            Ok(v) => r matches Ok(sec) && sec.entries@ == v.entries && sec.trailer@ == v.trailer && sec.xref_stm == v.xref_stm,
            Err(f) => r matches Err(e) && xref_failure_is(e, f),
        },
{
    if offset >= input.len() {
        return Err(bad(offset, "offset beyond end of file"));
    }
    let mut parser = Parser::at(input, offset);
    let obj = match parser.parse_indirect() {
        Ok((_, o)) => o,
        Err(_) => return Err(bad(offset, "expected `xref` or a cross-reference stream")),
    };
    let (dict, data) = match obj {
        Object::Stream { dict, data } => (dict, data),
        _ => return Err(bad(offset, "cross-reference object is not a stream")),
    };
    let is_xref = match dict.get(&Name::new("Type")) {
        Some(Object::Name(n)) => crate::bytes::bytes_eq(n.0.as_slice(), "XRef".as_bytes()),
        _ => false,
    };
    if !is_xref {
        return Err(bad(offset, "stream is not of /Type /XRef"));
    }
    let decoded = match decode_stream_with(&dict, data.as_slice(), &Direct, limits) {
        Ok(d) => d,
        Err(e) => return Err(e),
    };
    let widths = match field_widths(&dict, offset) {
        Ok(w) => w,
        Err(e) => return Err(e),
    };
    let pairs = match index_pairs(&dict, offset) {
        Ok(p) => p,
        Err(e) => return Err(e),
    };
    let entries = match read_rows(decoded.as_slice(), widths, &pairs, offset) {
        Ok(m) => m,
        Err(e) => return Err(e),
    };
    Ok(Section { entries, trailer: dict, xref_stm: None })
}


/// A table's entries with those of its `/XRefStm` stream (7.5.8.4): an
/// entry of the stream replaces a free entry of the table, and fills the
/// numbers the table does not list.
pub open spec fn hybrid_merge(table: Map<u32, XrefEntry>, stream: Map<u32, XrefEntry>) -> Map<u32, XrefEntry> {
    Map::new(
        |k: u32| table.contains_key(k) || stream.contains_key(k),
        |k: u32|
            if stream.contains_key(k) && (!table.contains_key(k) || table[k] is Free) {
                stream[k]
            } else {
                table[k]
            },
    )
}

/// Merge the entries of a hybrid file's stream into its table.
fn merge_hybrid(table: &mut BTreeMap<u32, XrefEntry>, stream: &BTreeMap<u32, XrefEntry>)
    ensures
        final(table)@ == hybrid_merge(old(table)@, stream@),
{
    let ghost t0 = table@;
    let ghost mut done: Set<u32> = Set::empty();
    proof {
        vstd::std_specs::btree::axiom_spec_keys_iter(stream);
    }
    for k in it: stream.keys()
        invariant
            it.seq().unref().to_set() == stream@.dom(),
            forall|x: u32| #[trigger] done.contains(x) <==> it.seq().take(it.index() as int).contains(&x),
            it.index() == it.seq().len() ==> done == stream@.dom(),
            forall|x: u32|
                #[trigger] table@.contains_key(x) <==> (t0.contains_key(x) || (stream@.contains_key(x)
                    && done.contains(x))),
            forall|x: u32|
                #[trigger] table@.contains_key(x) ==> table@[x] == if stream@.contains_key(x)
                    && done.contains(x) && (!t0.contains_key(x) || t0[x] is Free) {
                    stream@[x]
                } else {
                    t0[x]
                },
    {
        let key = *k;
        let ghost before = table@;
        let ghost idx = it.index();
        let ghost seen = it.seq().take(idx as int);
        let ghost seen2 = it.seq().take(idx + 1);
        proof {
            assert(it.seq().unref()[idx as int] == key);
            assert(it.seq().unref().to_set().contains(key));
            assert forall|x: u32| seen2.contains(&x) <==> (seen.contains(&x) || x == key) by {
                if seen2.contains(&x) {
                    let j = choose|j: int| 0 <= j < seen2.len() && seen2[j] == &x;
                    if j < idx {
                        assert(seen[j] == &x);
                    }
                }
                if seen.contains(&x) {
                    let j = choose|j: int| 0 <= j < seen.len() && seen[j] == &x;
                    assert(seen2[j] == &x);
                }
                if x == key {
                    assert(seen2[idx as int] == &x);
                }
            }
        }
        let take = match table.get(&key) {
            None => true,
            Some(XrefEntry::Free { .. }) => true,
            Some(_) => false,
        };
        if take {
            match stream.get(&key) {
                Some(entry) => {
                    table.insert(key, *entry);
                },
                None => {},
            }
        }
        proof {
            done = done.insert(key);
        }
        proof {
            assert forall|x: u32| #[trigger] table@.contains_key(x) implies table@[x] == if stream@.contains_key(x)
                && done.contains(x) && (!t0.contains_key(x) || t0[x] is Free) {
                stream@[x]
            } else {
                t0[x]
            } by {
                if x != key {
                    assert(before.contains_key(x));
                }
            }
            assert forall|x: u32| idx + 1 == it.seq().len() implies (done.contains(x) <==> stream@.dom().contains(x)) by {
                assert(seen2 =~= it.seq());
                if stream@.dom().contains(x) {
                    assert(it.seq().unref().to_set().contains(x));
                    let j = choose|j: int| 0 <= j < it.seq().unref().len() && it.seq().unref()[j] == x;
                    assert(seen2[j] == &x);
                }
                if done.contains(x) {
                    assert(seen2.contains(&x));
                    let j = choose|j: int| 0 <= j < seen2.len() && seen2[j] == &x;
                    assert(it.seq().unref()[j] == x);
                    assert(it.seq().unref().to_set().contains(x));
                }
            }
            assert(idx + 1 == it.seq().len() ==> done =~= stream@.dom());
        }
    }
    proof {
        assert(table@ =~= hybrid_merge(t0, stream@));
    }
}


/// Add the entries of an older section for the numbers not listed yet:
/// sections are read newest first, and the newest entry wins (7.5.6).
fn merge_older(entries: &mut BTreeMap<u32, XrefEntry>, older: &BTreeMap<u32, XrefEntry>)
    ensures
        final(entries)@ == older@.union_prefer_right(old(entries)@),
{
    let ghost t0 = entries@;
    let ghost mut done: Set<u32> = Set::empty();
    proof {
        vstd::std_specs::btree::axiom_spec_keys_iter(older);
    }
    for k in it: older.keys()
        invariant
            it.seq().unref().to_set() == older@.dom(),
            forall|x: u32| #[trigger] done.contains(x) <==> it.seq().take(it.index() as int).contains(&x),
            it.index() == it.seq().len() ==> done == older@.dom(),
            forall|x: u32|
                #[trigger] entries@.contains_key(x) <==> (t0.contains_key(x) || (older@.contains_key(x)
                    && done.contains(x))),
            forall|x: u32|
                #[trigger] entries@.contains_key(x) ==> entries@[x] == if t0.contains_key(x) {
                    t0[x]
                } else {
                    older@[x]
                },
    {
        let key = *k;
        let ghost before = entries@;
        let ghost idx = it.index();
        let ghost seen = it.seq().take(idx as int);
        let ghost seen2 = it.seq().take(idx + 1);
        proof {
            assert(it.seq().unref()[idx as int] == key);
            assert(it.seq().unref().to_set().contains(key));
            assert forall|x: u32| seen2.contains(&x) <==> (seen.contains(&x) || x == key) by {
                if seen2.contains(&x) {
                    let j = choose|j: int| 0 <= j < seen2.len() && seen2[j] == &x;
                    if j < idx {
                        assert(seen[j] == &x);
                    }
                }
                if seen.contains(&x) {
                    let j = choose|j: int| 0 <= j < seen.len() && seen[j] == &x;
                    assert(seen2[j] == &x);
                }
                if x == key {
                    assert(seen2[idx as int] == &x);
                }
            }
        }
        if !entries.contains_key(&key) {
            match older.get(&key) {
                Some(entry) => {
                    entries.insert(key, *entry);
                },
                None => {},
            }
        }
        proof {
            done = done.insert(key);
        }
        proof {
            assert forall|x: u32| idx + 1 == it.seq().len() implies (done.contains(x) <==> older@.dom().contains(x)) by {
                assert(seen2 =~= it.seq());
                if older@.dom().contains(x) {
                    assert(it.seq().unref().to_set().contains(x));
                    let j = choose|j: int| 0 <= j < it.seq().unref().len() && it.seq().unref()[j] == x;
                    assert(seen2[j] == &x);
                }
                if done.contains(x) {
                    assert(seen2.contains(&x));
                    let j = choose|j: int| 0 <= j < seen2.len() && seen2[j] == &x;
                    assert(it.seq().unref()[j] == x);
                    assert(it.seq().unref().to_set().contains(x));
                }
            }
            assert(idx + 1 == it.seq().len() ==> done =~= older@.dom());
        }
    }
    proof {
        assert(entries@ =~= older@.union_prefer_right(t0));
    }
}

/// The section at `offset`: a classic table or a cross-reference stream,
/// whichever is there.
pub open spec fn section_at(s: Seq<u8>, offset: int, limits: DecodeLimits) -> Result<(SectionView, SectionKind), XrefFailure> {
    if offset < 0 || offset >= s.len() {
        Err(XrefFailure::Bad(offset, "offset beyond end of file"@))
    } else {
        let (t, e) = token_at(s, offset);
        let at = skip_from(s, offset, false);
        match t {
            Err(f) => Err(XrefFailure::Lexing(f)),
            Ok(TokenView::Integer(_)) => match stream_section_at(s, offset, limits) {
                Ok(v) => Ok((v, SectionKind::Stream)),
                Err(f) => Err(f),
            },
            Ok(v) => if v == TokenView::Keyword("xref".spec_bytes()) {
                match table_section_at(s, e) {
                    Ok(sec) => Ok(
                        (
                            sec,
                            if sec.xref_stm is Some {
                                SectionKind::Hybrid
                            } else {
                                SectionKind::Table
                            },
                        ),
                    ),
                    Err(f) => Err(f),
                }
            } else {
                Err(XrefFailure::Bad(at, "expected `xref` or a cross-reference stream"@))
            },
        }
    }
}

/// The section at `offset` and, for a hybrid file, the entries of its
/// `/XRefStm` stream merged in (7.5.8.4); `visited` holds the offsets
/// already read, so that a loop is an error, not a hang. Gives the
/// offsets read so far.
#[verifier::opaque]
pub open spec fn load_at(s: Seq<u8>, offset: usize, limits: DecodeLimits, visited: Seq<usize>) -> Result<(SectionView, SectionKind, Seq<usize>), XrefFailure> {
    if visited.contains(offset) {
        Err(XrefFailure::Loop(offset as int))
    } else {
        let v1 = visited.push(offset);
        match section_at(s, offset as int, limits) {
            Err(f) => Err(f),
            Ok((sec, kind)) => match sec.xref_stm {
                None => Ok((sec, kind, v1)),
                Some(stm) => if v1.contains(stm) {
                    Err(XrefFailure::Loop(stm as int))
                } else {
                    match stream_section_at(s, stm as int, limits) {
                        Err(f) => Err(f),
                        Ok(h) => Ok(
                            (
                                SectionView {
                                    entries: hybrid_merge(sec.entries, h.entries),
                                    trailer: sec.trailer,
                                    xref_stm: sec.xref_stm,
                                },
                                kind,
                                v1.push(stm),
                            ),
                        ),
                    }
                },
            },
        }
    }
}

/// `/Prev` of a trailer: offset of the previous section, if any.
pub open spec fn prev_of(trailer: Seq<(Seq<u8>, ObjectView)>, section: int) -> Result<Option<usize>, XrefFailure> {
    match dict_get(trailer, "Prev".spec_bytes()) {
        None => Ok(None),
        Some(ObjectView::Integer(p)) => if 0 <= p <= usize::MAX {
            Ok(Some(p as usize))
        } else {
            Err(XrefFailure::Bad(section, "trailer /Prev is not a valid offset"@))
        },
        Some(_) => Err(XrefFailure::Bad(section, "trailer /Prev is not a valid offset"@)),
    }
}

/// The entries of the sections reached through `/Prev` from `next`, under
/// those already read (`entries`), newest first.
pub open spec fn chain_entries(s: Seq<u8>, next: Option<usize>, visited: Seq<usize>, entries: Map<u32, XrefEntry>, limits: DecodeLimits) -> Result<Map<u32, XrefEntry>, XrefFailure>
    decreases s.len() + 2 - visited.len(),
{
    match next {
        None => Ok(entries),
        Some(offset) => if visited.len() > s.len() {
            Ok(entries)
        } else {
            match load_at(s, offset, limits, visited) {
                Err(f) => Err(f),
                Ok((older, _, v2)) => {
                    proof {
                        lemma_load_at(s, offset, limits, visited);
                    }
                    match prev_of(older.trailer, offset as int) {
                        Err(f) => Err(f),
                        Ok(n2) => chain_entries(s, n2, v2, older.entries.union_prefer_right(entries), limits),
                    }
                },
            }
        },
    }
}

/// Object 0 listed in use is made free with generation 65535.
pub open spec fn free_zero(m: Map<u32, XrefEntry>) -> Map<u32, XrefEntry> {
    if m.contains_key(0) && !(m[0] is Free) {
        m.insert(0, XrefEntry::Free { gen: 65535 })
    } else {
        m
    }
}

/// Parse the section at `offset` (see [`section_at`]).
fn parse_section(input: &[u8], offset: usize, limits: DecodeLimits) -> (r: Result<(Section, SectionKind), Error>)
    ensures
        match section_at(input@, offset as int, limits) {
            Ok((v, kind)) => r matches Ok((sec, k)) && sec.entries@ == v.entries && sec.trailer@ == v.trailer && sec.xref_stm == v.xref_stm && k == kind,
            Err(f) => r matches Err(e) && xref_failure_is(e, f),
        },
{
    if offset >= input.len() {
        return Err(bad(offset, "offset beyond end of file"));
    }
    let mut lexer = Lexer::at(input, offset);
    let (t, at) = match next(&mut lexer) {
        Ok(x) => x,
        Err(e) => return Err(e),
    };
    if is_keyword(&t, "xref") {
        let section = match parse_table_section(input, &mut lexer) {
            Ok(sec) => sec,
            Err(e) => return Err(e),
        };
        let kind = if section.xref_stm.is_some() {
            SectionKind::Hybrid
        } else {
            SectionKind::Table
        };
        return Ok((section, kind));
    }
    match t {
        Token::Integer(_) => match parse_stream_section(input, offset, limits) {
            Ok(sec) => Ok((sec, SectionKind::Stream)),
            Err(e) => Err(e),
        },
        _ => Err(bad(at, "expected `xref` or a cross-reference stream")),
    }
}

fn contains_offset(v: &Vec<usize>, x: usize) -> (b: bool)
    ensures
        b == v@.contains(x),
{
    let mut k: usize = 0;
    while k < v.len()
        invariant
            k <= v@.len(),
            forall|j: int| 0 <= j < k ==> v@[j] != x,
        decreases v@.len() - k,
    {
        if v[k] == x {
            return true;
        }
        k = k + 1;
    }
    false
}

/// Read the section at `offset` and, for a hybrid file, merge in the
/// entries of its `/XRefStm` stream (see [`load_at`]).
fn load_section(input: &[u8], offset: usize, limits: DecodeLimits, visited: &mut Vec<usize>) -> (r: Result<(Section, SectionKind), Error>)
    ensures
        match load_at(input@, offset, limits, old(visited)@) {
            Ok((v, kind, vis)) => r matches Ok((sec, k)) && sec.entries@ == v.entries && sec.trailer@ == v.trailer && sec.xref_stm == v.xref_stm && k == kind && final(visited)@ == vis,
            Err(f) => r matches Err(e) && xref_failure_is(e, f),
        },
{
    proof {
        reveal(load_at);
    }
    if contains_offset(visited, offset) {
        return Err(Error::XrefLoop { offset });
    }
    visited.push(offset);
    let (mut section, kind) = match parse_section(input, offset, limits) {
        Ok(x) => x,
        Err(e) => return Err(e),
    };
    if let Some(stm) = section.xref_stm {
        if contains_offset(visited, stm) {
            return Err(Error::XrefLoop { offset: stm });
        }
        visited.push(stm);
        let hybrid = match parse_stream_section(input, stm, limits) {
            Ok(h) => h,
            Err(e) => return Err(e),
        };
        merge_hybrid(&mut section.entries, &hybrid.entries);
    }
    Ok((section, kind))
}

/// `/Prev` of a trailer (see [`prev_of`]).
fn prev_offset(trailer: &Dict, section: usize) -> (r: Result<Option<usize>, Error>)
    ensures
        match prev_of(trailer@, section as int) {
            Ok(p) => r == Ok::<Option<usize>, Error>(p),
            Err(f) => r matches Err(e) && xref_failure_is(e, f),
        },
{
    match trailer.get(&Name::new("Prev")) {
        None => Ok(None),
        Some(obj) => match obj.as_i64() {
            Some(p) => {
                if 0 <= p && (p as u64) <= (usize::MAX as u64) {
                    Ok(Some(p as usize))
                } else {
                    Err(bad(section, "trailer /Prev is not a valid offset"))
                }
            },
            None => Err(bad(section, "trailer /Prev is not a valid offset")),
        },
    }
}


/// Offsets read once each, all within the input, are at most as many as
/// the input's bytes.
proof fn lemma_offsets_bounded(v: Seq<usize>, n: int)
    requires
        v.no_duplicates(),
        0 <= n,
        forall|i: int| 0 <= i < v.len() ==> v[i] < n,
    ensures
        v.len() <= n,
{
    let w = v.map_values(|x: usize| x as int);
    assert(w.no_duplicates()) by {
        assert forall|i: int, j: int| 0 <= i < w.len() && 0 <= j < w.len() && i != j implies w[i] != w[j] by {
            assert(v[i] != v[j]);
        }
    }
    w.unique_seq_to_set();
    vstd::set_lib::lemma_int_range(0, n);
    assert(w.to_set().subset_of(vstd::set_lib::set_int_range(0, n))) by {
        assert forall|x: int| w.to_set().contains(x) implies vstd::set_lib::set_int_range(0, n).contains(x) by {
            let i = choose|i: int| 0 <= i < w.len() && w[i] == x;
            assert(v[i] < n);
        }
    }
    vstd::set_lib::lemma_len_subset(w.to_set(), vstd::set_lib::set_int_range(0, n));
}

/// What a successful load adds to the offsets read: its own offset, and
/// its `/XRefStm` offset, each new and within the input.
pub proof fn lemma_load_at(s: Seq<u8>, offset: usize, limits: DecodeLimits, visited: Seq<usize>)
    requires
        load_at(s, offset, limits, visited) is Ok,
    ensures
        ({
            let v2 = load_at(s, offset, limits, visited)->Ok_0.2;
            &&& visited.len() < v2.len() <= visited.len() + 2
            &&& v2.subrange(0, visited.len() as int) == visited
            &&& forall|i: int| visited.len() <= i < v2.len() ==> v2[i] < s.len() && !v2.subrange(0, i).contains(v2[i])
        }),
{
    reveal(load_at);
    let v1 = visited.push(offset);
    assert(v1.subrange(0, visited.len() as int) =~= visited);
    assert(v1.subrange(0, visited.len() as int) == visited);
    match section_at(s, offset as int, limits) {
        Ok((sec, kind)) => match sec.xref_stm {
            Some(stm) => {
                let v2 = v1.push(stm);
                assert(v2.subrange(0, visited.len() as int) =~= visited);
                assert(v2.subrange(0, v1.len() as int) =~= v1);
            },
            None => {},
        },
        Err(_) => {},
    }
}

/// Offsets added one by one, each new, stay distinct and within the input.
proof fn lemma_offsets_added(v0: Seq<usize>, v: Seq<usize>, n: int)
    requires
        v0.no_duplicates(),
        forall|i: int| 0 <= i < v0.len() ==> v0[i] < n,
        v0.len() <= v.len(),
        v.subrange(0, v0.len() as int) == v0,
        forall|i: int| v0.len() <= i < v.len() ==> v[i] < n && !v.subrange(0, i).contains(v[i]),
    ensures
        v.no_duplicates(),
        forall|i: int| 0 <= i < v.len() ==> v[i] < n,
{
    assert forall|i: int, j: int| 0 <= i < v.len() && 0 <= j < v.len() && i != j implies v[i] != v[j] by {
        if i < v0.len() && j < v0.len() {
            assert(v[i] == v.subrange(0, v0.len() as int)[i] && v[j] == v.subrange(0, v0.len() as int)[j]);
        } else if i < j {
            if v[i] == v[j] {
                assert(v.subrange(0, j)[i] == v[i]);
            }
        } else {
            if v[i] == v[j] {
                assert(v.subrange(0, i)[j] == v[j]);
            }
        }
    }
    assert forall|i: int| 0 <= i < v.len() implies v[i] < n by {
        if i < v0.len() {
            assert(v[i] == v.subrange(0, v0.len() as int)[i]);
        }
    }
}

/// The keys a `BTreeMap` of object numbers yields come in increasing order.
proof fn lemma_increasing_keys(keys: Seq<u32>)
    requires
        vstd::std_specs::btree::increasing_seq(keys),
    ensures
        forall|i: int, j: int| 0 <= i < j < keys.len() ==> keys[i] < keys[j],
{
    vstd::std_specs::btree::axiom_increasing_seq_meaning(keys);
    assert forall|i: int, j: int| 0 <= i < j < keys.len() implies keys[i] < keys[j] by {
        assert(vstd::std_specs::cmp::OrdSpec::cmp_spec(&keys[i], &keys[j]) is Less);
    }
}

/// `l` lists the entries of `m` by increasing object number.
pub open spec fn listing_of(m: Map<u32, XrefEntry>, l: Seq<(u32, XrefEntry)>) -> bool {
    &&& l.len() == m.dom().len()
    &&& forall|i: int| 0 <= i < l.len() ==> m.contains_key(#[trigger] l[i].0) && m[l[i].0] == l[i].1
    &&& forall|i: int, j: int| 0 <= i < j < l.len() ==> #[trigger] l[i].0 < #[trigger] l[j].0
}

/// The object numbers whose entry denotes a stored object.
pub open spec fn in_use(m: Map<u32, XrefEntry>) -> Set<u32> {
    m.dom().filter(|x: u32| !(m[x] is Free))
}

/// Cross-reference table merged across incremental updates, with the
/// newest trailer.
#[derive(Debug, PartialEq)]
pub struct Xref {
    entries: BTreeMap<u32, XrefEntry>,
    trailer: Dict,
    kind: SectionKind,
}

/// A merged cross-reference table as values.
pub struct XrefView {
    pub entries: Map<u32, XrefEntry>,
    pub trailer: Seq<(Seq<u8>, ObjectView)>,
    pub kind: SectionKind,
}

/// The table of an [`Xref`] has finitely many entries.
pub proof fn lemma_entries_finite(x: &Xref)
    ensures
        x@.entries.dom().finite(),
{
    vstd::std_specs::btree::axiom_btree_map_view_finite_dom(x.entries);
}

impl View for Xref {
    type V = XrefView;

    closed spec fn view(&self) -> XrefView {
        XrefView { entries: self.entries@, trailer: self.trailer@, kind: self.kind }
    }
}

/// The table read from the section at `startxref` and the older ones it
/// reaches through `/Prev`: for every object number the newest entry wins
/// (ISO 32000-2, 7.5.6), object 0 is never in use, the trailer and the
/// kind are those of the newest section.
pub open spec fn xref_at(s: Seq<u8>, startxref: usize, limits: DecodeLimits) -> Result<XrefView, XrefFailure> {
    match load_at(s, startxref, limits, Seq::empty()) {
        Err(f) => Err(f),
        Ok((newest, kind, v)) => match prev_of(newest.trailer, startxref as int) {
            Err(f) => Err(f),
            Ok(next) => match chain_entries(s, next, v, newest.entries, limits) {
                Err(f) => Err(f),
                Ok(m) => Ok(XrefView { entries: free_zero(m), trailer: newest.trailer, kind }),
            },
        },
    }
}

impl Xref {
    /// Read the section at `startxref`, then each older section reached
    /// through `/Prev`, under the default limits (see [`xref_at`]).
    /// Nothing is sized from values found in the file (`/Size`,
    /// subsection counts, `/Index`): only entries actually present are
    /// stored.
    pub fn parse(input: &[u8], startxref: usize) -> (r: Result<Xref, Error>)
        ensures
            match xref_at(input@, startxref, DecodeLimits { max_output: crate::filters::DEFAULT_MAX_OUTPUT }) {
                Ok(x) => r matches Ok(xr) && xr@ == x,
                Err(f) => r matches Err(e) && xref_failure_is(e, f),
            },
    {
        Xref::parse_with_limits(input, startxref, DecodeLimits::default())
    }

    /// Same as [`Xref::parse`], with the limits applied when decoding
    /// cross-reference streams.
    pub fn parse_with_limits(input: &[u8], startxref: usize, limits: DecodeLimits) -> (r: Result<Xref, Error>)
        ensures
            match xref_at(input@, startxref, limits) {
                Ok(x) => r matches Ok(xr) && xr@ == x,
                Err(f) => r matches Err(e) && xref_failure_is(e, f),
            },
    {
        let ghost s = input@;
        let mut visited: Vec<usize> = Vec::new();
        let (newest, kind) = match load_section(input, startxref, limits, &mut visited) {
            Ok(x) => x,
            Err(e) => return Err(e),
        };
        proof {
            lemma_load_at(s, startxref, limits, Seq::empty());
        }
        let mut next = match prev_offset(&newest.trailer, startxref) {
            Ok(n) => n,
            Err(e) => return Err(e),
        };
        let Section { entries: newest_entries, trailer, xref_stm: _ } = newest;
        let mut entries = newest_entries;
        let ghost target = chain_entries(s, next, visited@, entries@, limits);
        proof {
            lemma_offsets_added(Seq::empty(), visited@, s.len() as int);
        }
        assert(xref_at(s, startxref, limits) == match target {
            Err(f) => Err(f),
            Ok(m) => Ok(XrefView { entries: free_zero(m), trailer: trailer@, kind }),
        });
        loop
            invariant
                s == input@,
                xref_at(s, startxref, limits) == match target {
                    Err(f) => Err(f),
                    Ok(m) => Ok(XrefView { entries: free_zero(m), trailer: trailer@, kind }),
                },
                target == chain_entries(s, next, visited@, entries@, limits),
                visited@.no_duplicates(),
                forall|i: int| 0 <= i < visited@.len() ==> visited@[i] < s.len(),
            ensures
                next is None,
                target == chain_entries(s, next, visited@, entries@, limits),
            decreases s.len() + 2 - visited@.len(),
        {
            proof {
                lemma_offsets_bounded(visited@, s.len() as int);
            }
            let offset = match next {
                None => break,
                Some(o) => o,
            };
            let ghost v0 = visited@;
            let (older, _) = match load_section(input, offset, limits, &mut visited) {
                Ok(x) => x,
                Err(e) => return Err(e),
            };
            proof {
                lemma_load_at(s, offset, limits, v0);
                lemma_offsets_added(v0, visited@, s.len() as int);
            }
            merge_older(&mut entries, &older.entries);
            next = match prev_offset(&older.trailer, offset) {
                Ok(n) => n,
                Err(e) => return Err(e),
            };
        }
        free_object_zero(&mut entries);
        Ok(Xref { entries, trailer, kind })
    }

    /// Trailer of the newest section (ISO 32000-2, 7.5.5). For a
    /// cross-reference stream this is the stream dictionary (7.5.8.2).
    pub fn trailer(&self) -> (d: &Dict)
        ensures
            d@ == self@.trailer,
    {
        &self.trailer
    }

    /// How the newest section, the one `startxref` points to, is stored.
    pub fn kind(&self) -> (k: SectionKind)
        ensures
            k == self@.kind,
    {
        self.kind
    }

    /// A table rebuilt from `n g obj` headers found by scanning the file,
    /// kind [`SectionKind::Reconstructed`].
    pub fn reconstructed(entries: BTreeMap<u32, XrefEntry>, trailer: Dict) -> (x: Xref)
        ensures
            x@ == (XrefView { entries: entries@, trailer: trailer@, kind: SectionKind::Reconstructed }),
    {
        Xref { entries, trailer, kind: SectionKind::Reconstructed }
    }

    /// All entries, free ones included, by increasing object number.
    pub fn entries(&self) -> (r: Vec<(u32, XrefEntry)>)
        ensures
            listing_of(self@.entries, r@),
    {
        let ghost m = self.entries@;
        let ghost all = vstd::std_specs::btree::spec_btree_map_iter(&self.entries).remaining();
        proof {
            vstd::std_specs::btree::axiom_spec_btree_map_iter(&self.entries);
        }
        let mut out: Vec<(u32, XrefEntry)> = Vec::new();
        for (k, v) in it: self.entries.iter()
            invariant
                it.seq() == all,
                m == self.entries@,
                all.len() == m.dom().len(),
                forall|i: int| 0 <= i < all.len() ==> m.contains_key(*all[i].0) && m[*all[i].0] == *all[i].1,
                vstd::std_specs::btree::increasing_seq(all.map_values(|kv: (&u32, &XrefEntry)| *kv.0)),
                out@ == all.take(it.index() as int).unref(),
                it.index() == it.seq().len() ==> out@ == all.unref(),
        {
            let ghost idx = it.index();
            out.push((*k, *v));
            proof {
                assert(all.take(idx + 1).unref() =~= all.take(idx as int).unref().push((*k, *v)));
                assert(idx + 1 == all.len() ==> all.take(idx + 1) =~= all);
            }
        }
        proof {
            let keys = all.map_values(|kv: (&u32, &XrefEntry)| *kv.0);
            lemma_increasing_keys(keys);
            assert forall|i: int, j: int| 0 <= i < j < out@.len() implies out@[i].0 < out@[j].0 by {
                assert(keys[i] < keys[j]);
            }
        }
        out
    }

    /// Number of entries that denote a stored object: `n` entries and
    /// objects inside object streams.
    pub fn object_count(&self) -> (n: usize)
        ensures
            n == in_use(self@.entries).len(),
    {
        let ghost m = self.entries@;
        let ghost mut done: Set<u32> = Set::empty();
        let mut count: usize = 0;
        let total = self.entries.len();
        proof {
            vstd::std_specs::btree::axiom_spec_keys_iter(&self.entries);
            assert(Set::<u32>::empty().filter(|x: u32| m.contains_key(x) && !(m[x] is Free)) =~= Set::empty());
        }
        for k in it: self.entries.keys()
            invariant
                m == self.entries@,
                it.seq().len() == total,
                it.seq().unref().to_set() == m.dom(),
                it.seq().no_duplicates(),
                done.finite(),
                forall|x: u32| #[trigger] done.contains(x) <==> it.seq().take(it.index() as int).contains(&x),
                count == done.filter(|x: u32| m.contains_key(x) && !(m[x] is Free)).len(),
                count <= it.index(),
                it.index() == it.seq().len() ==> done == m.dom(),
        {
            let key = *k;
            let ghost idx = it.index();
            let ghost seen = it.seq().take(idx as int);
            let ghost seen2 = it.seq().take(idx + 1);
            proof {
                assert(it.seq().unref()[idx as int] == key);
                assert(it.seq().unref().to_set().contains(key));
                assert forall|x: u32| seen2.contains(&x) <==> (seen.contains(&x) || x == key) by {
                    if seen2.contains(&x) {
                        let j = choose|j: int| 0 <= j < seen2.len() && seen2[j] == &x;
                        if j < idx {
                            assert(seen[j] == &x);
                        }
                    }
                    if seen.contains(&x) {
                        let j = choose|j: int| 0 <= j < seen.len() && seen[j] == &x;
                        assert(seen2[j] == &x);
                    }
                    if x == key {
                        assert(seen2[idx as int] == &x);
                    }
                }
                assert(!done.contains(key)) by {
                    if seen.contains(&key) {
                        let j = choose|j: int| 0 <= j < seen.len() && seen[j] == &key;
                        assert(it.seq()[j] == it.seq()[idx as int]);
                    }
                }
            }
            let stored = match self.entries.get(&key) {
                Some(XrefEntry::Free { .. }) => false,
                Some(_) => true,
                None => false,
            };
            let ghost p = |x: u32| m.contains_key(x) && !(m[x] is Free);
            proof {
                let f0 = done.filter(p);
                let d1 = done.insert(key);
                if p(key) {
                    assert(d1.filter(p) =~= f0.insert(key));
                } else {
                    assert(d1.filter(p) =~= f0);
                }
                done = d1;
            }
            if stored {
                count = count + 1;
            }
            proof {
                assert forall|x: u32| idx + 1 == it.seq().len() implies (done.contains(x) <==> m.dom().contains(x)) by {
                    assert(seen2 =~= it.seq());
                    if m.dom().contains(x) {
                        assert(it.seq().unref().to_set().contains(x));
                        let j = choose|j: int| 0 <= j < it.seq().unref().len() && it.seq().unref()[j] == x;
                        assert(seen2[j] == &x);
                    }
                    if done.contains(x) {
                        assert(seen2.contains(&x));
                        let j = choose|j: int| 0 <= j < seen2.len() && seen2[j] == &x;
                        assert(it.seq().unref()[j] == x);
                        assert(it.seq().unref().to_set().contains(x));
                    }
                }
                assert(idx + 1 == it.seq().len() ==> done =~= m.dom());
            }
        }
        proof {
            assert(done.filter(|x: u32| m.contains_key(x) && !(m[x] is Free)) =~= in_use(m));
        }
        count
    }

    /// Entry for object number `num`, if any section lists it.
    pub fn get(&self, num: u32) -> (r: Option<XrefEntry>)
        ensures
            r == if self@.entries.contains_key(num) {
                Some(self@.entries[num])
            } else {
                None::<XrefEntry>
            },
    {
        match self.entries.get(&num) {
            Some(e) => Some(*e),
            None => None,
        }
    }
}

} // verus!
