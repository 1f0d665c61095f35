//! Document access: a file opened through its cross-reference table,
//! objects read on demand (ISO 32000-2, 7.5 and 7.7), including objects
//! stored in object streams (7.5.7).

use crate::decode::{decode_failure_is, decode_stream_with, spec_decode_stream, DecodeFailure, Resolve};
use crate::encryption::Crypt;
use crate::filters::DecodeLimits;
use crate::lexer::{is_delimiter, is_whitespace, spec_is_delimiter, spec_is_whitespace, token_at, LexFailure, Lexer, Token, TokenView};
use crate::object::{copy_object, dict_get, Dict, Name, ObjRef, Object, ObjectView};
use crate::parser::{failure_is, find, header_at, indirect_at, lex_failure, object_at, spec_find, ParseFailure, Parser};
use crate::text::{decimal, push_decimal, push_str, string_of};
use crate::version::{assumed, header_of, headerless_pdf, quick_info, startxref_of, PdfVersion};
use crate::xref::{listing_of, Xref, XrefEntry, XrefView};
use crate::Error;
use vstd::prelude::*;
use vstd::string::StringSliceAdditionalSpecFns;

verus! {

// ---------------------------------------------------------------------------
// Object streams (ISO 32000-2, 7.5.7)
// ---------------------------------------------------------------------------

/// A decoded object stream: its data and, for each object it holds, the
/// object number and the absolute offset in `data`.
pub struct ObjectStream {
    /// The decoded data.
    pub data: Vec<u8>,
    /// Object number and absolute offset of each object, in header order.
    pub objects: Vec<(u32, usize)>,
}

/// Why the header of an object stream could not be read.
pub enum StreamFailure {
    /// The tokenizer failed.
    Lex(LexFailure),
    /// [`Error::BadObjectStream`] with this message.
    Bad(Seq<char>),
}

/// `e` is the error reported for `f` on object stream `stream_num`.
pub open spec fn stream_failure_is(e: Error, stream_num: u32, f: StreamFailure) -> bool {
    match f {
        StreamFailure::Lex(l) => failure_is(e, lex_failure(l)),
        StreamFailure::Bad(m) => e matches Error::BadObjectStream { stream_num: n, message } && n == stream_num
            && message@ == m,
    }
}

/// The pairs `objnum offset` of the header `s` from `p`, at most `count`
/// of them, offsets made absolute by adding `first` and checked against
/// the data's length `len`. Reading stops at the first token that is not
/// an integer.
pub open spec fn header_pairs(s: Seq<u8>, p: int, count: nat, first: nat, len: nat, acc: Seq<(u32, usize)>) -> Result<Seq<(u32, usize)>, StreamFailure>
    decreases count,
{
    if count == 0 {
        Ok(acc)
    } else {
        let (t1, e1) = token_at(s, p);
        match t1 {
            Err(f) => Err(StreamFailure::Lex(f)),
            Ok(TokenView::Integer(num)) => {
                let (t2, e2) = token_at(s, e1);
                match t2 {
                    Err(f) => Err(StreamFailure::Lex(f)),
                    Ok(TokenView::Integer(rel)) => if num < 0 || num > u32::MAX {
                        Err(StreamFailure::Bad("object number out of range"@))
                    } else if rel < 0 || first + rel > len {
                        Err(StreamFailure::Bad("offset of object "@ + decimal(num as nat) + " lies beyond the data"@))
                    } else {
                        header_pairs(s, e2, (count - 1) as nat, first, len, acc.push((num as u32, (first + rel) as usize)))
                    },
                    Ok(_) => Err(StreamFailure::Bad("object number without offset in the header"@)),
                }
            },
            Ok(_) => Ok(acc),
        }
    }
}

fn bad_stream(stream_num: u32, message: &str) -> (e: Error)
    ensures
        e matches Error::BadObjectStream { stream_num: n, message: m } && n == stream_num && m@ == message@,
{
    Error::BadObjectStream { stream_num, message: string_of(message) }
}

impl ObjectStream {
    /// Read the header of decoded object-stream data: `count` pairs
    /// `objnum offset`, offsets relative to `first` (see
    /// [`header_pairs`]).
    pub fn from_decoded(stream_num: u32, decoded: Vec<u8>, count: usize, first: usize) -> (r: Result<ObjectStream, Error>)
        ensures
            first > decoded@.len() ==> (r matches Err(e) && stream_failure_is(e, stream_num, StreamFailure::Bad("/First lies beyond the decoded data"@))),
            first <= decoded@.len() ==> match header_pairs(decoded@.take(first as int), 0, count as nat, first as nat, decoded@.len(), Seq::empty()) {
                Ok(pairs) => r matches Ok(os) && os.data@ == decoded@ && os.objects@ == pairs,
                Err(f) => r matches Err(e) && stream_failure_is(e, stream_num, f),
            },
    {
        if first > decoded.len() {
            return Err(bad_stream(stream_num, "/First lies beyond the decoded data"));
        }
        let ghost s = decoded@.take(first as int);
        let ghost len = decoded@.len();
        let mut objects: Vec<(u32, usize)> = Vec::new();
        {
            let header = vstd::slice::slice_subrange(decoded.as_slice(), 0, first);
            assert(header@ =~= s);
            let mut lexer = Lexer::new(header);
            let mut i: usize = 0;
            while i < count
                invariant_except_break
                    header_pairs(s, 0, count as nat, first as nat, len, Seq::empty())
                        == header_pairs(s, lexer.position(), (count - i) as nat, first as nat, len, objects@),
                invariant
                    i <= count,
                    s == decoded@.take(first as int),
                    lexer.bytes() == s,
                    0 <= lexer.position() <= s.len(),
                    first <= len,
                    len == decoded@.len(),
                ensures
                    header_pairs(s, 0, count as nat, first as nat, len, Seq::empty()) == Ok::<Seq<(u32, usize)>, StreamFailure>(objects@),
                decreases count - i,
            {
                let ghost p = lexer.position();
                let ghost c = (count - i) as nat;
                let ghost whole = header_pairs(s, p, c, first as nat, len, objects@);
                proof { crate::lexer::lemma_token_at_bounds(s, p); }
                let num = match lexer.next_token() {
                    Err(e) => {
                        assert(whole == Err::<Seq<(u32, usize)>, StreamFailure>(StreamFailure::Lex(token_at(s, p).0->Err_0)));
                        return Err(e);
                    },
                    Ok(Token::Integer(n)) => n,
                    Ok(_) => {
                        assert(whole == Ok::<Seq<(u32, usize)>, StreamFailure>(objects@));
                        break;
                    },
                };
                let ghost p1 = lexer.position();
                proof { crate::lexer::lemma_token_at_bounds(s, p1); }
                let rel = match lexer.next_token() {
                    Err(e) => {
                        assert(whole == Err::<Seq<(u32, usize)>, StreamFailure>(StreamFailure::Lex(token_at(s, p1).0->Err_0)));
                        return Err(e);
                    },
                    Ok(Token::Integer(x)) => x,
                    Ok(_) => {
                        assert(whole == Err::<Seq<(u32, usize)>, StreamFailure>(StreamFailure::Bad("object number without offset in the header"@)));
                        return Err(bad_stream(stream_num, "object number without offset in the header"));
                    },
                };
                if num < 0 || num > u32::MAX as i64 {
                    return Err(bad_stream(stream_num, "object number out of range"));
                }
                if rel < 0 || rel as u64 > (decoded.len() - first) as u64 {
                    let mut m = string_of("offset of object ");
                    push_decimal(&mut m, num as u64);
                    crate::text::push_str(&mut m, " lies beyond the data");
                    return Err(Error::BadObjectStream { stream_num, message: m });
                }
                objects.push((num as u32, first + rel as usize));
                i = i + 1;
            }
            assert(header_pairs(s, lexer.position(), 0, first as nat, len, objects@) == Ok::<Seq<(u32, usize)>, StreamFailure>(objects@));
        }
        Ok(ObjectStream { data: decoded, objects })
    }
}

// ---------------------------------------------------------------------------
// Reading objects
// ---------------------------------------------------------------------------

/// Why an object could not be read.
pub enum GetFailure {
    /// The parser's failure.
    Parse(ParseFailure),
    /// [`Error::BadXref`] at this offset with this message.
    Xref(usize, Seq<char>),
    /// [`Error::Syntax`] at this offset with this message.
    Found(usize, Seq<char>),
    /// The failure of this object stream.
    Stream(u32, StreamFailure),
    /// Decoding the object stream failed.
    Decode(DecodeFailure),
    /// Following a reference failed (that object's error is passed on).
    Unresolved,
}

/// `e` is the error reported for `f` under `limits`.
pub open spec fn get_failure_is(e: Error, f: GetFailure, limits: DecodeLimits) -> bool {
    match f {
        GetFailure::Parse(p) => failure_is(e, p),
        GetFailure::Xref(o, m) => e matches Error::BadXref { offset, message } && offset == o && message@ == m,
        GetFailure::Found(o, m) => e matches Error::Syntax { offset, message } && offset == o && message@ == m,
        GetFailure::Stream(n, sf) => stream_failure_is(e, n, sf),
        GetFailure::Decode(d) => decode_failure_is(e, d, limits),
        GetFailure::Unresolved => true,
    }
}

/// `num gen`.
pub open spec fn ref_text(r: ObjRef) -> Seq<char> {
    decimal(r.num as nat) + " "@ + decimal(r.gen as nat)
}

/// What a parse failure says, as the error's text.
pub open spec fn failure_text(f: ParseFailure) -> Seq<char> {
    match f {
        ParseFailure::Eof => "unexpected end of input"@,
        ParseFailure::TooDeep => "object nesting too deep"@,
        ParseFailure::Syntax(o, m) => "syntax error at byte "@ + decimal(o as nat) + ": "@ + m,
    }
}

/// The indirect object stored at `offset`, which must be `r`, deciphered
/// when the file is encrypted.
pub open spec fn object_at_offset(input: Seq<u8>, crypt: Option<Crypt>, offset: usize, r: ObjRef) -> Result<ObjectView, GetFailure> {
    if offset >= input.len() {
        Err(GetFailure::Xref(offset, "object "@ + ref_text(r) + " lies beyond end of file"@))
    } else {
        match indirect_at(input, offset as int).0 {
            Err(f) => Err(GetFailure::Parse(f)),
            Ok((found, v)) => if found != r {
                Err(GetFailure::Found(offset, "xref points to object "@ + ref_text(r) + ", found "@ + ref_text(found)))
            } else {
                Ok(
                    match crypt {
                        Some(c) => c.decrypted(r, v),
                        None => v,
                    },
                )
            },
        }
    }
}

/// The first offset listed for object `num`.
pub open spec fn first_offset(objects: Seq<(u32, usize)>, num: u32) -> Option<usize>
    decreases objects.len(),
{
    if objects.len() == 0 {
        None
    } else if objects[0].0 == num {
        Some(objects[0].1)
    } else {
        first_offset(objects.drop_first(), num)
    }
}

/// Where object `num` stands in a decoded object stream: at `index` when
/// the header says so there, else at the first offset listed for it (an
/// index that does not match is a writer's slip; the number list is
/// authoritative).
pub open spec fn compressed_offset(objects: Seq<(u32, usize)>, num: u32, index: u32) -> Option<usize> {
    if index < objects.len() && objects[index as int].0 == num {
        Some(objects[index as int].1)
    } else {
        first_offset(objects, num)
    }
}

/// Object `num` of decoded object-stream data.
pub open spec fn object_in_stream(data: Seq<u8>, objects: Seq<(u32, usize)>, stream_num: u32, num: u32, index: u32) -> Result<ObjectView, GetFailure> {
    match compressed_offset(objects, num, index) {
        None => Err(GetFailure::Stream(stream_num, StreamFailure::Bad("does not hold object "@ + decimal(num as nat)))),
        Some(offset) => match object_at(data, if offset <= data.len() { offset as int } else { data.len() as int }, 0).0 {
            Err(f) => Err(
                GetFailure::Stream(
                    stream_num,
                    StreamFailure::Bad("object "@ + decimal(num as nat) + " at offset "@ + decimal(offset as nat) + ": "@ + failure_text(f)),
                ),
            ),
            Ok(v) => if v is Stream {
                Err(
                    GetFailure::Stream(
                        stream_num,
                        StreamFailure::Bad("object "@ + decimal(num as nat) + " is a stream; streams cannot be inside an object stream"@),
                    ),
                )
            } else {
                Ok(v)
            },
        },
    }
}

/// Append `num gen`.
fn push_ref(m: &mut String, r: ObjRef)
    ensures
        final(m)@ == old(m)@ + ref_text(r),
{
    push_decimal(m, r.num as u64);
    push_str(m, " ");
    push_decimal(m, r.gen as u64);
    assert(final(m)@ =~= old(m)@ + ref_text(r));
}

fn beyond_message(r: ObjRef) -> (m: String)
    ensures
        m@ == "object "@ + ref_text(r) + " lies beyond end of file"@,
{
    let mut m = string_of("object ");
    push_ref(&mut m, r);
    push_str(&mut m, " lies beyond end of file");
    m
}

fn found_message(r: ObjRef, found: ObjRef) -> (m: String)
    ensures
        m@ == "xref points to object "@ + ref_text(r) + ", found "@ + ref_text(found),
{
    let mut m = string_of("xref points to object ");
    push_ref(&mut m, r);
    push_str(&mut m, ", found ");
    push_ref(&mut m, found);
    m
}

/// A PDF file opened through its cross-reference table. Objects are
/// parsed on demand from the borrowed input.
pub struct Document<'a> {
    input: &'a [u8],
    version: PdfVersion,
    xref: Xref,
    limits: DecodeLimits,
    reconstructed: Option<Error>,
    relocated_startxref: Option<usize>,
    crypt: Option<Crypt>,
}

/// The objects of a document stored at a byte offset, for reading an
/// object stream: its dictionary cannot depend on another object stream
/// (7.5.7: object streams cannot be nested), so a reference into one gives
/// `null`.
pub struct TopLevel<'d, 'a> {
    /// The document.
    pub doc: &'d Document<'a>,
}

impl<'a> Document<'a> {
    /// The bytes of the file.
    pub closed spec fn input_seq(&self) -> Seq<u8> {
        self.input@
    }

    /// The cross-reference table in use.
    pub closed spec fn table(&self) -> XrefView {
        self.xref@
    }

    /// The security handler, when the file is encrypted.
    pub closed spec fn crypt_of(&self) -> Option<Crypt> {
        self.crypt
    }

    /// The decoding limits.
    pub closed spec fn limits_of(&self) -> DecodeLimits {
        self.limits
    }

    /// The header version.
    pub closed spec fn version_of(&self) -> PdfVersion {
        self.version
    }

    /// Why the table was rebuilt, if it was.
    pub closed spec fn reconstructed_of(&self) -> Option<Error> {
        self.reconstructed
    }

    /// Where the newest section was found when `startxref` was off.
    pub closed spec fn relocated_of(&self) -> Option<usize> {
        self.relocated_startxref
    }

    /// The table's entry for `num`.
    pub open spec fn entry(&self, num: u32) -> Option<XrefEntry> {
        if self.table().entries.contains_key(num) {
            Some(self.table().entries[num])
        } else {
            None
        }
    }

    /// The object stored at `offset`, which must be `r` (see
    /// [`object_at_offset`]).
    pub open spec fn at_offset(&self, offset: usize, r: ObjRef) -> Result<ObjectView, GetFailure> {
        object_at_offset(self.input_seq(), self.crypt_of(), offset, r)
    }

    /// `o` followed one level among the objects stored at an offset;
    /// anything else, a missing object or one in an object stream, is
    /// `null`. `None` when reading the object fails.
    pub open spec fn top_level(&self, o: ObjectView) -> Option<ObjectView> {
        match o {
            ObjectView::Reference(r) => match self.entry(r.num) {
                Some(XrefEntry::InUse { offset, gen }) => if gen == r.gen {
                    match self.at_offset(offset, r) {
                        Ok(v) => Some(v),
                        Err(_) => None,
                    }
                } else {
                    Some(ObjectView::Null)
                },
                _ => Some(ObjectView::Null),
            },
            _ => Some(o),
        }
    }

    /// A non-negative integer entry of an object stream's dictionary.
    pub open spec fn stream_int(&self, d: Seq<(Seq<u8>, ObjectView)>, key: &str, stream_num: u32) -> Result<Option<nat>, GetFailure> {
        match dict_get(d, key.spec_bytes()) {
            None => Ok(None),
            Some(o) => match self.top_level(o) {
                None => Err(GetFailure::Unresolved),
                Some(ObjectView::Integer(v)) => if v >= 0 && v <= usize::MAX {
                    Ok(Some(v as nat))
                } else {
                    Err(GetFailure::Stream(stream_num, StreamFailure::Bad("/"@ + key@ + " is not a non-negative integer"@)))
                },
                Some(_) => Err(GetFailure::Stream(stream_num, StreamFailure::Bad("/"@ + key@ + " is not a non-negative integer"@))),
            },
        }
    }

    /// Object stream `stream_num` read and decoded: its data and header
    /// (7.5.7). It must be stored at an offset, with generation 0.
    pub open spec fn object_stream_of(&self, stream_num: u32) -> Result<(Seq<u8>, Seq<(u32, usize)>), GetFailure> {
        let bad = |m: Seq<char>| GetFailure::Stream(stream_num, StreamFailure::Bad(m));
        match self.entry(stream_num) {
            Some(XrefEntry::InUse { offset, gen }) => if gen != 0 {
                Err(bad("not listed in the cross-reference table"@))
            } else {
                match self.at_offset(offset, ObjRef { num: stream_num, gen: 0 }) {
                    Err(f) => Err(f),
                    Ok(ObjectView::Stream(d, data)) => match self.stream_int(d, "N", stream_num) {
                        Err(f) => Err(f),
                        Ok(None) => Err(bad("no /N"@)),
                        Ok(Some(count)) => match self.stream_int(d, "First", stream_num) {
                            Err(f) => Err(f),
                            Ok(None) => Err(bad("no /First"@)),
                            Ok(Some(first)) => match spec_decode_stream(d, data, &TopLevel { doc: self }, self.limits_of()) {
                                Err(f) => Err(GetFailure::Decode(f)),
                                Ok(decoded) => if first > decoded.len() {
                                    Err(bad("/First lies beyond the decoded data"@))
                                } else {
                                    match header_pairs(decoded.take(first as int), 0, count, first, decoded.len(), Seq::empty()) {
                                        Err(f) => Err(GetFailure::Stream(stream_num, f)),
                                        Ok(pairs) => Ok((decoded, pairs)),
                                    }
                                },
                            },
                        },
                    },
                    Ok(_) => Err(bad("not a stream"@)),
                }
            },
            Some(XrefEntry::InStream { .. }) => Err(bad("lies inside another object stream; object streams cannot be nested"@)),
            _ => Err(bad("not listed in the cross-reference table"@)),
        }
    }

    /// Object `num`, compressed in object stream `stream_num` at `index`.
    pub open spec fn compressed(&self, num: u32, stream_num: u32, index: u32) -> Result<ObjectView, GetFailure> {
        match self.object_stream_of(stream_num) {
            Err(f) => Err(f),
            Ok((data, objects)) => object_in_stream(data, objects, stream_num, num, index),
        }
    }

    /// Object `r` where the table says it is: at a byte offset, or inside
    /// an object stream (compressed objects have generation 0, 7.5.8.3).
    /// `None` when the table does not list `r` as stored with that
    /// generation: such a reference denotes the null object (7.3.10).
    #[verifier::opaque]
    pub open spec fn object_of(&self, r: ObjRef) -> Result<Option<ObjectView>, GetFailure> {
        match self.entry(r.num) {
            Some(XrefEntry::InUse { offset, gen }) => if gen == r.gen {
                match self.at_offset(offset, r) {
                    Ok(v) => Ok(Some(v)),
                    Err(f) => Err(f),
                }
            } else {
                Ok(None)
            },
            Some(XrefEntry::InStream { stream_num, index }) => if r.gen == 0 {
                match self.compressed(r.num, stream_num, index) {
                    Ok(v) => Ok(Some(v)),
                    Err(f) => Err(f),
                }
            } else {
                Ok(None)
            },
            _ => Ok(None),
        }
    }

    /// `o` followed one level: a reference to a missing object gives
    /// `null`; anything else is itself. `None` when reading fails.
    pub open spec fn followed(&self, o: ObjectView) -> Option<ObjectView> {
        match o {
            ObjectView::Reference(r) => match self.object_of(r) {
                Ok(Some(v)) => Some(v),
                Ok(None) => Some(ObjectView::Null),
                Err(_) => None,
            },
            _ => Some(o),
        }
    }

    /// Parse the indirect object at `offset`, check it is `r`, and
    /// decipher it when the file is encrypted.
    fn parse_at(&self, offset: usize, r: ObjRef) -> (res: Result<Object, Error>)
        ensures
            match self.at_offset(offset, r) {
                Ok(v) => res matches Ok(o) && o@ == v,
                Err(f) => res matches Err(e) && get_failure_is(e, f, self.limits_of()),
            },
    {
        if offset >= self.input.len() {
            return Err(Error::BadXref { offset, message: beyond_message(r) });
        }
        let mut parser = Parser::at(self.input, offset);
        let (found, obj) = match parser.parse_indirect() {
            Err(e) => return Err(e),
            Ok(x) => x,
        };
        if found.num != r.num || found.gen != r.gen {
            return Err(Error::Syntax { offset, message: found_message(r, found) });
        }
        match &self.crypt {
            Some(crypt) => Ok(crypt.decrypt_object(r, obj)),
            None => Ok(obj),
        }
    }
}

/// A structure error with this message.
pub open spec fn structure_is(e: Error, m: Seq<char>) -> bool {
    e matches Error::BadStructure { message } && message@ == m
}

fn structure(message: &str) -> (e: Error)
    ensures
        structure_is(e, message@),
{
    Error::BadStructure { message: string_of(message) }
}

impl<'a> Document<'a> {
    /// A non-negative integer entry of an object stream's dictionary (see
    /// [`Document::stream_int`]).
    fn stream_int_of(&self, dict: &Dict, key: &str, stream_num: u32) -> (r: Result<Option<usize>, Error>)
        ensures
            match self.stream_int(dict@, key, stream_num) {
                Ok(Some(v)) => r == Ok::<Option<usize>, Error>(Some(v as usize)),
                Ok(None) => r == Ok::<Option<usize>, Error>(None),
                Err(f) => r matches Err(e) && get_failure_is(e, f, self.limits_of()),
            },
    {
        let top = TopLevel { doc: self };
        match dict.get(&Name::new(key)) {
            None => Ok(None),
            Some(o) => match top.resolve(o) {
                Err(e) => Err(e),
                Ok(Object::Integer(v)) => {
                    if v >= 0 && v as u64 <= usize::MAX as u64 {
                        Ok(Some(v as usize))
                    } else {
                        Err(not_count(stream_num, key))
                    }
                },
                Ok(_) => Err(not_count(stream_num, key)),
            },
        }
    }

    /// Read and decode object stream `stream_num` (see
    /// [`Document::object_stream_of`]).
    fn load_object_stream(&self, stream_num: u32) -> (r: Result<ObjectStream, Error>)
        ensures
            match self.object_stream_of(stream_num) {
                Ok((data, objects)) => r matches Ok(os) && os.data@ == data && os.objects@ == objects,
                Err(f) => r matches Err(e) && get_failure_is(e, f, self.limits_of()),
            },
    {
        let r = ObjRef { num: stream_num, gen: 0 };
        let (dict, data) = match self.xref.get(stream_num) {
            Some(XrefEntry::InUse { offset, gen }) => {
                if gen != 0 {
                    return Err(bad_stream(stream_num, "not listed in the cross-reference table"));
                }
                match self.parse_at(offset, r) {
                    Err(e) => return Err(e),
                    Ok(Object::Stream { dict, data }) => (dict, data),
                    Ok(_) => return Err(bad_stream(stream_num, "not a stream")),
                }
            },
            Some(XrefEntry::InStream { .. }) => {
                return Err(bad_stream(stream_num, "lies inside another object stream; object streams cannot be nested"));
            },
            _ => return Err(bad_stream(stream_num, "not listed in the cross-reference table")),
        };
        let count = match self.stream_int_of(&dict, "N", stream_num) {
            Err(e) => return Err(e),
            Ok(None) => return Err(bad_stream(stream_num, "no /N")),
            Ok(Some(c)) => c,
        };
        let first = match self.stream_int_of(&dict, "First", stream_num) {
            Err(e) => return Err(e),
            Ok(None) => return Err(bad_stream(stream_num, "no /First")),
            Ok(Some(f)) => f,
        };
        let top = TopLevel { doc: self };
        let decoded = match decode_stream_with(&dict, data.as_slice(), &top, self.limits) {
            Err(e) => return Err(e),
            Ok(d) => d,
        };
        ObjectStream::from_decoded(stream_num, decoded, count, first)
    }

    /// Object `num`, the `index`-th object of object stream `stream_num`
    /// (see [`Document::compressed`]).
    fn get_compressed(&self, num: u32, stream_num: u32, index: u32) -> (r: Result<Object, Error>)
        ensures
            match self.compressed(num, stream_num, index) {
                Ok(v) => r matches Ok(o) && o@ == v,
                Err(f) => r matches Err(e) && get_failure_is(e, f, self.limits_of()),
            },
    {
        let stream = match self.load_object_stream(stream_num) {
            Err(e) => return Err(e),
            Ok(s) => s,
        };
        let offset = match stream_offset(&stream.objects, num, index) {
            Some(o) => o,
            None => {
                let mut m = string_of("does not hold object ");
                push_decimal(&mut m, num as u64);
                return Err(Error::BadObjectStream { stream_num, message: m });
            },
        };
        let mut parser = Parser::at(stream.data.as_slice(), offset);
        let obj = match parser.parse_object() {
            Err(e) => {
                let text = e.message();
                let mut m = string_of("object ");
                push_decimal(&mut m, num as u64);
                push_str(&mut m, " at offset ");
                push_decimal(&mut m, offset as u64);
                push_str(&mut m, ": ");
                push_str(&mut m, text.as_str());
                return Err(Error::BadObjectStream { stream_num, message: m });
            },
            Ok(o) => o,
        };
        match obj {
            Object::Stream { .. } => {
                let mut m = string_of("object ");
                push_decimal(&mut m, num as u64);
                push_str(&mut m, " is a stream; streams cannot be inside an object stream");
                Err(Error::BadObjectStream { stream_num, message: m })
            },
            other => Ok(other),
        }
    }

    /// Read object `r` where the table says it is: at a byte offset, or
    /// inside an object stream (see [`Document::object_of`]). `Ok(None)`
    /// when the table does not list `r` as stored with that generation:
    /// such a reference denotes the null object (7.3.10). If the object
    /// found at the offset is not `r`, the table is wrong and this is an
    /// [`Error::Syntax`].
    pub fn get(&self, r: ObjRef) -> (res: Result<Option<Object>, Error>)
        ensures
            match self.object_of(r) {
                Ok(Some(v)) => res matches Ok(Some(o)) && o@ == v,
                Ok(None) => res matches Ok(None),
                Err(f) => res matches Err(e) && get_failure_is(e, f, self.limits_of()),
            },
    {
        reveal(Document::object_of);
        match self.xref.get(r.num) {
            Some(XrefEntry::InUse { offset, gen }) => {
                if gen == r.gen {
                    match self.parse_at(offset, r) {
                        Ok(o) => Ok(Some(o)),
                        Err(e) => Err(e),
                    }
                } else {
                    Ok(None)
                }
            },
            Some(XrefEntry::InStream { stream_num, index }) => {
                if r.gen == 0 {
                    match self.get_compressed(r.num, stream_num, index) {
                        Ok(o) => Ok(Some(o)),
                        Err(e) => Err(e),
                    }
                } else {
                    Ok(None)
                }
            },
            _ => Ok(None),
        }
    }
}

fn not_count(stream_num: u32, key: &str) -> (e: Error)
    ensures
        stream_failure_is(e, stream_num, StreamFailure::Bad("/"@ + key@ + " is not a non-negative integer"@)),
{
    let mut m = string_of("/");
    push_str(&mut m, key);
    push_str(&mut m, " is not a non-negative integer");
    Error::BadObjectStream { stream_num, message: m }
}

/// The offset of [`compressed_offset`].
fn stream_offset(objects: &Vec<(u32, usize)>, num: u32, index: u32) -> (r: Option<usize>)
    ensures
        r == compressed_offset(objects@, num, index),
{
    if (index as usize) < objects.len() && objects[index as usize].0 == num {
        return Some(objects[index as usize].1);
    }
    let mut k: usize = 0;
    assert(objects@.skip(0) =~= objects@);
    while k < objects.len()
        invariant
            k <= objects@.len(),
            compressed_offset(objects@, num, index) == first_offset(objects@, num),
            first_offset(objects@, num) == first_offset(objects@.skip(k as int), num),
        decreases objects@.len() - k,
    {
        assert(objects@.skip(k as int).drop_first() =~= objects@.skip(k + 1));
        assert(objects@.skip(k as int)[0] == objects@[k as int]);
        if objects[k].0 == num {
            return Some(objects[k].1);
        }
        k = k + 1;
    }
    None
}

impl<'d, 'a> Resolve for TopLevel<'d, 'a> {
    open spec fn resolved(&self, o: ObjectView) -> Option<ObjectView> {
        self.doc.top_level(o)
    }

    fn resolve(&self, o: &Object) -> (r: Result<Object, Error>) {
        match o {
            Object::Reference(x) => match self.doc.xref.get(x.num) {
                Some(XrefEntry::InUse { offset, gen }) => {
                    if gen == x.gen {
                        self.doc.parse_at(offset, *x)
                    } else {
                        Ok(Object::Null)
                    }
                },
                _ => Ok(Object::Null),
            },
            other => Ok(copy_object(other)),
        }
    }
}

impl<'a> Resolve for Document<'a> {
    open spec fn resolved(&self, o: ObjectView) -> Option<ObjectView> {
        self.followed(o)
    }

    /// Follow `o` one level if it is a reference; a reference to a missing
    /// object gives `null`. Any other object is returned unchanged.
    fn resolve(&self, o: &Object) -> (r: Result<Object, Error>) {
        match o {
            Object::Reference(x) => match self.get(*x) {
                Ok(Some(v)) => Ok(v),
                Ok(None) => Ok(Object::Null),
                Err(e) => Err(e),
            },
            other => Ok(copy_object(other)),
        }
    }
}

/// The document catalog: the trailer's `/Root` followed, a dictionary.
pub open spec fn catalog_of(doc: &Document, trailer: Seq<(Seq<u8>, ObjectView)>) -> Result<Seq<(Seq<u8>, ObjectView)>, Option<Seq<char>>> {
    match dict_get(trailer, "Root".spec_bytes()) {
        None => Err(Some("trailer has no /Root"@)),
        Some(o) => match doc.followed(o) {
            None => Err(None),
            Some(ObjectView::Dict(d)) => Ok(d),
            Some(_) => Err(Some("/Root"@ + " is not a dictionary"@)),
        },
    }
}

/// `e` is the error for `f`: a structure error with that message, or the
/// error of an object that could not be read.
pub open spec fn structure_failure_is(e: Error, f: Option<Seq<char>>) -> bool {
    match f {
        Some(m) => structure_is(e, m),
        None => true,
    }
}

impl<'a> Document<'a> {
    /// The page count: `/Count` of the root of the page tree (7.7.3.2).
    pub open spec fn page_count_of(&self) -> Result<usize, Option<Seq<char>>> {
        match catalog_of(self, self.table().trailer) {
            Err(f) => Err(f),
            Ok(c) => match dict_get(c, "Pages".spec_bytes()) {
                None => Err(Some("catalog has no /Pages"@)),
                Some(p) => match self.followed(p) {
                    None => Err(None),
                    Some(ObjectView::Dict(pages)) => match dict_get(pages, "Count".spec_bytes()) {
                        None => Err(Some("page tree root has no /Count"@)),
                        Some(n) => match self.followed(n) {
                            None => Err(None),
                            Some(ObjectView::Integer(v)) => if v >= 0 && v <= usize::MAX {
                                Ok(v as usize)
                            } else {
                                Err(Some("page tree /Count is not a non-negative integer"@))
                            },
                            Some(_) => Err(Some("page tree /Count is not a non-negative integer"@)),
                        },
                    },
                    Some(_) => Err(Some("/Pages"@ + " is not a dictionary"@)),
                },
            },
        }
    }

    /// Trailer of the newest cross-reference section (7.5.5).
    pub fn trailer(&self) -> (d: &Dict)
        ensures
            d@ == self.table().trailer,
    {
        self.xref.trailer()
    }

    /// Cross-reference table merged across incremental updates.
    pub fn xref(&self) -> (x: &Xref)
        ensures
            x@ == self.table(),
    {
        &self.xref
    }

    /// Version declared in the header.
    pub fn version(&self) -> (v: PdfVersion)
        ensures
            v == self.version_of(),
    {
        self.version
    }

    /// Limits applied when decoding streams for this document.
    pub fn limits(&self) -> (l: DecodeLimits)
        ensures
            l == self.limits_of(),
    {
        self.limits
    }

    /// Why the cross-reference table was rebuilt by scanning the file, or
    /// `None` when the declared table was used as found. A repaired file
    /// must never pass for a sound one.
    pub fn reconstructed(&self) -> (r: Option<&Error>)
        ensures
            r == match self.reconstructed_of() {
                Some(e) => Some(&e),
                None => None::<&Error>,
            },
    {
        match &self.reconstructed {
            Some(e) => Some(e),
            None => None,
        }
    }

    /// Offset of the section actually read when `startxref` pointed at
    /// something else and the section was found nearby; `None` when
    /// `startxref` was right, or when the file was scanned.
    pub fn relocated_startxref(&self) -> (r: Option<usize>)
        ensures
            r == self.relocated_of(),
    {
        self.relocated_startxref
    }

    /// How the file is encrypted, or `None` for a file stored in the clear.
    /// When `Some`, every object [`Document::get`] returns has already been
    /// deciphered.
    pub fn encryption(&self) -> (r: Option<crate::encryption::Encryption>)
        ensures
            r is Some <==> self.crypt_of() is Some,
            r matches Some(e) ==> e.owner == self.crypt_of()->Some_0.decryptor.owner_of()
                && e.revision == self.crypt_of()->Some_0.decryptor.revision_of()
                && e.streams == self.crypt_of()->Some_0.decryptor.streams_of()
                && e.strings == self.crypt_of()->Some_0.decryptor.strings_of()
                && e.encrypt_metadata == self.crypt_of()->Some_0.decryptor.metadata_of(),
    {
        match &self.crypt {
            Some(c) => Some(c.info()),
            None => None,
        }
    }

    /// Follow `obj` one level (see [`Document::followed`]).
    pub fn resolve(&self, obj: &Object) -> (r: Result<Object, Error>)
        ensures
            match self.followed(obj@) {
                Some(v) => r matches Ok(x) && x@ == v,
                None => r is Err,
            },
    {
        Resolve::resolve(self, obj)
    }

    /// Decoded data of a stream object: its `/Filter` chain applied under
    /// the document's limits, indirect `/Filter` and `/DecodeParms` values
    /// followed. Anything but a stream is [`Error::BadStructure`].
    pub fn decoded(&self, obj: &Object) -> (r: Result<Vec<u8>, Error>)
        ensures
            match obj@ {
                ObjectView::Stream(d, data) => crate::decode::decoded_result(
                    r,
                    spec_decode_stream(d, data, self, self.limits_of()),
                    self.limits_of(),
                ),
                _ => r matches Err(e) && structure_is(e, "not a stream"@),
            },
    {
        match obj {
            Object::Stream { dict, data } => decode_stream_with(dict, data.as_slice(), self, self.limits),
            _ => Err(structure("not a stream")),
        }
    }

    /// `obj` followed, a dictionary, or a structure error naming `what`.
    fn resolve_dict(&self, obj: &Object, what: &str) -> (r: Result<Dict, Error>)
        ensures
            match self.followed(obj@) {
                None => r is Err,
                Some(ObjectView::Dict(d)) => r matches Ok(x) && x@ == d,
                Some(_) => r matches Err(e) && structure_is(e, what@ + " is not a dictionary"@),
            },
    {
        match self.resolve(obj) {
            Err(e) => Err(e),
            Ok(Object::Dict(d)) => Ok(d),
            Ok(_) => {
                let mut m = string_of(what);
                push_str(&mut m, " is not a dictionary");
                Err(Error::BadStructure { message: m })
            },
        }
    }

    /// Document catalog, the trailer's `/Root` (7.7.2).
    pub fn catalog(&self) -> (r: Result<Dict, Error>)
        ensures
            match catalog_of(self, self.table().trailer) {
                Ok(d) => r matches Ok(x) && x@ == d,
                Err(f) => r matches Err(e) && structure_failure_is(e, f),
            },
    {
        let root = match self.trailer().get(&Name::new("Root")) {
            None => return Err(structure("trailer has no /Root")),
            Some(o) => o,
        };
        self.resolve_dict(root, "/Root")
    }

    /// Number of pages: `/Count` of the root of the page tree (7.7.3.2).
    pub fn page_count(&self) -> (r: Result<usize, Error>)
        ensures
            match self.page_count_of() {
                Ok(n) => r == Ok::<usize, Error>(n),
                Err(f) => r matches Err(e) && structure_failure_is(e, f),
            },
    {
        let catalog = match self.catalog() {
            Err(e) => return Err(e),
            Ok(c) => c,
        };
        let pages = match catalog.get(&Name::new("Pages")) {
            None => return Err(structure("catalog has no /Pages")),
            Some(p) => p,
        };
        let pages = match self.resolve_dict(pages, "/Pages") {
            Err(e) => return Err(e),
            Ok(d) => d,
        };
        let count = match pages.get(&Name::new("Count")) {
            None => return Err(structure("page tree root has no /Count")),
            Some(c) => c,
        };
        match self.resolve(count) {
            Err(e) => Err(e),
            Ok(Object::Integer(v)) => {
                if v >= 0 && v as u64 <= usize::MAX as u64 {
                    Ok(v as usize)
                } else {
                    Err(structure("page tree /Count is not a non-negative integer"))
                }
            },
            Ok(_) => Err(structure("page tree /Count is not a non-negative integer")),
        }
    }
}

// ---------------------------------------------------------------------------
// Finding and checking the declared table
// ---------------------------------------------------------------------------

/// How far from the declared `startxref` a section is looked for.
pub const RELOCATION_WINDOW: usize = 512;

/// An ASCII letter or digit.
pub open spec fn is_alnum(b: u8) -> bool {
    (48 <= b <= 57) || (65 <= b <= 90) || (97 <= b <= 122)
}

/// An ASCII digit.
pub open spec fn is_digit_byte(b: u8) -> bool {
    48 <= b <= 57
}

/// `xref`.
pub open spec fn xref_word() -> Seq<u8> {
    seq![120u8, 114u8, 101u8, 102u8]
}

/// `/XRef`.
pub open spec fn xref_type_word() -> Seq<u8> {
    seq![47u8, 88u8, 82u8, 101u8, 102u8]
}

/// Whether a cross-reference section starts at `at`: the `xref` keyword
/// as a whole token, or an `n g obj` header (not inside a number) followed
/// within 512 bytes by `/XRef`.
pub open spec fn section_starts(s: Seq<u8>, at: int) -> bool {
    if at < 0 || at > s.len() {
        false
    } else {
        let rest = s.skip(at);
        if rest.len() >= 4 && rest.take(4) == xref_word() {
            (at == 0 || !is_alnum(s[at - 1])) && (rest.len() <= 4 || spec_is_whitespace(rest[4]) || spec_is_delimiter(rest[4]))
        } else if rest.len() > 0 && is_digit_byte(rest[0]) && !(at > 0 && is_digit_byte(s[at - 1])) {
            match header_at(s, at) {
                (Ok(_), end) => {
                    let stop = if end + 512 <= s.len() { end + 512 } else { s.len() as int };
                    spec_find(s.subrange(end, stop), xref_type_word()) is Some
                },
                _ => false,
            }
        } else {
            false
        }
    }
}

fn xref_word_at(input: &[u8], at: usize) -> (b: bool)
    requires
        at <= input@.len(),
    ensures
        b == (input@.skip(at as int).len() >= 4 && input@.skip(at as int).take(4) == xref_word()),
{
    if input.len() - at < 4 {
        return false;
    }
    let b = input[at] == 120 && input[at + 1] == 114 && input[at + 2] == 101 && input[at + 3] == 102;
    assert(b == (input@.skip(at as int).take(4) =~= xref_word()));
    b
}

/// Whether a cross-reference section starts at `at` (see
/// [`section_starts`]).
pub fn section_starts_at(input: &[u8], at: usize) -> (b: bool)
    ensures
        b == section_starts(input@, at as int),
{
    if at > input.len() {
        return false;
    }
    if xref_word_at(input, at) {
        let before_ok = at == 0 || {
            let c = input[at - 1];
            !((48 <= c && c <= 57) || (65 <= c && c <= 90) || (97 <= c && c <= 122))
        };
        let after_ok = input.len() - at <= 4 || is_whitespace(input[at + 4]) || is_delimiter(input[at + 4]);
        return before_ok && after_ok;
    }
    let first_digit = at < input.len() && 48 <= input[at] && input[at] <= 57;
    let digit_before = at > 0 && 48 <= input[at - 1] && input[at - 1] <= 57;
    if first_digit && !digit_before {
        let mut parser = Parser::at(input, at);
        match parser.parse_indirect_header() {
            Ok(_) => {
                let end = parser.pos();
                let stop = if input.len() >= 512 && end <= input.len() - 512 {
                    end + 512
                } else {
                    input.len()
                };
                let window = vstd::slice::slice_subrange(input, end, stop);
                let mut word: Vec<u8> = Vec::new();
                word.push(47);
                word.push(88);
                word.push(82);
                word.push(101);
                word.push(102);
                assert(word@ =~= xref_type_word());
                return find(window, word.as_slice()).is_some();
            },
            Err(_) => return false,
        }
    }
    false
}

/// Distance between two offsets.
pub open spec fn distance(a: int, b: int) -> int {
    if a >= b {
        a - b
    } else {
        b - a
    }
}

/// The offset in `[low, k)` where a section starts nearest to `declared`,
/// the lowest one among equally near.
pub open spec fn nearest_section(s: Seq<u8>, declared: int, low: int, k: int) -> Option<int>
    decreases k - low,
{
    if k <= low {
        None
    } else {
        let prev = nearest_section(s, declared, low, k - 1);
        if section_starts(s, k - 1) && (prev is None || distance(k - 1, declared) < distance(prev->Some_0, declared)) {
            Some(k - 1)
        } else {
            prev
        }
    }
}

/// Where the newest cross-reference section really starts: `declared`
/// when one starts there; else the offset shifted by the header's position
/// (junk before `%PDF` moves everything); else the nearest start within
/// the relocation window; else `declared`.
pub open spec fn located_section(s: Seq<u8>, declared: usize, header_offset: usize) -> usize {
    let shifted = if declared + header_offset <= usize::MAX { (declared + header_offset) as usize } else { usize::MAX };
    let low = if declared >= RELOCATION_WINDOW { declared - RELOCATION_WINDOW } else { 0 };
    let up = if declared + RELOCATION_WINDOW <= usize::MAX { declared + RELOCATION_WINDOW } else { usize::MAX as int };
    let high = if up <= s.len() { up } else { s.len() as int };
    if section_starts(s, declared as int) {
        declared
    } else if header_offset > 0 && section_starts(s, shifted as int) {
        shifted
    } else {
        match nearest_section(s, declared as int, low, high) {
            Some(at) => at as usize,
            None => declared,
        }
    }
}

/// Where the newest cross-reference section really starts (see
/// [`located_section`]). A wrong pick is harmless: the section is checked
/// like any other, and the file is scanned if that fails.
pub fn locate_section(input: &[u8], declared: usize, header_offset: usize) -> (r: usize)
    ensures
        r == located_section(input@, declared, header_offset),
{
    if section_starts_at(input, declared) {
        return declared;
    }
    let shifted = declared.saturating_add(header_offset);
    if header_offset > 0 && section_starts_at(input, shifted) {
        return shifted;
    }
    let low = declared.saturating_sub(RELOCATION_WINDOW);
    let up = declared.saturating_add(RELOCATION_WINDOW);
    let high = if up <= input.len() {
        up
    } else {
        input.len()
    };
    let mut best: Option<usize> = None;
    let mut at = low;
    while at < high
        invariant
            low <= at,
            at <= high || at == low,
            best == match nearest_section(input@, declared as int, low as int, at as int) {
                Some(x) => Some(x as usize),
                None => None::<usize>,
            },
            forall|x: int| #![auto] nearest_section(input@, declared as int, low as int, at as int) == Some(x) ==> low <= x < at,
        decreases high - at,
    {
        if section_starts_at(input, at) {
            let d = if at >= declared { at - declared } else { declared - at };
            let better = match best {
                None => true,
                Some(b) => {
                    let db = if b >= declared { b - declared } else { declared - b };
                    d < db
                },
            };
            if better {
                best = Some(at);
            }
        }
        at = at + 1;
    }
    proof {
        if at != high {
            assert(at == low && high < low);
            assert(nearest_section(input@, declared as int, low as int, high as int) is None);
            assert(nearest_section(input@, declared as int, low as int, at as int) is None);
        }
        assert(low as int == if declared >= RELOCATION_WINDOW { declared - RELOCATION_WINDOW } else { 0 });
    }
    match best {
        Some(b) => b,
        None => declared,
    }
}

/// Why the declared table does not match the file.
pub enum TableFailure {
    /// [`Error::BadXref`] at this offset with this message.
    Xref(usize, Seq<char>),
    /// [`Error::BadStructure`] with this message.
    Structure(Seq<char>),
}

/// `e` is the error reported for `f`.
pub open spec fn table_failure_is(e: Error, f: TableFailure) -> bool {
    match f {
        TableFailure::Xref(o, m) => e matches Error::BadXref { offset, message } && offset == o && message@ == m,
        TableFailure::Structure(m) => structure_is(e, m),
    }
}

/// Where a parser set at `offset` starts reading.
pub open spec fn clamped(s: Seq<u8>, offset: usize) -> int {
    if offset <= s.len() {
        offset as int
    } else {
        s.len() as int
    }
}

/// What is wrong with the entry of `num`, if anything: an object in use
/// must have its `n g obj` header at the announced offset, a compressed
/// object must lie in an object stream stored at an offset.
pub open spec fn entry_failure(s: Seq<u8>, m: Map<u32, XrefEntry>, num: u32, e: XrefEntry) -> Option<TableFailure> {
    match e {
        XrefEntry::Free { .. } => None,
        XrefEntry::InUse { offset, gen } => match header_at(s, clamped(s, offset)).0 {
            Ok(f) => if f == (ObjRef { num, gen }) {
                None
            } else {
                Some(TableFailure::Xref(offset, "object "@ + ref_text(ObjRef { num, gen }) + " announced here, found "@ + ref_text(f)))
            },
            Err(_) => Some(TableFailure::Xref(offset, "object "@ + ref_text(ObjRef { num, gen }) + " announced here, none found"@)),
        },
        XrefEntry::InStream { stream_num, .. } => if m.contains_key(stream_num) && m[stream_num] is InUse {
            None
        } else {
            Some(
                TableFailure::Xref(
                    0,
                    "object "@ + decimal(num as nat) + " lies in object stream "@ + decimal(stream_num as nat)
                        + ", which is not stored in the file"@,
                ),
            )
        },
    }
}

/// What is wrong with the trailer's `/Root`, if anything: it must be a
/// dictionary, or a reference to a readable dictionary stored at an
/// offset, or to a compressed object.
pub open spec fn root_failure(s: Seq<u8>, m: Map<u32, XrefEntry>, trailer: Seq<(Seq<u8>, ObjectView)>) -> Option<TableFailure> {
    match dict_get(trailer, "Root".spec_bytes()) {
        None => Some(TableFailure::Structure("trailer has no /Root"@)),
        Some(ObjectView::Dict(_)) => None,
        Some(ObjectView::Reference(r)) => {
            let listed = m.contains_key(r.num);
            if listed && m[r.num] is InUse && m[r.num]->InUse_gen == r.gen {
                let offset = m[r.num]->InUse_offset;
                if indirect_at(s, clamped(s, offset)).0 matches Ok((_, ObjectView::Dict(_))) {
                    None
                } else {
                    Some(TableFailure::Xref(offset, "/Root "@ + ref_text(r) + " announced here is not a readable dictionary"@))
                }
            } else if listed && m[r.num] is InStream && r.gen == 0 {
                None
            } else {
                Some(TableFailure::Xref(0, "/Root "@ + ref_text(r) + " is not listed in the table"@))
            }
        },
        Some(_) => Some(TableFailure::Structure("/Root is neither a reference nor a dictionary"@)),
    }
}

/// `e` is the error of the failure `x` (there is one).
pub open spec fn fails_as(e: Error, x: Option<TableFailure>) -> bool {
    match x {
        Some(f) => table_failure_is(e, f),
        None => false,
    }
}

fn announced_message(num: u32, gen: u16, found: Option<ObjRef>) -> (m: String)
    ensures
        m@ == match found {
            Some(f) => "object "@ + ref_text(ObjRef { num, gen }) + " announced here, found "@ + ref_text(f),
            None => "object "@ + ref_text(ObjRef { num, gen }) + " announced here, none found"@,
        },
{
    let mut m = string_of("object ");
    push_ref(&mut m, ObjRef { num, gen });
    match found {
        Some(f) => {
            push_str(&mut m, " announced here, found ");
            push_ref(&mut m, f);
        },
        None => push_str(&mut m, " announced here, none found"),
    }
    m
}

/// Check that the declared table matches the file: every entry (see
/// [`entry_failure`], in increasing object numbers, the first failure
/// reported), then `/Root` (see [`root_failure`]). Any failure means the
/// table is wrong and the file must be scanned.
pub fn verify(input: &[u8], xref: &Xref) -> (r: Result<(), Error>)
    ensures
        match r {
            Ok(()) => (forall|n: u32| #[trigger] xref@.entries.contains_key(n) ==> entry_failure(input@, xref@.entries, n, xref@.entries[n]) is None)
                && root_failure(input@, xref@.entries, xref@.trailer) is None,
            Err(e) => (exists|n: u32| #[trigger] xref@.entries.contains_key(n)
                && fails_as(e, entry_failure(input@, xref@.entries, n, xref@.entries[n]))
                && forall|k: u32| #[trigger] xref@.entries.contains_key(k) && k < n ==> entry_failure(input@, xref@.entries, k, xref@.entries[k]) is None)
                || ((forall|n: u32| #[trigger] xref@.entries.contains_key(n) ==> entry_failure(input@, xref@.entries, n, xref@.entries[n]) is None)
                    && fails_as(e, root_failure(input@, xref@.entries, xref@.trailer))),
        },
{
    let ghost s = input@;
    let ghost m = xref@.entries;
    proof { crate::xref::lemma_entries_finite(xref); }
    let entries = xref.entries();
    let mut k: usize = 0;
    while k < entries.len()
        invariant
            k <= entries@.len(),
            s == input@,
            m == xref@.entries,
            m.dom().finite(),
            listing_of(m, entries@),
            forall|j: int| 0 <= j < k ==> entry_failure(s, m, #[trigger] entries@[j].0, entries@[j].1) is None,
        decreases entries@.len() - k,
    {
        let (num, entry) = entries[k];
        match entry {
            XrefEntry::Free { .. } => {},
            XrefEntry::InUse { offset, gen } => {
                let mut parser = Parser::at(input, offset);
                let found = match parser.parse_indirect_header() {
                    Ok(f) => Some(f),
                    Err(_) => None,
                };
                let fine = match found {
                    Some(f) => f.num == num && f.gen == gen,
                    None => false,
                };
                if !fine {
                    proof { lemma_first_failure(m, entries@, k as int); }
                    return Err(Error::BadXref { offset, message: announced_message(num, gen, found) });
                }
            },
            XrefEntry::InStream { stream_num, .. } => {
                let stored = match xref.get(stream_num) {
                    Some(XrefEntry::InUse { .. }) => true,
                    _ => false,
                };
                if !stored {
                    let mut msg = string_of("object ");
                    push_decimal(&mut msg, num as u64);
                    push_str(&mut msg, " lies in object stream ");
                    push_decimal(&mut msg, stream_num as u64);
                    push_str(&mut msg, ", which is not stored in the file");
                    proof { lemma_first_failure(m, entries@, k as int); }
                    return Err(Error::BadXref { offset: 0, message: msg });
                }
            },
        }
        k = k + 1;
    }
    proof { lemma_all_entries_fine(s, m, entries@); }
    match xref.trailer().get(&Name::new("Root")) {
        None => Err(structure("trailer has no /Root")),
        Some(Object::Dict(_)) => Ok(()),
        Some(Object::Reference(r)) => match xref.get(r.num) {
            Some(XrefEntry::InUse { offset, gen }) => {
                if gen == r.gen {
                    let mut parser = Parser::at(input, offset);
                    match parser.parse_indirect() {
                        Ok((_, Object::Dict(_))) => Ok(()),
                        _ => {
                            let mut msg = string_of("/Root ");
                            push_ref(&mut msg, *r);
                            push_str(&mut msg, " announced here is not a readable dictionary");
                            Err(Error::BadXref { offset, message: msg })
                        },
                    }
                } else {
                    Err(Error::BadXref { offset: 0, message: root_unlisted(*r) })
                }
            },
            Some(XrefEntry::InStream { .. }) => {
                if r.gen == 0 {
                    Ok(())
                } else {
                    Err(Error::BadXref { offset: 0, message: root_unlisted(*r) })
                }
            },
            _ => Err(Error::BadXref { offset: 0, message: root_unlisted(*r) }),
        },
        Some(_) => Err(structure("/Root is neither a reference nor a dictionary")),
    }
}

fn root_unlisted(r: ObjRef) -> (m: String)
    ensures
        m@ == "/Root "@ + ref_text(r) + " is not listed in the table"@,
{
    let mut m = string_of("/Root ");
    push_ref(&mut m, r);
    push_str(&mut m, " is not listed in the table");
    m
}

/// The entry at `k` of the listing is the first whose number fails, when
/// those before it are fine.
proof fn lemma_first_failure(m: Map<u32, XrefEntry>, l: Seq<(u32, XrefEntry)>, k: int)
    requires
        listing_of(m, l),
        m.dom().finite(),
        0 <= k < l.len(),
    ensures
        forall|n: u32| #[trigger] m.contains_key(n) && n < l[k].0 ==> exists|j: int| 0 <= j < k && l[j].0 == n,
        m.contains_key(l[k].0) && m[l[k].0] == l[k].1,
{
    assert forall|n: u32| #[trigger] m.contains_key(n) && n < l[k].0 implies exists|j: int| 0 <= j < k && l[j].0 == n by {
        lemma_listed(m, l, n);
        let j = choose|j: int| 0 <= j < l.len() && l[j].0 == n;
        if j >= k {
            if j > k {
                assert(l[k].0 < l[j].0);
            }
        }
    }
}

/// Every key of the map stands in its listing.
proof fn lemma_listed(m: Map<u32, XrefEntry>, l: Seq<(u32, XrefEntry)>, n: u32)
    requires
        listing_of(m, l),
        m.dom().finite(),
        m.contains_key(n),
    ensures
        exists|j: int| 0 <= j < l.len() && l[j].0 == n,
{
    let nums = l.map_values(|e: (u32, XrefEntry)| e.0);
    assert forall|j: int| 0 <= j < l.len() implies #[trigger] nums[j] == l[j].0 by {}
    if !(exists|j: int| 0 <= j < l.len() && l[j].0 == n) {
        // The listing's numbers are distinct keys of the map other than
        // `n`, as many as the map has keys: impossible.
        assert(nums.no_duplicates()) by {
            assert forall|i: int, j: int| 0 <= i < nums.len() && 0 <= j < nums.len() && i != j implies nums[i] != nums[j] by {
                if i < j {
                    assert(l[i].0 < l[j].0);
                } else {
                    assert(l[j].0 < l[i].0);
                }
            }
        }
        nums.unique_seq_to_set();
        let listed = nums.to_set();
        assert forall|x: u32| listed.contains(x) implies m.dom().remove(n).contains(x) by {
            assert(nums.contains(x));
            let j = choose|j: int| 0 <= j < nums.len() && nums[j] == x;
            assert(l[j].0 == x);
        }
        vstd::set_lib::lemma_len_subset(listed, m.dom().remove(n));
    }
}

/// When every listed entry is fine, every entry of the map is.
proof fn lemma_all_entries_fine(s: Seq<u8>, m: Map<u32, XrefEntry>, l: Seq<(u32, XrefEntry)>)
    requires
        listing_of(m, l),
        m.dom().finite(),
        forall|j: int| 0 <= j < l.len() ==> entry_failure(s, m, #[trigger] l[j].0, l[j].1) is None,
    ensures
        forall|n: u32| #[trigger] m.contains_key(n) ==> entry_failure(s, m, n, m[n]) is None,
{
    assert forall|n: u32| #[trigger] m.contains_key(n) implies entry_failure(s, m, n, m[n]) is None by {
        lemma_listed(m, l, n);
        let j = choose|j: int| 0 <= j < l.len() && l[j].0 == n;
        assert(entry_failure(s, m, l[j].0, l[j].1) is None);
    }
}

// ---------------------------------------------------------------------------
// Opening a file
// ---------------------------------------------------------------------------

/// The last 2048 bytes, where `startxref` is looked for.
pub open spec fn pdf_tail(s: Seq<u8>) -> Seq<u8> {
    s.skip(
        if s.len() >= 2048 {
            s.len() - 2048
        } else {
            0
        },
    )
}

/// The file is a PDF: it has a header, or is recognisably a PDF without
/// one.
pub open spec fn is_pdf(s: Seq<u8>) -> bool {
    header_of(s) is Some || headerless_pdf(s)
}

/// The version the header declares, or the one assumed without a header.
pub open spec fn header_version(s: Seq<u8>) -> PdfVersion {
    match header_of(s) {
        Some((major, minor, _)) => PdfVersion { major, minor },
        None => assumed(),
    }
}

/// Where the header starts; 0 without one.
pub open spec fn header_offset_of(s: Seq<u8>) -> usize {
    match header_of(s) {
        Some((_, _, off)) => off as usize,
        None => 0,
    }
}

/// What the last `startxref` announces.
pub open spec fn declared_startxref(s: Seq<u8>) -> Option<usize> {
    match startxref_of(pdf_tail(s)) {
        Some(v) => Some(v as usize),
        None => None,
    }
}

/// Where the newest section is read from (see [`located_section`]).
pub open spec fn section_start(s: Seq<u8>) -> Option<usize> {
    match declared_startxref(s) {
        Some(v) => Some(located_section(s, v, header_offset_of(s))),
        None => None,
    }
}

/// Every entry of the table and its `/Root` match the file (see
/// [`verify`]).
pub open spec fn table_sound(s: Seq<u8>, x: XrefView) -> bool {
    &&& forall|n: u32| #[trigger] x.entries.contains_key(n) ==> entry_failure(s, x.entries, n, x.entries[n]) is None
    &&& root_failure(s, x.entries, x.trailer) is None
}

/// The declared table, when it can be read from where `startxref` leads
/// and matches the file.
#[verifier::opaque]
pub open spec fn declared_table(s: Seq<u8>, limits: DecodeLimits) -> Option<XrefView> {
    match section_start(s) {
        Some(start) => match crate::xref::xref_at(s, start, limits) {
            Ok(x) => if table_sound(s, x) {
                Some(x)
            } else {
                None
            },
            Err(_) => None,
        },
        None => None,
    }
}

impl<'a> Document<'a> {
    /// The document as it was before its security handler was opened.
    pub closed spec fn without_crypt(&self) -> Document<'a> {
        Document {
            input: self.input,
            version: self.version,
            xref: self.xref,
            limits: self.limits,
            reconstructed: self.reconstructed,
            relocated_startxref: self.relocated_startxref,
            crypt: None,
        }
    }

    /// What was read of the file's security handler through `plain` (the
    /// document before its handler was opened) holds of `crypt`.
    #[verifier::opaque]
    pub open spec fn crypt_opened(&self, password: Seq<u8>) -> bool {
        let plain = self.without_crypt();
        match crate::encryption::encrypt_setup(self.table().trailer, &plain) {
            Err(_) => false,
            Ok(None) => self.crypt_of() is None,
            Ok(Some((p, filters, encrypt_ref))) => {
                &&& crate::crypto::params_ok(p)
                &&& crate::crypto::file_key_of(p, password) matches Some((key, owner))
                &&& self.crypt_of() matches Some(c)
                &&& c.key() == key
                &&& c.decryptor.owner_of() == owner
                &&& c.decryptor.revision_of() == p.revision
                &&& c.decryptor.streams_of() == p.streams
                &&& c.decryptor.strings_of() == p.strings
                &&& c.decryptor.metadata_of() == p.encrypt_metadata
                &&& c.filter_view() == filters
                &&& c.encrypt_ref == encrypt_ref
            },
        }
    }

    /// Check the header, then load the cross-reference chain announced by
    /// the last `startxref`, under the default limits. Falls back to
    /// scanning the file when that chain cannot be used.
    pub fn open(input: &'a [u8]) -> (r: Result<Document<'a>, Error>)
        ensures
            opened(r, input@, DecodeLimits { max_output: crate::filters::DEFAULT_MAX_OUTPUT }, Seq::empty()),
    {
        let empty: Vec<u8> = Vec::new();
        Document::open_with(input, DecodeLimits::default(), empty.as_slice())
    }

    /// Same as [`Document::open`] with explicit limits, applied to every
    /// stream decoded on behalf of the document.
    pub fn open_with_limits(input: &'a [u8], limits: DecodeLimits) -> (r: Result<Document<'a>, Error>)
        ensures
            opened(r, input@, limits, Seq::empty()),
    {
        let empty: Vec<u8> = Vec::new();
        Document::open_with(input, limits, empty.as_slice())
    }

    /// Same as [`Document::open`] for an encrypted file whose user or owner
    /// password is not empty.
    pub fn open_with_password(input: &'a [u8], password: &[u8]) -> (r: Result<Document<'a>, Error>)
        ensures
            opened(r, input@, DecodeLimits { max_output: crate::filters::DEFAULT_MAX_OUTPUT }, password@),
    {
        Document::open_with(input, DecodeLimits::default(), password)
    }

    /// The general form of [`Document::open`]: explicit limits and
    /// password (see [`opened`]).
    pub fn open_with(input: &'a [u8], limits: DecodeLimits, password: &[u8]) -> (r: Result<Document<'a>, Error>)
        ensures
            opened(r, input@, limits, password@),
    {
        let info = match quick_info(input) {
            Err(e) => {
                proof { reveal(opened); }
                return Err(e);
            },
            Ok(i) => i,
        };
        assert(is_pdf(input@));
        assert(info.startxref == declared_startxref(input@));
        assert(info.header_offset == header_offset_of(input@));
        let (xref, reconstructed, relocated) = match choose_table(input, limits, info.startxref, info.header_offset) {
            Err(e) => {
                proof { reveal(opened); }
                assert(declared_table(input@, limits) is None);
                return Err(e);
            },
            Ok(t) => t,
        };
        let mut doc = Document {
            input,
            version: info.version,
            xref,
            limits,
            reconstructed,
            relocated_startxref: relocated,
            crypt: None,
        };
        // With no handler yet, objects come as stored: what the handler
        // needs, for the `/Encrypt` dictionary is stored in the clear.
        let crypt = match Crypt::open(doc.trailer(), &doc, password) {
            Err(e) => {
                proof {
                    reveal(opened);
                    reveal(table_chosen);
                    reveal(crate::encryption::encrypt_setup);
                    let x = doc.table();
                    assert(dict_get(x.trailer, "Encrypt".spec_bytes()) is Some);
                    if declared_table(input@, limits) is None {
                        assert(crate::recover::rebuilt_ok(input@, x.entries, x.trailer));
                    }
                }
                return Err(e);
            },
            Ok(c) => c,
        };
        let ghost plain = doc;
        doc.crypt = crypt;
        proof {
            assert(doc.without_crypt() == plain);
            reveal(Document::crypt_opened);
            reveal(opened);
        }
        Ok(doc)
    }
}

/// Read the table announced by `startxref`, from where the section is
/// found (see [`locate_section`]), and check it against the file; with
/// where the section was found when that differs from `startxref`.
fn read_declared(input: &[u8], limits: DecodeLimits, startxref: Option<usize>, header_offset: usize) -> (r: (Result<Xref, Error>, Option<usize>))
    ensures
        match startxref {
            None => r.0 is Err && r.1 is None,
            Some(v) => {
                let start = located_section(input@, v, header_offset);
                &&& r.1 == (if start != v { Some(start) } else { None::<usize> })
                &&& match r.0 {
                    Ok(x) => crate::xref::xref_at(input@, start, limits) == Ok::<XrefView, crate::xref::XrefFailure>(x@)
                        && table_sound(input@, x@),
                    Err(_) => !(crate::xref::xref_at(input@, start, limits) matches Ok(x) && table_sound(input@, x)),
                }
            },
        },
{
    match startxref {
        None => (Err(Error::MissingStartxref), None),
        Some(v) => {
            let start = locate_section(input, v, header_offset);
            let relocated = if start != v {
                Some(start)
            } else {
                None
            };
            match Xref::parse_with_limits(input, start, limits) {
                Err(e) => (Err(e), relocated),
                Ok(x) => match verify(input, &x) {
                    Err(e) => (Err(e), relocated),
                    Ok(()) => (Ok(x), relocated),
                },
            }
        },
    }
}

/// The table a document of `s` uses: the declared one when it can be
/// read and matches the file (and then `relocated` says where the section
/// was found when `startxref` was off), else one rebuilt by scanning (see
/// [`crate::recover::rebuilt_ok`]), with why the declared one was refused.
#[verifier::opaque]
pub open spec fn table_chosen(s: Seq<u8>, limits: DecodeLimits, x: XrefView, reconstructed: Option<Error>, relocated: Option<usize>) -> bool {
    match declared_table(s, limits) {
        Some(d) => x == d && reconstructed is None
            && relocated == (if section_start(s) != declared_startxref(s) { section_start(s) } else { None }),
        None => reconstructed is Some && relocated is None && x.kind == crate::xref::SectionKind::Reconstructed
            && crate::recover::rebuilt_ok(s, x.entries, x.trailer),
    }
}

/// The table to open `input` with (see [`table_chosen`]).
fn choose_table(input: &[u8], limits: DecodeLimits, startxref: Option<usize>, header_offset: usize) -> (r: Result<(Xref, Option<Error>, Option<usize>), Error>)
    requires
        startxref == declared_startxref(input@),
        header_offset == header_offset_of(input@),
    ensures
        match r {
            Ok((x, rec, rel)) => table_chosen(input@, limits, x@, rec, rel),
            Err(e) => e is Unrecoverable && declared_table(input@, limits) is None,
        },
{
    proof {
        reveal(declared_table);
        reveal(table_chosen);
    }
    let (declared, relocated) = read_declared(input, limits, startxref, header_offset);
    match declared {
        Ok(x) => Ok((x, None, relocated)),
        Err(d) => match crate::recover::reconstruct(input, limits) {
            Some(x) => Ok((x, Some(d), None)),
            None => Err(Error::Unrecoverable { declared: Box::new(d) }),
        },
    }
}

/// What opening `s` under `limits` with `password` gives: a document of
/// `s` whose table is the declared one when it can be read and matches
/// the file (and then `relocated` says whether `startxref` was off), else
/// one rebuilt by scanning (see [`crate::recover::rebuilt_ok`]), whose
/// security handler, when the file is encrypted, is open. A file that is
/// no PDF is [`Error::BadHeader`]; a PDF whose declared table can be read,
/// matches the file and names no `/Encrypt` always opens; one whose
/// declared table is unusable fails only as [`Error::Unrecoverable`] or
/// for a rebuilt table that names `/Encrypt`.
#[verifier::opaque]
pub open spec fn opened(r: Result<Document, Error>, s: Seq<u8>, limits: DecodeLimits, password: Seq<u8>) -> bool {
    match r {
        Ok(doc) => {
            &&& is_pdf(s)
            &&& doc.input_seq() == s
            &&& doc.limits_of() == limits
            &&& doc.version_of() == header_version(s)
            &&& table_chosen(s, limits, doc.table(), doc.reconstructed_of(), doc.relocated_of())
            &&& doc.crypt_opened(password)
        },
        Err(e) => {
            &&& !is_pdf(s) ==> e == Error::BadHeader
            &&& is_pdf(s) ==> match declared_table(s, limits) {
                Some(d) => dict_get(d.trailer, "Encrypt".spec_bytes()) is Some,
                None => e is Unrecoverable || exists|x: XrefView|
                    #![trigger crate::recover::rebuilt_ok(s, x.entries, x.trailer)]
                    crate::recover::rebuilt_ok(s, x.entries, x.trailer) && dict_get(x.trailer, "Encrypt".spec_bytes()) is Some,
            }
        },
    }
}

} // verus!
