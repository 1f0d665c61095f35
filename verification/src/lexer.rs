//! Byte classes and the cursor of the tokenizer (ISO 32000-2:2020,
//! clause 7.2).
//!
//! The lexer is byte-oriented: PDF is a binary format and must never be
//! decoded as UTF-8 before tokenizing.

use crate::text::{push_str, string_of};
use crate::Error;
use vstd::prelude::*;
use vstd::utf8::{decode_utf8, valid_utf8};

verus! {

/// Whitespace as ISO 32000-2 table 1 defines it: NUL, TAB, LF, FF, CR, SP.
pub open spec fn spec_is_whitespace(b: u8) -> bool {
    b == 0u8 || b == 9u8 || b == 10u8 || b == 12u8 || b == 13u8 || b == 32u8
}

/// Delimiters as ISO 32000-2 table 2 defines them: `( ) < > [ ] { } / %`.
pub open spec fn spec_is_delimiter(b: u8) -> bool {
    b == 40u8 || b == 41u8 || b == 60u8 || b == 62u8 || b == 91u8 || b == 93u8 || b == 123u8
        || b == 125u8 || b == 47u8 || b == 37u8
}

/// Regular characters: neither whitespace nor delimiter.
pub open spec fn spec_is_regular(b: u8) -> bool {
    !spec_is_whitespace(b) && !spec_is_delimiter(b)
}

/// Value of a hexadecimal digit, either case.
pub open spec fn spec_hex_value(b: u8) -> Option<u8> {
    if 48u8 <= b <= 57u8 {
        Some((b - 48u8) as u8)
    } else if 97u8 <= b <= 102u8 {
        Some((b - 97u8 + 10u8) as u8)
    } else if 65u8 <= b <= 70u8 {
        Some((b - 65u8 + 10u8) as u8)
    } else {
        None
    }
}

/// Whitespace as defined by ISO 32000-2 table 1.
pub fn is_whitespace(b: u8) -> (r: bool)
    ensures
        r == spec_is_whitespace(b),
{
    b == 0 || b == 9 || b == 10 || b == 12 || b == 13 || b == 32
}

/// Delimiters as defined by ISO 32000-2 table 2.
pub fn is_delimiter(b: u8) -> (r: bool)
    ensures
        r == spec_is_delimiter(b),
{
    b == 40 || b == 41 || b == 60 || b == 62 || b == 91 || b == 93 || b == 123 || b == 125
        || b == 47 || b == 37
}

/// Regular characters (ISO 32000-2, 7.2.3): anything that is neither
/// whitespace nor a delimiter.
pub fn is_regular(b: u8) -> (r: bool)
    ensures
        r == spec_is_regular(b),
{
    !is_whitespace(b) && !is_delimiter(b)
}

/// Value of the hexadecimal digit `b`, `None` for any other byte.
pub fn hex_value(b: u8) -> (r: Option<u8>)
    ensures
        r == spec_hex_value(b),
        r matches Some(v) ==> v < 16,
{
    if 48 <= b && b <= 57 {
        Some(b - 48)
    } else if 97 <= b && b <= 102 {
        Some(b - 97 + 10)
    } else if 65 <= b && b <= 70 {
        Some(b - 65 + 10)
    } else {
        None
    }
}

/// Where skipping whitespace and `%` comments from `pos` stops.
/// `in_comment` says whether `pos` lies inside a comment: a comment runs
/// up to the next CR or LF, which is whitespace and is skipped in turn.
pub open spec fn skip_from(input: Seq<u8>, pos: int, in_comment: bool) -> int
    decreases input.len() - pos,
{
    if pos >= input.len() || pos < 0 {
        pos
    } else if in_comment {
        if input[pos] == 10u8 || input[pos] == 13u8 {
            skip_from(input, pos + 1, false)
        } else {
            skip_from(input, pos + 1, true)
        }
    } else if spec_is_whitespace(input[pos]) {
        skip_from(input, pos + 1, false)
    } else if input[pos] == 37u8 {
        skip_from(input, pos + 1, true)
    } else {
        pos
    }
}

/// Skipping never moves backwards nor past the end of the input.
pub proof fn lemma_skip_from_bounds(input: Seq<u8>, pos: int, in_comment: bool)
    requires
        0 <= pos <= input.len(),
    ensures
        pos <= skip_from(input, pos, in_comment) <= input.len(),
        skip_from(input, pos, in_comment) < input.len() ==> {
            let b = input[skip_from(input, pos, in_comment)];
            !spec_is_whitespace(b) && b != 37u8
        },
    decreases input.len() - pos,
{
    if pos < input.len() {
        if in_comment {
            if input[pos] == 10u8 || input[pos] == 13u8 {
                lemma_skip_from_bounds(input, pos + 1, false);
            } else {
                lemma_skip_from_bounds(input, pos + 1, true);
            }
        } else if spec_is_whitespace(input[pos]) {
            lemma_skip_from_bounds(input, pos + 1, false);
        } else if input[pos] == 37u8 {
            lemma_skip_from_bounds(input, pos + 1, true);
        }
    }
}

/// The value of the octal escape whose first digit gave `v`, reading at
/// most `k` more octal digits from `pos`: the value and where it ends.
pub open spec fn octal_from(s: Seq<u8>, pos: int, v: nat, k: nat) -> (nat, int)
    decreases k,
{
    if k > 0 && 0 <= pos < s.len() && 48u8 <= s[pos] <= 55u8 {
        octal_from(s, pos + 1, v * 8 + (s[pos] - 48u8) as nat, (k - 1) as nat)
    } else {
        (v, pos)
    }
}

/// The byte a simple escape `\e` stands for, when `e` is one of
/// `n r t b f ( ) \`.
pub open spec fn simple_escape(e: u8) -> Option<u8> {
    if e == 110u8 {
        Some(10u8)
    } else if e == 114u8 {
        Some(13u8)
    } else if e == 116u8 {
        Some(9u8)
    } else if e == 98u8 {
        Some(8u8)
    } else if e == 102u8 {
        Some(12u8)
    } else if e == 40u8 || e == 41u8 || e == 92u8 {
        Some(e)
    } else {
        None
    }
}

/// A literal string read from `pos`, `extra` parentheses deep beyond the
/// opening one, with `out` already decoded (ISO 32000-2, 7.3.4.2): the
/// decoded bytes and the position after the closing parenthesis, or
/// `None` when the input ends first. Escapes `\n \r \t \b \f \( \) \\`
/// and octal `\ddd` are decoded, a backslash before an end of line
/// continues the line, an unknown escape drops the backslash, balanced
/// parentheses are kept, and CR or CR LF reads as LF.
pub open spec fn literal_scan(s: Seq<u8>, pos: int, extra: nat, out: Seq<u8>) -> Option<(Seq<u8>, int)>
    decreases s.len() - pos,
{
    if pos < 0 || pos >= s.len() {
        None
    } else {
        let b = s[pos];
        if b == 92u8 {
            if pos + 1 >= s.len() {
                None
            } else {
                let e = s[pos + 1];
                if simple_escape(e) is Some {
                    literal_scan(s, pos + 2, extra, out.push(simple_escape(e)->0))
                } else if e == 13u8 {
                    literal_scan(
                        s,
                        if pos + 2 < s.len() && s[pos + 2] == 10u8 {
                            pos + 3
                        } else {
                            pos + 2
                        },
                        extra,
                        out,
                    )
                } else if e == 10u8 {
                    literal_scan(s, pos + 2, extra, out)
                } else if 48u8 <= e <= 55u8 {
                    let (v, next) = octal_from(s, pos + 2, (e - 48u8) as nat, 2);
                    proof {
                        lemma_octal_from(s, pos + 2, (e - 48u8) as nat);
                    }
                    literal_scan(s, next, extra, out.push((v % 256) as u8))
                } else {
                    literal_scan(s, pos + 2, extra, out.push(e))
                }
            }
        } else if b == 40u8 {
            literal_scan(s, pos + 1, extra + 1, out.push(b))
        } else if b == 41u8 {
            if extra == 0 {
                Some((out, pos + 1))
            } else {
                literal_scan(s, pos + 1, (extra - 1) as nat, out.push(b))
            }
        } else if b == 13u8 {
            literal_scan(
                s,
                if pos + 1 < s.len() && s[pos + 1] == 10u8 {
                    pos + 2
                } else {
                    pos + 1
                },
                extra,
                out.push(10u8),
            )
        } else {
            literal_scan(s, pos + 1, extra, out.push(b))
        }
    }
}

/// An octal escape reads its first digit and at most two more: it ends
/// within the input, after 1 to 3 digits, with a value below 512.
pub proof fn lemma_octal_from(s: Seq<u8>, pos: int, v: nat)
    requires
        0 <= pos <= s.len(),
        v < 8,
    ensures
        pos <= octal_from(s, pos, v, 2).1 <= pos + 2,
        octal_from(s, pos, v, 2).1 <= s.len(),
        octal_from(s, pos, v, 2).0 < 512,
{
    reveal_with_fuel(octal_from, 3);
}

/// A hexadecimal string read from `pos` (ISO 32000-2, 7.3.4.3), with
/// `pending` the high digit waiting for its pair and `out` already
/// decoded: the bytes and the position after `>`; an odd last digit is
/// followed by 0. Whitespace is ignored. `Err(true)` when the input ends
/// first, `Err(false)` at a byte that is no hexadecimal digit.
pub open spec fn hex_string_scan(s: Seq<u8>, pos: int, pending: Option<u8>, out: Seq<u8>) -> Result<(Seq<u8>, int), bool>
    decreases s.len() - pos,
{
    if pos < 0 || pos >= s.len() {
        Err(true)
    } else {
        let b = s[pos];
        if b == 62u8 {
            Ok(
                (
                    match pending {
                        Some(h) => out.push((h * 16) as u8),
                        None => out,
                    },
                    pos + 1,
                ),
            )
        } else if spec_is_whitespace(b) {
            hex_string_scan(s, pos + 1, pending, out)
        } else {
            match spec_hex_value(b) {
                None => Err(false),
                Some(v) => match pending {
                    None => hex_string_scan(s, pos + 1, Some(v), out),
                    Some(h) => hex_string_scan(s, pos + 1, None, out.push((h * 16 + v) as u8)),
                },
            }
        }
    }
}

/// A name read from `pos` (ISO 32000-2, 7.3.5): the regular bytes up to
/// the next whitespace or delimiter, `#xx` decoded when both digits are
/// hexadecimal; the bytes and where the name ends.
pub open spec fn name_scan(s: Seq<u8>, pos: int, out: Seq<u8>) -> (Seq<u8>, int)
    decreases s.len() - pos,
{
    if pos < 0 || pos >= s.len() || !spec_is_regular(s[pos]) {
        (out, pos)
    } else if s[pos] == 35u8 && pos + 2 < s.len() && spec_hex_value(s[pos + 1]) is Some
        && spec_hex_value(s[pos + 2]) is Some {
        name_scan(
            s,
            pos + 3,
            out.push((spec_hex_value(s[pos + 1])->0 * 16 + spec_hex_value(s[pos + 2])->0) as u8),
        )
    } else {
        name_scan(s, pos + 1, out.push(s[pos]))
    }
}

/// The end of the run of regular bytes from `pos`.
pub open spec fn regular_end(s: Seq<u8>, pos: int) -> int
    decreases s.len() - pos,
{
    if pos < 0 || pos >= s.len() || !spec_is_regular(s[pos]) {
        pos
    } else {
        regular_end(s, pos + 1)
    }
}

pub proof fn lemma_regular_end(s: Seq<u8>, pos: int)
    requires
        0 <= pos <= s.len(),
    ensures
        pos <= regular_end(s, pos) <= s.len(),
    decreases s.len() - pos,
{
    if pos < s.len() && spec_is_regular(s[pos]) {
        lemma_regular_end(s, pos + 1);
    }
}

/// A literal string that closes ends after its start, within the input.
pub proof fn lemma_literal_scan_end(s: Seq<u8>, pos: int, extra: nat, out: Seq<u8>)
    ensures
        literal_scan(s, pos, extra, out) matches Some((v, e)) ==> pos < e <= s.len(),
    decreases s.len() - pos,
{
    if 0 <= pos < s.len() {
        let b = s[pos];
        if b == 92u8 {
            if pos + 1 < s.len() {
                let e = s[pos + 1];
                if simple_escape(e) is Some {
                    lemma_literal_scan_end(s, pos + 2, extra, out.push(simple_escape(e)->0));
                } else if e == 13u8 {
                    let n = if pos + 2 < s.len() && s[pos + 2] == 10u8 { pos + 3 } else { pos + 2 };
                    lemma_literal_scan_end(s, n, extra, out);
                } else if e == 10u8 {
                    lemma_literal_scan_end(s, pos + 2, extra, out);
                } else if 48u8 <= e <= 55u8 {
                    lemma_octal_from(s, pos + 2, (e - 48u8) as nat);
                    let (v, next) = octal_from(s, pos + 2, (e - 48u8) as nat, 2);
                    lemma_literal_scan_end(s, next, extra, out.push((v % 256) as u8));
                } else {
                    lemma_literal_scan_end(s, pos + 2, extra, out.push(e));
                }
            }
        } else if b == 40u8 {
            lemma_literal_scan_end(s, pos + 1, extra + 1, out.push(b));
        } else if b == 41u8 {
            if extra > 0 {
                lemma_literal_scan_end(s, pos + 1, (extra - 1) as nat, out.push(b));
            }
        } else if b == 13u8 {
            let n = if pos + 1 < s.len() && s[pos + 1] == 10u8 { pos + 2 } else { pos + 1 };
            lemma_literal_scan_end(s, n, extra, out.push(10u8));
        } else {
            lemma_literal_scan_end(s, pos + 1, extra, out.push(b));
        }
    }
}

/// A hexadecimal string that closes ends after its start, within the input.
pub proof fn lemma_hex_string_scan_end(s: Seq<u8>, pos: int, pending: Option<u8>, out: Seq<u8>)
    ensures
        hex_string_scan(s, pos, pending, out) matches Ok((v, e)) ==> pos < e <= s.len(),
    decreases s.len() - pos,
{
    if 0 <= pos < s.len() {
        let b = s[pos];
        if b != 62u8 {
            if spec_is_whitespace(b) {
                lemma_hex_string_scan_end(s, pos + 1, pending, out);
            } else {
                match spec_hex_value(b) {
                    None => {},
                    Some(v) => match pending {
                        None => lemma_hex_string_scan_end(s, pos + 1, Some(v), out),
                        Some(h) => lemma_hex_string_scan_end(s, pos + 1, None, out.push((h * 16 + v) as u8)),
                    },
                }
            }
        }
    }
}

/// A name ends at or after its start, within the input.
pub proof fn lemma_name_scan_end(s: Seq<u8>, pos: int, out: Seq<u8>)
    requires
        0 <= pos <= s.len(),
    ensures
        pos <= name_scan(s, pos, out).1 <= s.len(),
    decreases s.len() - pos,
{
    if pos < s.len() && spec_is_regular(s[pos]) {
        if s[pos] == 35u8 && pos + 2 < s.len() && spec_hex_value(s[pos + 1]) is Some
            && spec_hex_value(s[pos + 2]) is Some {
            lemma_name_scan_end(
                s,
                pos + 3,
                out.push((spec_hex_value(s[pos + 1])->0 * 16 + spec_hex_value(s[pos + 2])->0) as u8),
            );
        } else {
            lemma_name_scan_end(s, pos + 1, out.push(s[pos]));
        }
    }
}

/// Skipping from where skipping stopped stays there.
pub proof fn lemma_skip_from_idempotent(s: Seq<u8>, pos: int)
    requires
        0 <= pos <= s.len(),
    ensures
        skip_from(s, skip_from(s, pos, false), false) == skip_from(s, pos, false),
{
    lemma_skip_from_bounds(s, pos, false);
}

/// A token starts where skipping stops and ends within the input; a token
/// other than the end of input ends after its start.
pub proof fn lemma_token_at_bounds(s: Seq<u8>, pos: int)
    requires
        0 <= pos <= s.len(),
    ensures
        pos <= skip_from(s, pos, false) <= token_at(s, pos).1 <= s.len(),
        token_at(s, pos).0 matches Ok(t) && !(t is Eof) ==> skip_from(s, pos, false) < token_at(s, pos).1,
        token_at(s, pos).0 matches Ok(t) && t is Eof ==> token_at(s, pos).1 == s.len(),
        token_at(s, pos).0 is Err ==> skip_from(s, pos, false) < s.len(),
        token_at(s, skip_from(s, pos, false)) == token_at(s, pos),
{
    lemma_skip_from_bounds(s, pos, false);
    lemma_skip_from_idempotent(s, pos);
    let q = skip_from(s, pos, false);
    if q < s.len() {
        let b = s[q];
        lemma_literal_scan_end(s, q + 1, 0, Seq::empty());
        lemma_hex_string_scan_end(s, q + 1, None, Seq::empty());
        lemma_name_scan_end(s, q + 1, Seq::empty());
        lemma_regular_end(s, q);
        if b == 43u8 || b == 45u8 || b == 46u8 || is_ascii_digit(b) {
            assert(spec_is_regular(b));
            lemma_regular_end(s, q + 1);
        }
    }
}

/// A single lexical token.
#[derive(Debug, Clone, PartialEq, Eq)]
pub enum Token {
    /// Integer literal.
    Integer(i64),
    /// Real literal, as the decimal text its value reads from: an optional
    /// `-`, then digits with at most one `.` (what `f64` parsing accepts of
    /// such text). The tolerant reading of ISO 32000-2, 7.3.3 is done:
    /// `.5` is `0.5`, `5.` is `5.0`, doubled leading minus signs are gone.
    Real(Vec<u8>),
    /// `(...)` string, unescaped.
    LiteralString(Vec<u8>),
    /// `<...>` string, decoded.
    HexString(Vec<u8>),
    /// `/Name`, with `#xx` escapes decoded.
    Name(Vec<u8>),
    /// `[`
    ArrayOpen,
    /// `]`
    ArrayClose,
    /// `<<`
    DictOpen,
    /// `>>`
    DictClose,
    /// `{`
    BraceOpen,
    /// `}`
    BraceClose,
    /// Bare keyword: `obj`, `endobj`, `stream`, `R`, `true`, `null`, ...
    Keyword(Vec<u8>),
    /// End of input.
    Eof,
}

/// A token with its bytes as sequences.
pub enum TokenView {
    Integer(i64),
    Real(Seq<u8>),
    LiteralString(Seq<u8>),
    HexString(Seq<u8>),
    Name(Seq<u8>),
    ArrayOpen,
    ArrayClose,
    DictOpen,
    DictClose,
    BraceOpen,
    BraceClose,
    Keyword(Seq<u8>),
    Eof,
}

impl View for Token {
    type V = TokenView;

    open spec fn view(&self) -> TokenView {
        match self {
            Token::Integer(i) => TokenView::Integer(*i),
            Token::Real(t) => TokenView::Real(t@),
            Token::LiteralString(v) => TokenView::LiteralString(v@),
            Token::HexString(v) => TokenView::HexString(v@),
            Token::Name(v) => TokenView::Name(v@),
            Token::ArrayOpen => TokenView::ArrayOpen,
            Token::ArrayClose => TokenView::ArrayClose,
            Token::DictOpen => TokenView::DictOpen,
            Token::DictClose => TokenView::DictClose,
            Token::BraceOpen => TokenView::BraceOpen,
            Token::BraceClose => TokenView::BraceClose,
            Token::Keyword(v) => TokenView::Keyword(v@),
            Token::Eof => TokenView::Eof,
        }
    }
}

/// Why no token could be read: the input ended inside one, or a syntax
/// error at an offset with its message.
pub enum LexFailure {
    Eof,
    Syntax(int, Seq<char>),
}

/// An ASCII decimal digit.
pub open spec fn is_ascii_digit(b: u8) -> bool {
    48u8 <= b <= 57u8
}

/// The value of the digits `t`.
pub open spec fn digit_value(t: Seq<u8>) -> nat
    decreases t.len(),
{
    if t.len() == 0 {
        0
    } else {
        digit_value(t.drop_last()) * 10 + (t.last() - 48u8) as nat
    }
}

/// Every byte of `t` is an ASCII digit.
pub open spec fn all_digits(t: Seq<u8>) -> bool {
    forall|k: int| 0 <= k < t.len() ==> is_ascii_digit(#[trigger] t[k])
}

/// `t` read as `str::parse::<i64>` reads it: an optional sign, then one or
/// more ASCII digits, of a value that fits an `i64`.
pub open spec fn parsed_i64(t: Seq<u8>) -> Option<int> {
    let signed = t.len() > 0 && (t[0] == 43u8 || t[0] == 45u8);
    let digits = if signed {
        t.skip(1)
    } else {
        t
    };
    let negative = t.len() > 0 && t[0] == 45u8;
    if digits.len() == 0 || !all_digits(digits) {
        None
    } else if negative {
        if digit_value(digits) > 9223372036854775808 {
            None
        } else {
            Some(-(digit_value(digits) as int))
        }
    } else if digit_value(digits) > 9223372036854775807 {
        None
    } else {
        Some(digit_value(digits) as int)
    }
}

/// A byte that a real's text keeps: a digit, `.` or `-`.
pub open spec fn number_byte(b: u8) -> bool {
    is_ascii_digit(b) || b == 46u8 || b == 45u8
}

/// The bytes of `t` that a real's text keeps.
pub open spec fn kept_bytes(t: Seq<u8>) -> Seq<u8>
    decreases t.len(),
{
    if t.len() == 0 {
        Seq::empty()
    } else {
        kept_bytes(t.drop_last()) + (if number_byte(t.last()) {
            seq![t.last()]
        } else {
            Seq::empty()
        })
    }
}

/// `c` without its leading pairs of `-` (`trim_start_matches("--")`).
pub open spec fn without_double_minus(c: Seq<u8>) -> Seq<u8>
    decreases c.len(),
{
    if c.len() >= 2 && c[0] == 45u8 && c[1] == 45u8 {
        without_double_minus(c.skip(2))
    } else {
        c
    }
}

/// The text a real is read from: the kept bytes, leading pairs of `-`
/// dropped, a `0` before a leading `.` and after a trailing `.`.
pub open spec fn real_text(t: Seq<u8>) -> Seq<u8> {
    let c = without_double_minus(kept_bytes(t));
    let c2 = if c.len() > 0 && c[0] == 46u8 {
        seq![48u8] + c
    } else {
        c
    };
    if c2.len() > 0 && c2.last() == 46u8 {
        c2.push(48u8)
    } else {
        c2
    }
}

/// The digits-and-dot part of a real's text from `i` on is accepted,
/// given whether a `.` and a digit were already seen: only digits and at
/// most one `.`, at least one digit in all.
pub open spec fn real_body_ok(body: Seq<u8>, i: int, seen_dot: bool, seen_digit: bool) -> bool
    decreases body.len() - i,
{
    if i < 0 || i >= body.len() {
        seen_digit
    } else if is_ascii_digit(body[i]) {
        real_body_ok(body, i + 1, seen_dot, true)
    } else if body[i] == 46u8 && !seen_dot {
        real_body_ok(body, i + 1, true, seen_digit)
    } else {
        false
    }
}

/// Text of digits, `.` and `-` that `f64` parsing accepts: an optional
/// `-`, then digits with at most one `.`, at least one digit.
pub open spec fn real_accepted(c: Seq<u8>) -> bool {
    let body = if c.len() > 0 && c[0] == 45u8 {
        c.skip(1)
    } else {
        c
    };
    real_body_ok(body, 0, false, false)
}

/// What `format!("{:?}", s)` writes for the string `s`.
pub uninterp spec fn debug_quoted(s: Seq<char>) -> Seq<char>;

/// Calls `format!("{s:?}")`: the string quoted, with the escapes of its
/// `Debug` form. Trusted: the result is [`debug_quoted`] of the string.
#[verifier::external_body]
pub(crate) fn debug_string(s: &str) -> (r: String)
    ensures
        r@ == debug_quoted(s@),
{
    format!("{s:?}")
}

/// Calls `std::str::from_utf8`. Trusted: it succeeds exactly on valid
/// UTF-8, and the string it gives holds the decoded characters.
#[verifier::external_body]
fn utf8_text(bytes: &[u8]) -> (r: Option<&str>)
    ensures
        r is Some <==> valid_utf8(bytes@),
        r matches Some(s) ==> s@ == decode_utf8(bytes@),
{
    std::str::from_utf8(bytes).ok()
}

/// A number token read from `pos` (ISO 32000-2, 7.3.3): the run of regular
/// bytes, an integer when it has no `.` and fits an `i64`, a real when its
/// text is accepted, else refused; and where the run ends.
pub open spec fn number_at(s: Seq<u8>, pos: int) -> (Result<TokenView, LexFailure>, int) {
    let end = regular_end(s, pos);
    let text = s.subrange(pos, end);
    if !valid_utf8(text) {
        (Err(LexFailure::Syntax(pos, "non-ASCII number"@)), end)
    } else if !text.contains(46u8) && parsed_i64(text) is Some {
        (Ok(TokenView::Integer(parsed_i64(text)->0 as i64)), end)
    } else if real_accepted(real_text(text)) {
        (Ok(TokenView::Real(real_text(text))), end)
    } else {
        (Err(LexFailure::Syntax(pos, "bad number "@ + debug_quoted(decode_utf8(text)))), end)
    }
}

/// The next token from `pos`, after whitespace and comments, and where it
/// ends (ISO 32000-2, 7.2 and 7.3).
pub open spec fn token_at(s: Seq<u8>, pos: int) -> (Result<TokenView, LexFailure>, int) {
    let q = skip_from(s, pos, false);
    if q < 0 || q >= s.len() {
        (Ok(TokenView::Eof), q)
    } else {
        let b = s[q];
        if b == 91u8 {
            (Ok(TokenView::ArrayOpen), q + 1)
        } else if b == 93u8 {
            (Ok(TokenView::ArrayClose), q + 1)
        } else if b == 123u8 {
            (Ok(TokenView::BraceOpen), q + 1)
        } else if b == 125u8 {
            (Ok(TokenView::BraceClose), q + 1)
        } else if b == 60u8 {
            if q + 1 < s.len() && s[q + 1] == 60u8 {
                (Ok(TokenView::DictOpen), q + 2)
            } else {
                match hex_string_scan(s, q + 1, None, Seq::empty()) {
                    Ok((v, end)) => (Ok(TokenView::HexString(v)), end),
                    Err(true) => (Err(LexFailure::Eof), q + 1),
                    Err(false) => (
                        Err(LexFailure::Syntax(q + 1, "non-hex byte in hex string"@)),
                        q + 1,
                    ),
                }
            }
        } else if b == 62u8 {
            if q + 1 < s.len() && s[q + 1] == 62u8 {
                (Ok(TokenView::DictClose), q + 2)
            } else {
                (Err(LexFailure::Syntax(q, "stray '>'"@)), q)
            }
        } else if b == 40u8 {
            match literal_scan(s, q + 1, 0, Seq::empty()) {
                Some((v, end)) => (Ok(TokenView::LiteralString(v)), end),
                None => (Err(LexFailure::Eof), q + 1),
            }
        } else if b == 47u8 {
            let (v, end) = name_scan(s, q + 1, Seq::empty());
            (Ok(TokenView::Name(v)), end)
        } else if b == 41u8 {
            (Err(LexFailure::Syntax(q, "stray ')'"@)), q)
        } else if b == 43u8 || b == 45u8 || b == 46u8 || is_ascii_digit(b) {
            number_at(s, q)
        } else {
            let end = regular_end(s, q);
            if end == q {
                (Err(LexFailure::Syntax(q, "unexpected delimiter"@)), q + 1)
            } else {
                (Ok(TokenView::Keyword(s.subrange(q, end))), end)
            }
        }
    }
}

/// `r` is what [`token_at`] says: the token, or the error.
pub open spec fn token_result(r: Result<Token, Error>, expected: Result<TokenView, LexFailure>) -> bool {
    match expected {
        Ok(tv) => r matches Ok(t) && t@ == tv,
        Err(LexFailure::Eof) => r == Err::<Token, Error>(Error::UnexpectedEof),
        Err(LexFailure::Syntax(off, msg)) => r matches Err(Error::Syntax { offset, message })
            && offset == off && message@ == msg,
    }
}

fn parse_i64_bytes(t: &[u8]) -> (r: Option<i64>)
    ensures
        match parsed_i64(t@) {
            Some(v) => r == Some(v as i64),
            None => r is None,
        },
{
    let n = t.len();
    let signed = n > 0 && (t[0] == 43 || t[0] == 45);
    let negative = n > 0 && t[0] == 45;
    let d: usize = if signed {
        1
    } else {
        0
    };
    let ghost digits = t@.skip(d as int);
    assert(digits =~= (if t@.len() > 0 && (t@[0] == 43u8 || t@[0] == 45u8) {
        t@.skip(1)
    } else {
        t@
    }));
    if d >= n {
        return None;
    }
    let mut k = d;
    while k < n
        invariant
            d <= k <= n,
            d < n,
            n == t@.len(),
            d == 0 || d == 1,
            digits == t@.skip(d as int),
            digits == (if t@.len() > 0 && (t@[0] == 43u8 || t@[0] == 45u8) {
                t@.skip(1)
            } else {
                t@
            }),
            forall|m: int| 0 <= m < k - d ==> is_ascii_digit(#[trigger] digits[m]),
        decreases n - k,
    {
        assert(digits[k - d] == t@[k as int]);
        if !(48 <= t[k] && t[k] <= 57) {
            assert(!all_digits(digits)) by {
                assert(!is_ascii_digit(digits[k - d]));
            }
            return None;
        }
        k = k + 1;
    }
    let mut v: u64 = 0;
    let mut k = d;
    while k < n
        invariant
            d <= k <= n,
            d < n,
            n == t@.len(),
            d == 0 || d == 1,
            digits == t@.skip(d as int),
            digits == (if t@.len() > 0 && (t@[0] == 43u8 || t@[0] == 45u8) {
                t@.skip(1)
            } else {
                t@
            }),
            forall|m: int| 0 <= m < digits.len() ==> is_ascii_digit(#[trigger] digits[m]),
            v as nat == digit_value(digits.take(k - d)),
            v <= 9223372036854775808,
        decreases n - k,
    {
        assert(digits[k - d] == t@[k as int]);
        assert(is_ascii_digit(digits[k - d]));
        let dig = (t[k] - 48) as u64;
        assert(digits.take(k - d + 1).drop_last() =~= digits.take(k - d));
        assert(digits.take(k - d + 1).last() == t@[k as int]);
        if v > (9223372036854775808 - dig) / 10 {
            proof {
                let vv = v as int;
                let dd = dig as int;
                assert(vv * 10 + dd > 9223372036854775808) by (nonlinear_arith)
                    requires
                        vv > (9223372036854775808 - dd) / 10,
                        0 <= dd <= 9,
                ;
                lemma_digit_value_grows(digits, k - d + 1);
                assert(digit_value(digits) > 9223372036854775808);
            }
            return None;
        }
        v = v * 10 + dig;
        k = k + 1;
    }
    assert(digits.take(n - d) =~= digits);
    if negative {
        if v == 9223372036854775808 {
            Some(i64::MIN)
        } else {
            Some(-(v as i64))
        }
    } else if v > 9223372036854775807 {
        None
    } else {
        Some(v as i64)
    }
}

pub proof fn lemma_digit_value_grows(t: Seq<u8>, n: int)
    requires
        0 <= n <= t.len(),
        forall|m: int| 0 <= m < t.len() ==> is_ascii_digit(#[trigger] t[m]),
    ensures
        digit_value(t.take(n)) <= digit_value(t),
    decreases t.len() - n,
{
    if n < t.len() {
        lemma_digit_value_grows(t, n + 1);
        assert(t.take(n + 1).drop_last() =~= t.take(n));
    } else {
        assert(t.take(n) =~= t);
    }
}

fn kept(t: &[u8]) -> (r: Vec<u8>)
    ensures
        r@ == kept_bytes(t@),
{
    let mut out: Vec<u8> = Vec::new();
    let mut k: usize = 0;
    while k < t.len()
        invariant
            k <= t@.len(),
            out@ == kept_bytes(t@.take(k as int)),
        decreases t@.len() - k,
    {
        let b = t[k];
        assert(t@.take(k + 1).drop_last() =~= t@.take(k as int));
        if (48 <= b && b <= 57) || b == 46 || b == 45 {
            out.push(b);
        }
        k = k + 1;
        assert(out@ =~= kept_bytes(t@.take(k as int)));
    }
    assert(t@.take(t@.len() as int) =~= t@);
    out
}

fn real_text_of(t: &[u8]) -> (r: Vec<u8>)
    ensures
        r@ == real_text(t@),
{
    let kept = kept(t);
    let mut start: usize = 0;
    assert(kept@.skip(0) =~= kept@);
    while start < kept.len() && kept.len() - start >= 2 && kept[start] == 45 && kept[start + 1]
        == 45
        invariant
            start <= kept@.len(),
            without_double_minus(kept@.skip(start as int)) == without_double_minus(kept@),
        decreases kept@.len() - start,
    {
        assert(kept@.skip(start as int).skip(2) =~= kept@.skip(start + 2));
        start = start + 2;
    }
    let c = vstd::slice::slice_subrange(kept.as_slice(), start, kept.len());
    assert(c@ =~= kept@.skip(start as int));
    assert(without_double_minus(c@) == c@);
    let mut out: Vec<u8> = Vec::new();
    if c.len() > 0 && c[0] == 46 {
        out.push(48);
    }
    crate::bytes::extend(&mut out, c);
    let ghost c2 = out@;
    assert(c2 =~= (if c@.len() > 0 && c@[0] == 46u8 {
        seq![48u8] + c@
    } else {
        c@
    }));
    if out.len() > 0 && out[out.len() - 1] == 46 {
        out.push(48);
    }
    out
}

pub(crate) fn real_ok(c: &[u8]) -> (b: bool)
    ensures
        b == real_accepted(c@),
{
    let start: usize = if c.len() > 0 && c[0] == 45 {
        1
    } else {
        0
    };
    let ghost body = if c@.len() > 0 && c@[0] == 45u8 {
        c@.skip(1)
    } else {
        c@
    };
    assert(body =~= c@.skip(start as int));
    let mut seen_dot = false;
    let mut seen_digit = false;
    let mut k = start;
    while k < c.len()
        invariant
            start <= k <= c@.len(),
            start == 0 || start == 1,
            body == c@.skip(start as int),
            real_body_ok(body, k - start, seen_dot, seen_digit) == real_accepted(c@),
        decreases c@.len() - k,
    {
        let b = c[k];
        assert(body[k - start] == b);
        if 48 <= b && b <= 57 {
            seen_digit = true;
        } else if b == 46 && !seen_dot {
            seen_dot = true;
        } else {
            return false;
        }
        k = k + 1;
    }
    seen_digit
}

/// Streaming cursor over a byte slice.
#[derive(Debug, Clone, Copy)]
pub struct Lexer<'a> {
    input: &'a [u8],
    pos: usize,
}

impl<'a> Lexer<'a> {
    /// The cursor never lies past the end of the input.
    #[verifier::type_invariant]
    spec fn well_formed(self) -> bool {
        self.pos <= self.input@.len()
    }

    /// The bytes being read.
    pub closed spec fn bytes(self) -> Seq<u8> {
        self.input@
    }

    /// The current offset of the cursor.
    pub closed spec fn position(self) -> int {
        self.pos as int
    }

    /// Create a lexer positioned at the start of `input`.
    pub fn new(input: &'a [u8]) -> (l: Lexer<'a>)
        ensures
            l.bytes() == input@,
            l.position() == 0,
    {
        Lexer { input, pos: 0 }
    }

    /// Create a lexer positioned at byte `offset`, or at the end of the
    /// input when `offset` lies beyond it.
    pub fn at(input: &'a [u8], offset: usize) -> (l: Lexer<'a>)
        ensures
            l.bytes() == input@,
            l.position() == if offset <= input@.len() { offset as int } else { input@.len() as int },
    {
        let pos = if offset <= input.len() { offset } else { input.len() };
        Lexer { input, pos }
    }

    /// Current byte offset.
    pub fn pos(&self) -> (p: usize)
        ensures
            p == self.position(),
            p <= self.bytes().len(),
    {
        proof { use_type_invariant(self); }
        self.pos
    }

    /// Move the cursor to `offset`, or to the end of the input when
    /// `offset` lies beyond it.
    pub fn seek(&mut self, offset: usize)
        ensures
            final(self).bytes() == old(self).bytes(),
            final(self).position() == if offset <= old(self).bytes().len() {
                offset as int
            } else {
                old(self).bytes().len() as int
            },
    {
        proof { use_type_invariant(&*self); }
        self.pos = if offset <= self.input.len() { offset } else { self.input.len() };
    }

    /// The underlying input.
    pub fn input(&self) -> (s: &'a [u8])
        ensures
            s@ == self.bytes(),
    {
        self.input
    }

    /// The byte under the cursor, if any.
    pub fn peek(&self) -> (r: Option<u8>)
        ensures
            r == if self.position() < self.bytes().len() {
                Some(self.bytes()[self.position()])
            } else {
                None::<u8>
            },
    {
        proof { use_type_invariant(self); }
        if self.pos < self.input.len() {
            Some(self.input[self.pos])
        } else {
            None
        }
    }

    /// The byte `ahead` bytes after the cursor, if any.
    pub fn peek_at(&self, ahead: usize) -> (r: Option<u8>)
        ensures
            r == if self.position() + ahead < self.bytes().len() {
                Some(self.bytes()[self.position() + ahead])
            } else {
                None::<u8>
            },
    {
        proof { use_type_invariant(self); }
        if ahead < self.input.len() - self.pos {
            Some(self.input[self.pos + ahead])
        } else {
            None
        }
    }

    /// The byte under the cursor, moving past it; `None` at the end.
    pub fn bump(&mut self) -> (r: Option<u8>)
        ensures
            final(self).bytes() == old(self).bytes(),
            r == if old(self).position() < old(self).bytes().len() {
                Some(old(self).bytes()[old(self).position()])
            } else {
                None::<u8>
            },
            final(self).position() == if r is Some {
                old(self).position() + 1
            } else {
                old(self).position()
            },
    {
        proof { use_type_invariant(&*self); }
        if self.pos < self.input.len() {
            let b = self.input[self.pos];
            self.pos = self.pos + 1;
            Some(b)
        } else {
            None
        }
    }

    /// Skip whitespace and `%` comments (ISO 32000-2, 7.2.3 and 7.2.4).
    pub fn skip_whitespace_and_comments(&mut self)
        ensures
            final(self).bytes() == old(self).bytes(),
            final(self).position() == skip_from(old(self).bytes(), old(self).position(), false),
    {
        proof { use_type_invariant(&*self); }
        let ghost s = self.input@;
        let ghost target = skip_from(s, self.pos as int, false);
        let len = self.input.len();
        while self.pos < len
            invariant
                self.input@ == s,
                s == old(self).bytes(),
                target == skip_from(old(self).bytes(), old(self).position(), false),
                len == s.len(),
                self.pos <= len,
                skip_from(s, self.pos as int, false) == target,
            ensures
                self.input@ == s,
                self.pos == target,
            decreases len - self.pos,
        {
            let b = self.input[self.pos];
            if is_whitespace(b) {
                self.pos = self.pos + 1;
            } else if b == 37 {
                // Inside the comment up to the next end of line, which the
                // outer loop then skips as whitespace.
                self.pos = self.pos + 1;
                let ghost after_percent = self.pos;
                while self.pos < len
                    invariant
                        self.pos >= after_percent,
                        self.input@ == s,
                        len == s.len(),
                        self.pos <= len,
                        skip_from(s, self.pos as int, true) == target,
                    ensures
                        self.pos >= after_percent,
                        self.pos <= len,
                        self.input@ == s,
                        skip_from(s, self.pos as int, true) == target,
                        self.pos < len ==> (s[self.pos as int] == 10u8 || s[self.pos as int] == 13u8),
                    decreases len - self.pos,
                {
                    let c = self.input[self.pos];
                    if c == 10 || c == 13 {
                        break;
                    }
                    self.pos = self.pos + 1;
                }
                if self.pos >= len {
                    return;
                }
            } else {
                break;
            }
        }
    }

    /// Read a literal string whose opening `(` was just consumed
    /// (ISO 32000-2, 7.3.4.2): its decoded bytes, the cursor after the
    /// closing `)`. `UnexpectedEof` when the input ends first.
    pub fn literal_string(&mut self) -> (r: Result<Vec<u8>, Error>)
        ensures
            final(self).bytes() == old(self).bytes(),
            match literal_scan(old(self).bytes(), old(self).position(), 0, Seq::empty()) {
                Some((out, end)) => r matches Ok(v) && v@ == out && final(self).position() == end,
                None => r == Err::<Vec<u8>, Error>(Error::UnexpectedEof),
            },
    {
        proof { use_type_invariant(&*self); }
        let ghost s = self.input@;
        let ghost start = self.pos as int;
        let mut out: Vec<u8> = Vec::new();
        let mut extra: usize = 0;
        let len = self.input.len();
        loop
            invariant
                self.input@ == s,
                s == old(self).bytes(),
                start == old(self).position(),
                len == s.len(),
                start <= self.pos <= len,
                extra <= self.pos - start,
                literal_scan(s, self.pos as int, extra as nat, out@) == literal_scan(
                    s,
                    start,
                    0,
                    Seq::empty(),
                ),
            decreases len - self.pos,
        {
            if self.pos >= len {
                return Err(Error::UnexpectedEof);
            }
            let b = self.input[self.pos];
            if b == 92 {
                if self.pos + 1 >= len {
                    return Err(Error::UnexpectedEof);
                }
                let e = self.input[self.pos + 1];
                if e == 110 || e == 114 || e == 116 || e == 98 || e == 102 || e == 40 || e == 41
                    || e == 92 {
                    let v: u8 = if e == 110 {
                        10
                    } else if e == 114 {
                        13
                    } else if e == 116 {
                        9
                    } else if e == 98 {
                        8
                    } else if e == 102 {
                        12
                    } else {
                        e
                    };
                    out.push(v);
                    self.pos = self.pos + 2;
                } else if e == 13 {
                    if self.pos + 2 < len && self.input[self.pos + 2] == 10 {
                        self.pos = self.pos + 3;
                    } else {
                        self.pos = self.pos + 2;
                    }
                } else if e == 10 {
                    self.pos = self.pos + 2;
                } else if 48 <= e && e <= 55 {
                    let mut v: u32 = (e - 48) as u32;
                    let mut p = self.pos + 2;
                    let mut k: usize = 0;
                    while k < 2 && p < len && 48 <= self.input[p] && self.input[p] <= 55
                        invariant
                            self.input@ == s,
                            len == s.len(),
                            k <= 2,
                            p == self.pos + 2 + k,
                            self.pos + 2 <= p <= len,
                            v < if k == 0 {
                                8u32
                            } else if k == 1 {
                                64u32
                            } else {
                                512u32
                            },
                            octal_from(s, p as int, v as nat, (2 - k) as nat) == octal_from(
                                s,
                                self.pos + 2,
                                (e - 48) as nat,
                                2,
                            ),
                        decreases 2 - k,
                    {
                        v = v * 8 + (self.input[p] - 48) as u32;
                        p = p + 1;
                        k = k + 1;
                    }
                    proof {
                        lemma_octal_from(s, self.pos + 2, (e - 48) as nat);
                    }
                    out.push((v % 256) as u8);
                    self.pos = p;
                } else {
                    out.push(e);
                    self.pos = self.pos + 2;
                }
            } else if b == 40 {
                out.push(b);
                extra = extra + 1;
                self.pos = self.pos + 1;
            } else if b == 41 {
                if extra == 0 {
                    self.pos = self.pos + 1;
                    return Ok(out);
                }
                out.push(b);
                extra = extra - 1;
                self.pos = self.pos + 1;
            } else if b == 13 {
                out.push(10);
                if self.pos + 1 < len && self.input[self.pos + 1] == 10 {
                    self.pos = self.pos + 2;
                } else {
                    self.pos = self.pos + 1;
                }
            } else {
                out.push(b);
                self.pos = self.pos + 1;
            }
        }
    }

    /// Read a hexadecimal string whose opening `<` was just consumed
    /// (ISO 32000-2, 7.3.4.3): its bytes, the cursor after `>`. Whitespace
    /// is ignored and an odd last digit is followed by 0. `UnexpectedEof`
    /// when the input ends first; a syntax error, at the first digit's
    /// offset, at a byte that is no hexadecimal digit.
    pub fn hex_string(&mut self) -> (r: Result<Vec<u8>, Error>)
        ensures
            final(self).bytes() == old(self).bytes(),
            match hex_string_scan(old(self).bytes(), old(self).position(), None, Seq::empty()) {
                Ok((out, end)) => r matches Ok(v) && v@ == out && final(self).position() == end,
                Err(true) => r == Err::<Vec<u8>, Error>(Error::UnexpectedEof),
                Err(false) => r matches Err(Error::Syntax { offset, message }) && offset
                    == old(self).position() && message@ == "non-hex byte in hex string"@,
            },
    {
        proof { use_type_invariant(&*self); }
        let ghost s = self.input@;
        let start = self.pos;
        let mut out: Vec<u8> = Vec::new();
        let mut pending: Option<u8> = None;
        let len = self.input.len();
        loop
            invariant
                self.input@ == s,
                s == old(self).bytes(),
                start == old(self).position(),
                len == s.len(),
                start <= self.pos <= len,
                pending matches Some(h) ==> h < 16,
                hex_string_scan(s, self.pos as int, pending, out@) == hex_string_scan(
                    s,
                    start as int,
                    None,
                    Seq::empty(),
                ),
            decreases len - self.pos,
        {
            if self.pos >= len {
                return Err(Error::UnexpectedEof);
            }
            let b = self.input[self.pos];
            self.pos = self.pos + 1;
            if b == 62 {
                if let Some(h) = pending {
                    out.push(h * 16);
                }
                return Ok(out);
            }
            if !is_whitespace(b) {
                match hex_value(b) {
                    None => {
                        return Err(
                            Error::Syntax {
                                offset: start,
                                message: string_of("non-hex byte in hex string"),
                            },
                        );
                    },
                    Some(v) => match pending {
                        None => {
                            pending = Some(v);
                        },
                        Some(h) => {
                            out.push(h * 16 + v);
                            pending = None;
                        },
                    },
                }
            }
        }
    }

    /// Read a name whose `/` was just consumed (ISO 32000-2, 7.3.5): its
    /// bytes, `#xx` decoded, the cursor on the byte that ends it.
    pub fn name(&mut self) -> (r: Vec<u8>)
        ensures
            final(self).bytes() == old(self).bytes(),
            (r@, final(self).position()) == name_scan(
                old(self).bytes(),
                old(self).position(),
                Seq::empty(),
            ),
    {
        proof { use_type_invariant(&*self); }
        let ghost s = self.input@;
        let ghost start = self.pos as int;
        let mut out: Vec<u8> = Vec::new();
        let len = self.input.len();
        while self.pos < len && is_regular(self.input[self.pos])
            invariant
                self.input@ == s,
                s == old(self).bytes(),
                start == old(self).position(),
                len == s.len(),
                self.pos <= len,
                name_scan(s, self.pos as int, out@) == name_scan(s, start, Seq::empty()),
            decreases len - self.pos,
        {
            let b = self.input[self.pos];
            if b == 35 && len - self.pos > 2 {
                let hi = hex_value(self.input[self.pos + 1]);
                let lo = hex_value(self.input[self.pos + 2]);
                if let (Some(h), Some(l)) = (hi, lo) {
                    out.push(h * 16 + l);
                    self.pos = self.pos + 3;
                } else {
                    out.push(b);
                    self.pos = self.pos + 1;
                }
            } else {
                out.push(b);
                self.pos = self.pos + 1;
            }
        }
        out
    }

    /// Read a bare keyword under the cursor: the run of regular bytes.
    /// When there is none, the byte under the cursor is a delimiter no
    /// token starts with: it is consumed, so that reading progresses, and
    /// refused.
    pub fn keyword(&mut self) -> (r: Result<Vec<u8>, Error>)
        requires
            old(self).position() < old(self).bytes().len(),
        ensures
            final(self).bytes() == old(self).bytes(),
            ({
                let start = old(self).position();
                let end = regular_end(old(self).bytes(), start);
                if end == start {
                    &&& final(self).position() == start + 1
                    &&& r matches Err(Error::Syntax { offset, message }) && offset == start
                        && message@ == "unexpected delimiter"@
                } else {
                    &&& final(self).position() == end
                    &&& r matches Ok(v) && v@ == old(self).bytes().subrange(start, end)
                }
            }),
    {
        proof { use_type_invariant(&*self); }
        let ghost s = self.input@;
        let start = self.pos;
        let len = self.input.len();
        proof {
            lemma_regular_end(s, start as int);
        }
        while self.pos < len && is_regular(self.input[self.pos])
            invariant
                self.input@ == s,
                s == old(self).bytes(),
                start == old(self).position(),
                len == s.len(),
                start <= self.pos <= len,
                regular_end(s, self.pos as int) == regular_end(s, start as int),
            decreases len - self.pos,
        {
            self.pos = self.pos + 1;
        }
        if self.pos == start {
            self.pos = self.pos + 1;
            return Err(Error::Syntax { offset: start, message: string_of("unexpected delimiter") });
        }
        Ok(crate::bytes::to_vec(vstd::slice::slice_subrange(self.input, start, self.pos)))
    }

    /// Read a number token under the cursor (ISO 32000-2, 7.3.3).
    fn number(&mut self) -> (r: Result<Token, Error>)
        requires
            old(self).position() < old(self).bytes().len(),
        ensures
            final(self).bytes() == old(self).bytes(),
            token_result(r, number_at(old(self).bytes(), old(self).position()).0),
            final(self).position() == number_at(old(self).bytes(), old(self).position()).1,
    {
        proof { use_type_invariant(&*self); }
        let ghost s = self.input@;
        let start = self.pos;
        let len = self.input.len();
        proof {
            lemma_regular_end(s, start as int);
        }
        while self.pos < len && is_regular(self.input[self.pos])
            invariant
                self.input@ == s,
                s == old(self).bytes(),
                start == old(self).position(),
                len == s.len(),
                start <= self.pos <= len,
                regular_end(s, self.pos as int) == regular_end(s, start as int),
            decreases len - self.pos,
        {
            self.pos = self.pos + 1;
        }
        let text = vstd::slice::slice_subrange(self.input, start, self.pos);
        let t = match utf8_text(text) {
            None => {
                return Err(Error::Syntax { offset: start, message: string_of("non-ASCII number") });
            },
            Some(t) => t,
        };
        let mut has_dot = false;
        let mut k: usize = 0;
        while k < text.len()
            invariant
                k <= text@.len(),
                has_dot == exists|i: int| 0 <= i < k && #[trigger] text@[i] == 46u8,
            decreases text@.len() - k,
        {
            if text[k] == 46 {
                has_dot = true;
            }
            k = k + 1;
        }
        assert(has_dot == text@.contains(46u8));
        if !has_dot {
            if let Some(i) = parse_i64_bytes(text) {
                return Ok(Token::Integer(i));
            }
        }
        let cleaned = real_text_of(text);
        if real_ok(cleaned.as_slice()) {
            Ok(Token::Real(cleaned))
        } else {
            let mut message = string_of("bad number ");
            let quoted = debug_string(t);
            push_str(&mut message, quoted.as_str());
            Err(Error::Syntax { offset: start, message })
        }
    }

    /// Read the next token (ISO 32000-2, 7.2 and 7.3), after whitespace
    /// and comments. At the end of the input the token is [`Token::Eof`].
    pub fn next_token(&mut self) -> (r: Result<Token, Error>)
        ensures
            final(self).bytes() == old(self).bytes(),
            token_result(r, token_at(old(self).bytes(), old(self).position()).0),
            r is Ok ==> final(self).position() == token_at(old(self).bytes(), old(self).position()).1,
    {
        self.skip_whitespace_and_comments();
        proof { use_type_invariant(&*self); }
        let len = self.input.len();
        let start = self.pos;
        let b = match self.peek() {
            None => {
                return Ok(Token::Eof);
            },
            Some(b) => b,
        };
        if b == 91 {
            self.pos = self.pos + 1;
            Ok(Token::ArrayOpen)
        } else if b == 93 {
            self.pos = self.pos + 1;
            Ok(Token::ArrayClose)
        } else if b == 123 {
            self.pos = self.pos + 1;
            Ok(Token::BraceOpen)
        } else if b == 125 {
            self.pos = self.pos + 1;
            Ok(Token::BraceClose)
        } else if b == 60 {
            if self.peek_at(1) == Some(60u8) {
                self.pos = self.pos + 2;
                Ok(Token::DictOpen)
            } else {
                self.pos = self.pos + 1;
                match self.hex_string() {
                    Ok(v) => Ok(Token::HexString(v)),
                    Err(e) => Err(e),
                }
            }
        } else if b == 62 {
            if self.peek_at(1) == Some(62u8) {
                self.pos = self.pos + 2;
                Ok(Token::DictClose)
            } else {
                Err(Error::Syntax { offset: start, message: string_of("stray '>'") })
            }
        } else if b == 40 {
            self.pos = self.pos + 1;
            match self.literal_string() {
                Ok(v) => Ok(Token::LiteralString(v)),
                Err(e) => Err(e),
            }
        } else if b == 47 {
            self.pos = self.pos + 1;
            Ok(Token::Name(self.name()))
        } else if b == 41 {
            Err(Error::Syntax { offset: start, message: string_of("stray ')'") })
        } else if b == 43 || b == 45 || b == 46 || (48 <= b && b <= 57) {
            self.number()
        } else {
            match self.keyword() {
                Ok(v) => Ok(Token::Keyword(v)),
                Err(e) => Err(e),
            }
        }
    }
}

} // verus!
