//! Standard stream filters (ISO 32000-2, 7.4): `ASCIIHexDecode` (7.4.2),
//! `ASCII85Decode` (7.4.3), `RunLengthDecode` (7.4.5), `FlateDecode`
//! (7.4.4) and the TIFF and PNG predictors (7.4.4.4).
//!
//! Every decoder is bounded where the output can outgrow the input: the
//! amount of decoded data never exceeds [`DecodeLimits::max_output`],
//! whatever the input claims ([`Error::LimitExceeded`]).

use std::io::Read;

use vstd::prelude::*;

use crate::lexer::{is_whitespace, spec_is_whitespace};
use crate::Error;

verus! {

/// Default ceiling on decoded data: 256 MiB.
pub const DEFAULT_MAX_OUTPUT: usize = 268435456;

/// Bounds applied while decoding (protection against hostile files).
#[derive(Debug, Clone, Copy, PartialEq, Eq)]
pub struct DecodeLimits {
    /// Maximum size, in bytes, of the output of any single filter stage.
    pub max_output: usize,
}

impl Default for DecodeLimits {
    /// 256 MiB of output per stage.
    fn default() -> (r: DecodeLimits)
        ensures
            r.max_output == DEFAULT_MAX_OUTPUT,
    {
        DecodeLimits { max_output: DEFAULT_MAX_OUTPUT }
    }
}

/// The error of a decoder whose output would pass the limit.
pub(crate) fn limit(limits: DecodeLimits, what: &'static str) -> (e: Error)
    ensures
        e == (Error::LimitExceeded { limit: limits.max_output, what }),
{
    Error::LimitExceeded { limit: limits.max_output, what }
}

/// The error of an undecodable input.
pub(crate) fn filter_error(filter: &str, message: &str) -> (e: Error)
    ensures
        e matches Error::Filter { filter: f, .. } && f@ == filter@,
{
    Error::Filter { filter: filter.to_owned(), message: message.to_owned() }
}

/// First position at or after `from` where `s` holds `b`, or the length.
pub open spec fn first_from(s: Seq<u8>, b: u8, from: int) -> int
    decreases s.len() - from,
{
    if from >= s.len() {
        s.len() as int
    } else if s[from] == b {
        from
    } else {
        first_from(s, b, from + 1)
    }
}

/// First position at or after `from` that holds no whitespace, or the length.
pub open spec fn first_non_whitespace(s: Seq<u8>, from: int) -> int
    decreases s.len() - from,
{
    if from >= s.len() {
        s.len() as int
    } else if !spec_is_whitespace(s[from]) {
        from
    } else {
        first_non_whitespace(s, from + 1)
    }
}

pub proof fn lemma_first_from_bounds(s: Seq<u8>, b: u8, from: int)
    requires
        0 <= from <= s.len(),
    ensures
        from <= first_from(s, b, from) <= s.len(),
        first_from(s, b, from) < s.len() ==> s[first_from(s, b, from)] == b,
        forall|k: int| from <= k < first_from(s, b, from) ==> s[k] != b,
    decreases s.len() - from,
{
    if from < s.len() && s[from] != b {
        lemma_first_from_bounds(s, b, from + 1);
    }
}

pub proof fn lemma_first_non_whitespace_bounds(s: Seq<u8>, from: int)
    requires
        0 <= from <= s.len(),
    ensures
        from <= first_non_whitespace(s, from) <= s.len(),
        first_non_whitespace(s, from) < s.len() ==> !spec_is_whitespace(
            s[first_non_whitespace(s, from)],
        ),
        forall|k: int| from <= k < first_non_whitespace(s, from) ==> spec_is_whitespace(s[k]),
    decreases s.len() - from,
{
    if from < s.len() && spec_is_whitespace(s[from]) {
        lemma_first_non_whitespace_bounds(s, from + 1);
    }
}

// ---------------------------------------------------------------------------
// ASCIIHexDecode (ISO 32000-2, 7.4.2)
// ---------------------------------------------------------------------------

/// Value of a hexadecimal digit, either case.
pub open spec fn spec_hex_digit(b: u8) -> Option<u8> {
    if 48u8 <= b <= 57u8 {
        Some((b - 48u8) as u8)
    } else if 97u8 <= b <= 102u8 {
        Some((b - 87u8) as u8)
    } else if 65u8 <= b <= 70u8 {
        Some((b - 55u8) as u8)
    } else {
        None
    }
}

/// The byte made of a high and a low nibble.
pub open spec fn nibbles(high: u8, low: u8) -> u8 {
    (high as int * 16 + low as int) as u8
}

/// Bytes decoded from the hex digits of `s`, and the pending high nibble
/// of an unfinished pair. Bytes that are not hex digits are skipped.
pub open spec fn hex_scan(s: Seq<u8>) -> (Seq<u8>, Option<u8>)
    decreases s.len(),
{
    if s.len() == 0 {
        (Seq::empty(), None)
    } else {
        let (out, high) = hex_scan(s.drop_last());
        match spec_hex_digit(s.last()) {
            None => (out, high),
            Some(d) => match high {
                None => (out, Some(d)),
                Some(h) => (out.push(nibbles(h, d)), None),
            },
        }
    }
}

/// `ASCIIHexDecode`: the hex digits up to the first `>`, in pairs; an odd
/// final digit is the high nibble of a last byte whose low nibble is 0.
pub open spec fn spec_ascii_hex_decode(data: Seq<u8>) -> Seq<u8> {
    let (out, high) = hex_scan(data.take(first_from(data, 62u8, 0)));
    match high {
        None => out,
        Some(h) => out.push(nibbles(h, 0)),
    }
}

proof fn lemma_nibbles(h: u8, d: u8)
    requires
        h < 16,
        d < 16,
    ensures
        (h << 4u8) | d == nibbles(h, d),
        h << 4u8 == nibbles(h, 0),
{
    assert((h << 4u8) | d == (h * 16 + d) as u8) by (bit_vector)
        requires
            h < 16,
            d < 16,
    ;
    assert(h << 4u8 == (h * 16) as u8) by (bit_vector)
        requires
            h < 16,
    ;
}

/// Value of the hexadecimal digit `b`, `None` for any other byte.
fn hex_digit(b: u8) -> (r: Option<u8>)
    ensures
        r == spec_hex_digit(b),
        r matches Some(v) ==> v < 16,
{
    if 48 <= b && b <= 57 {
        Some(b - 48)
    } else if 97 <= b && b <= 102 {
        Some(b - 87)
    } else if 65 <= b && b <= 70 {
        Some(b - 55)
    } else {
        None
    }
}

/// Decode hexadecimal text up to the `>` end-of-data marker. Whitespace is
/// skipped; so is any other non-hex byte (tolerance, as pdf.js does). An odd
/// trailing digit is taken as the high nibble of a final byte.
pub fn ascii_hex_decode(data: &[u8]) -> (out: Vec<u8>)
    ensures
        out@ == spec_ascii_hex_decode(data@),
{
    let mut out: Vec<u8> = Vec::new();
    let mut high: Option<u8> = None;
    let mut i: usize = 0;
    proof { lemma_first_from_bounds(data@, 62u8, 0); }
    while i < data.len()
        invariant
            i <= data.len(),
            first_from(data@, 62u8, 0) == first_from(data@, 62u8, i as int),
            (out@, high) == hex_scan(data@.take(i as int)),
            high matches Some(h) ==> h < 16,
        ensures
            i == first_from(data@, 62u8, 0),
            (out@, high) == hex_scan(data@.take(i as int)),
            high matches Some(h) ==> h < 16,
        decreases data.len() - i,
    {
        let b = data[i];
        if b == 62 {
            break;
        }
        assert(data@.take(i + 1).drop_last() =~= data@.take(i as int));
        match hex_digit(b) {
            None => {},
            Some(d) => match high {
                None => {
                    high = Some(d);
                },
                Some(h) => {
                    proof { lemma_nibbles(h, d); }
                    out.push((h << 4) | d);
                    high = None;
                },
            },
        }
        i = i + 1;
    }
    if let Some(h) = high {
        proof { lemma_nibbles(h, 0); }
        out.push(h << 4);
    }
    out
}

// ---------------------------------------------------------------------------
// ASCII85Decode (ISO 32000-2, 7.4.3)
// ---------------------------------------------------------------------------

/// The four bytes of `v`, most significant first.
pub open spec fn be4(v: int) -> Seq<u8> {
    seq![(v / 16777216) as u8, ((v / 65536) % 256) as u8, ((v / 256) % 256) as u8, (v % 256) as u8]
}

/// One step of base-85 decoding: the output so far, the value of the
/// current group and how many of its digits were read, then byte `b`.
/// `None` for a byte that has no place here or a group above 2^32 - 1.
#[verifier::opaque]
pub open spec fn a85_step(out: Seq<u8>, acc: int, count: int, b: u8) -> Option<(Seq<u8>, int, int)> {
    if b == 122u8 {
        if count == 0 {
            Some((out + seq![0u8, 0u8, 0u8, 0u8], acc, count))
        } else {
            None
        }
    } else if 33u8 <= b <= 117u8 {
        let v = acc * 85 + (b - 33);
        if v > u32::MAX {
            None
        } else if count + 1 == 5 {
            Some((out + be4(v), 0, 0))
        } else {
            Some((out, v, count + 1))
        }
    } else if spec_is_whitespace(b) {
        Some((out, acc, count))
    } else {
        None
    }
}

/// Base-85 decoding of `s`, group by group, without the final partial group.
#[verifier::opaque]
pub open spec fn a85_scan(s: Seq<u8>) -> Option<(Seq<u8>, int, int)>
    decreases s.len(),
{
    if s.len() == 0 {
        Some((Seq::empty(), 0, 0))
    } else {
        match a85_scan(s.drop_last()) {
            None => None,
            Some((out, acc, count)) => a85_step(out, acc, count, s.last()),
        }
    }
}

/// The value of a partial group completed by `k` digits `u` (84).
#[verifier::opaque]
pub open spec fn a85_pad(acc: int, k: int) -> Option<int>
    decreases k,
{
    if k <= 0 {
        Some(acc)
    } else {
        match a85_pad(acc, k - 1) {
            None => None,
            Some(a) => if a * 85 + 84 > u32::MAX {
                None
            } else {
                Some(a * 85 + 84)
            },
        }
    }
}

/// The body of base-85 data: leading whitespace and a `<~` prefix dropped.
pub open spec fn a85_body_start(data: Seq<u8>) -> int {
    let start = first_non_whitespace(data, 0);
    if start + 2 <= data.len() && data[start] == 60u8 && data[start + 1] == 126u8 {
        start + 2
    } else {
        start
    }
}

/// `ASCII85Decode` of `data`, `None` when it cannot be decoded.
pub open spec fn spec_ascii85_decode(data: Seq<u8>) -> Option<Seq<u8>> {
    let body = data.skip(a85_body_start(data));
    match a85_scan(body.take(first_from(body, 126u8, 0))) {
        None => None,
        Some((out, acc, count)) => a85_finish(out, acc, count),
    }
}

/// The output once the final partial group, if any, is completed with `u`
/// digits: a partial group of `n` digits gives `n - 1` bytes.
pub open spec fn a85_finish(out: Seq<u8>, acc: int, count: int) -> Option<Seq<u8>> {
    if count == 0 {
        Some(out)
    } else if count == 1 {
        None
    } else {
        match a85_pad(acc, 5 - count) {
            None => None,
            Some(v) => Some(out + be4(v).take(count - 1)),
        }
    }
}

proof fn lemma_a85_pad_none(acc: int, j: int, m: int)
    requires
        0 <= j <= m,
        a85_pad(acc, j) is None,
    ensures
        a85_pad(acc, m) is None,
    decreases m - j,
{
    reveal(a85_pad);
    if j < m {
        lemma_a85_pad_none(acc, j, m - 1);
    }
}

proof fn lemma_a85_pad_next(acc: int, k: int)
    requires
        0 <= k,
    ensures
        a85_pad(acc, k + 1) == match a85_pad(acc, k) {
            None => None,
            Some(a) => if a * 85 + 84 > u32::MAX {
                None
            } else {
                Some(a * 85 + 84)
            },
        },
        a85_pad(acc, 0) == Some(acc),
{
    reveal(a85_pad);
}

/// The four bytes of `v`, most significant first.
fn push_be4(out: &mut Vec<u8>, v: u32, n: usize)
    requires
        n <= 4,
    ensures
        final(out)@ == old(out)@ + be4(v as int).take(n as int),
{
    let bytes: [u8; 4] = [
        (v / 16777216) as u8,
        ((v / 65536) % 256) as u8,
        ((v / 256) % 256) as u8,
        (v % 256) as u8,
    ];
    let ghost start = out@;
    let mut k: usize = 0;
    while k < n
        invariant
            k <= n <= 4,
            bytes@ == be4(v as int),
            out@ == start + be4(v as int).take(k as int),
        decreases n - k,
    {
        out.push(bytes[k]);
        assert(be4(v as int).take(k + 1) =~= be4(v as int).take(k as int).push(bytes@[k as int]));
        k = k + 1;
    }
}

proof fn lemma_a85_scan_next(body: Seq<u8>, n: int)
    requires
        0 <= n < body.len(),
    ensures
        a85_scan(body.take(n + 1)) == match a85_scan(body.take(n)) {
            None => None,
            Some((out, acc, count)) => a85_step(out, acc, count, body[n]),
        },
{
    reveal(a85_scan);
    assert(body.take(n + 1).drop_last() =~= body.take(n));
}

proof fn lemma_a85_scan_none(body: Seq<u8>, j: int, m: int)
    requires
        0 <= j <= m <= body.len(),
        a85_scan(body.take(j)) is None,
    ensures
        a85_scan(body.take(m)) is None,
    decreases m - j,
{
    if j < m {
        lemma_a85_scan_none(body, j, m - 1);
        lemma_a85_scan_next(body, m - 1);
    }
}

proof fn lemma_a85_scan_empty(body: Seq<u8>)
    ensures
        a85_scan(body.take(0)) == Some((Seq::<u8>::empty(), 0int, 0int)),
{
    reveal(a85_scan);
    assert(body.take(0) =~= Seq::<u8>::empty());
}

/// One byte of base-85 data outside the end marker, as [`a85_step`]
/// states it; `Err` with the reason when the byte cannot be decoded.
fn a85_byte(out: &mut Vec<u8>, acc: &mut u32, count: &mut usize, b: u8) -> (r: Result<(), &'static str>)
    requires
        *old(count) < 5,
    ensures
        r is Ok <==> a85_step(old(out)@, *old(acc) as int, *old(count) as int, b) is Some,
        r is Ok ==> a85_step(old(out)@, *old(acc) as int, *old(count) as int, b) == Some(
            (final(out)@, *final(acc) as int, *final(count) as int),
        ),
        *final(count) < 5,
{
    reveal(a85_step);
    if b == 122 {
        if *count == 0 {
            out.push(0);
            out.push(0);
            out.push(0);
            out.push(0);
            assert(out@ =~= old(out)@ + seq![0u8, 0u8, 0u8, 0u8]);
            Ok(())
        } else {
            Err("`z` inside a group")
        }
    } else if 33 <= b && b <= 117 {
        let digit = (b - 33) as u32;
        // 50529027 * 85 = 4294967295 = 2^32 - 1
        if *acc > 50529027 || (*acc == 50529027 && digit > 0) {
            return Err("group value exceeds 2^32");
        }
        *acc = *acc * 85 + digit;
        *count = *count + 1;
        if *count == 5 {
            push_be4(out, *acc, 4);
            assert(be4(*acc as int).take(4) =~= be4(*acc as int));
            *acc = 0;
            *count = 0;
        }
        Ok(())
    } else if is_whitespace(b) {
        Ok(())
    } else {
        Err("byte outside the `!`..`u` range")
    }
}

/// Decode base-85 text up to the `~>` end-of-data marker. Tolerates
/// leading whitespace, a leading `<~` (the Adobe convention outside PDF)
/// and a missing marker.
pub fn ascii85_decode(data: &[u8]) -> (r: Result<Vec<u8>, Error>)
    ensures
        match r {
            Ok(out) => spec_ascii85_decode(data@) == Some(out@),
            Err(e) => spec_ascii85_decode(data@) is None && (e matches Error::Filter {
                filter: f,
                ..
            } && f@ == "ASCII85Decode"@),
        },
{
    let len = data.len();
    let mut start: usize = 0;
    while start < len && is_whitespace(data[start])
        invariant
            start <= len == data@.len(),
            first_non_whitespace(data@, 0) == first_non_whitespace(data@, start as int),
        decreases len - start,
    {
        start = start + 1;
    }
    if len - start >= 2 && data[start] == 60 && data[start + 1] == 126 {
        start = start + 2;
    }
    let ghost body = data@.skip(start as int);
    assert(start as int == a85_body_start(data@));
    let mut out: Vec<u8> = Vec::new();
    let mut acc: u32 = 0;
    let mut count: usize = 0;
    let mut i: usize = start;
    proof {
        lemma_first_from_bounds(body, 126u8, 0);
        lemma_a85_scan_empty(body);
    }
    while i < len
        invariant
            start <= i <= len == data@.len(),
            body == data@.skip(start as int),
            start as int == a85_body_start(data@),
            first_from(body, 126u8, 0) == first_from(body, 126u8, i - start),
            a85_scan(body.take(i - start)) == Some((out@, acc as int, count as int)),
            count < 5,
        ensures
            start <= i <= len,
            i - start == first_from(body, 126u8, 0),
            a85_scan(body.take(i - start)) == Some((out@, acc as int, count as int)),
            count < 5,
        decreases len - i,
    {
        let b = data[i];
        if b == 126 {
            break;
        }
        proof { lemma_a85_scan_next(body, i - start); }
        assert(body[i - start] == b);
        if let Err(message) = a85_byte(&mut out, &mut acc, &mut count, b) {
            proof {
                lemma_first_from_bounds(body, 126u8, i - start);
                lemma_a85_scan_none(body, i - start + 1, first_from(body, 126u8, 0));
            }
            return Err(filter_error("ASCII85Decode", message));
        }
        i = i + 1;
    }
    let ghost scanned = body.take(first_from(body, 126u8, 0));
    assert(spec_ascii85_decode(data@) == a85_finish(out@, acc as int, count as int));
    if count == 0 {
        return Ok(out);
    }
    if count == 1 {
        return Err(filter_error("ASCII85Decode", "final group has a single character"));
    }
    // Final partial group: pad with `u`, keep count - 1 bytes.
    let ghost acc0 = acc as int;
    proof { lemma_a85_pad_next(acc0, 0); }
    let mut k: usize = count;
    while k < 5
        invariant
            2 <= count <= k <= 5,
            a85_pad(acc0, (k - count) as int) == Some(acc as int),
            spec_ascii85_decode(data@) == a85_finish(out@, acc0, count as int),
        decreases 5 - k,
    {
        // 50529026 * 85 + 84 = 4294967294 < 2^32; one more is too many.
        proof { lemma_a85_pad_next(acc0, (k - count) as int); }
        if acc > 50529026 {
            proof { lemma_a85_pad_none(acc0, (k - count + 1) as int, (5 - count) as int); }
            return Err(filter_error("ASCII85Decode", "group value exceeds 2^32"));
        }
        acc = acc * 85 + 84;
        k = k + 1;
    }
    push_be4(&mut out, acc, count - 1);
    Ok(out)
}

// ---------------------------------------------------------------------------
// RunLengthDecode (ISO 32000-2, 7.4.5)
// ---------------------------------------------------------------------------

/// Run-length decoding of `s` from position `i`: a length byte `n` below
/// 128 copies the next `n + 1` bytes (as many as there are), one above 128
/// repeats the next byte `257 - n` times (nothing when there is none),
/// 128 ends the data.
pub open spec fn rl_from(s: Seq<u8>, i: int) -> Seq<u8>
    decreases s.len() - i,
{
    if i < 0 || i >= s.len() {
        Seq::empty()
    } else if s[i] == 128u8 {
        Seq::empty()
    } else if s[i] < 128u8 {
        if i + 2 + s[i] <= s.len() {
            s.subrange(i + 1, i + 2 + s[i]) + rl_from(s, i + 2 + s[i])
        } else {
            s.subrange(i + 1, s.len() as int)
        }
    } else if i + 1 >= s.len() {
        Seq::empty()
    } else {
        Seq::new((257 - s[i]) as nat, |k: int| s[i + 1]) + rl_from(s, i + 2)
    }
}

/// `RunLengthDecode` of `data`, without any bound on its size.
pub open spec fn spec_run_length_decode(data: Seq<u8>) -> Seq<u8> {
    rl_from(data, 0)
}

/// Decode run-length data up to the 128 end-of-data byte. A run cut short
/// by the end of input yields what was there (tolerance). Output is bounded
/// by `limits.max_output`: a run byte expands 128-fold.
pub fn run_length_decode(data: &[u8], limits: DecodeLimits) -> (r: Result<Vec<u8>, Error>)
    ensures
        r is Ok <==> spec_run_length_decode(data@).len() <= limits.max_output,
        r matches Ok(out) ==> out@ == spec_run_length_decode(data@),
        r matches Err(e) ==> e == (Error::LimitExceeded {
            limit: limits.max_output,
            what: "RunLengthDecode output",
        }),
{
    let ghost total = spec_run_length_decode(data@);
    let len = data.len();
    let mut out: Vec<u8> = Vec::new();
    let mut i: usize = 0;
    while i < len
        invariant
            i <= len == data@.len(),
            out@ + rl_from(data@, i as int) == total,
            total == spec_run_length_decode(data@),
            out@.len() <= limits.max_output,
        ensures
            out@ == total,
            out@.len() <= limits.max_output,
        decreases len - i,
    {
        let length = data[i];
        if length == 128 {
            assert(out@ =~= total);
            break;
        }
        let ghost before = out@;
        if length < 128 {
            let n = length as usize + 1;
            let end = if n <= len - (i + 1) { i + 1 + n } else { len };
            let mut j: usize = i + 1;
            while j < end
                invariant
                    i + 1 <= j <= end <= len == data@.len(),
                    out@ == before + data@.subrange(i + 1, j as int),
                decreases end - j,
            {
                out.push(data[j]);
                assert(data@.subrange(i + 1, j + 1) =~= data@.subrange(i + 1, j as int).push(data@[j as int]));
                j = j + 1;
            }
            assert(out@ + rl_from(data@, end as int) =~= before + rl_from(data@, i as int));
            i = end;
        } else {
            if len - i < 2 {
                assert(out@ =~= total);
                break;
            }
            let b = data[i + 1];
            let n = 257 - length as usize;
            let mut k: usize = 0;
            while k < n
                invariant
                    k <= n == 257 - length,
                    out@ == before + Seq::new(k as nat, |x: int| b),
                decreases n - k,
            {
                out.push(b);
                assert(Seq::new((k + 1) as nat, |x: int| b) =~= Seq::new(k as nat, |x: int| b).push(b));
                k = k + 1;
            }
            assert(Seq::new(n as nat, |x: int| b) =~= Seq::new((257 - data@[i as int]) as nat, |x: int| data@[i + 1]));
            assert(out@ + rl_from(data@, i + 2) =~= before + rl_from(data@, i as int));
            i = i + 2;
        }
        if out.len() > limits.max_output {
            assert(total.len() >= out@.len());
            return Err(limit(limits, "RunLengthDecode output"));
        }
    }
    Ok(out)
}

// ---------------------------------------------------------------------------
// Predictors (ISO 32000-2, 7.4.4.4)
// ---------------------------------------------------------------------------

/// Predictor parameters from `/DecodeParms` (ISO 32000-2, table 8).
#[derive(Debug, Clone, Copy, PartialEq, Eq)]
pub struct Predictor {
    /// 1 (none), 2 (TIFF) or 10 to 15 (PNG).
    pub predictor: u8,
    /// Interleaved colour components per sample (`/Colors`, default 1).
    pub colors: usize,
    /// Bits per component: 1, 2, 4, 8 or 16 (`/BitsPerComponent`, default 8).
    pub bits_per_component: usize,
    /// Samples per row (`/Columns`, default 1).
    pub columns: usize,
}

/// Upper bound on `/Colors`. The standard allows more than 4 since PDF 1.5
/// but gives no maximum; this keeps row sizes sane on hostile input.
pub const MAX_COLORS: usize = 256;

/// The Paeth predictor of the PNG specification (filter type 4): of the
/// left, upper and upper-left bytes, the one closest to `a + b - c`.
pub open spec fn spec_paeth(a: u8, b: u8, c: u8) -> u8 {
    let p = a + b - c;
    let pa = if p >= a { p - a } else { a - p };
    let pb = if p >= b { p - b } else { b - p };
    let pc = if p >= c { p - c } else { c - p };
    if pa <= pb && pa <= pc {
        a
    } else if pb <= pc {
        b
    } else {
        c
    }
}

/// Paeth predictor (PNG specification, filter type 4).
fn paeth(a: u8, b: u8, c: u8) -> (r: u8)
    ensures
        r == spec_paeth(a, b, c),
{
    let p = a as i16 + b as i16 - c as i16;
    let pa = if p >= a as i16 { p - a as i16 } else { a as i16 - p };
    let pb = if p >= b as i16 { p - b as i16 } else { b as i16 - p };
    let pc = if p >= c as i16 { p - c as i16 } else { c as i16 - p };
    if pa <= pb && pa <= pc {
        a
    } else if pb <= pc {
        b
    } else {
        c
    }
}

/// The prediction of PNG filter type `ft` (0 to 4) from the byte `bpp`
/// to the left, the byte above and the byte above-left.
pub open spec fn png_predict(ft: u8, left: u8, up: u8, up_left: u8) -> u8 {
    if ft == 0u8 {
        0u8
    } else if ft == 1u8 {
        left
    } else if ft == 2u8 {
        up
    } else if ft == 3u8 {
        ((left + up) / 2) as u8
    } else {
        spec_paeth(left, up, up_left)
    }
}

/// A byte of `s`, 0 outside it.
pub open spec fn byte_or_zero(s: Seq<u8>, i: int) -> u8 {
    if 0 <= i < s.len() {
        s[i]
    } else {
        0u8
    }
}

/// The first `n` bytes of a PNG row of filter type `ft`, given the raw
/// bytes of the row and the decoded previous row.
#[verifier::opaque]
pub open spec fn png_cur(ft: u8, row: Seq<u8>, prev: Seq<u8>, bpp: int, n: int) -> Seq<u8>
    decreases n,
{
    if n <= 0 {
        Seq::empty()
    } else {
        let c = png_cur(ft, row, prev, bpp, n - 1);
        let i = n - 1;
        let left = byte_or_zero(c, i - bpp);
        let up = byte_or_zero(prev, i);
        let up_left = byte_or_zero(prev, i - bpp);
        c.push(((row[i] + png_predict(ft, left, up, up_left)) % 256) as u8)
    }
}

proof fn lemma_png_cur_next(ft: u8, row: Seq<u8>, prev: Seq<u8>, bpp: int, n: int)
    requires
        0 <= n,
    ensures
        png_cur(ft, row, prev, bpp, n).len() == n,
        png_cur(ft, row, prev, bpp, n + 1) == png_cur(ft, row, prev, bpp, n).push(
            ((row[n] + png_predict(
                ft,
                byte_or_zero(png_cur(ft, row, prev, bpp, n), n - bpp),
                byte_or_zero(prev, n),
                byte_or_zero(prev, n - bpp),
            )) % 256) as u8,
        ),
    decreases n,
{
    reveal(png_cur);
    if n > 0 {
        lemma_png_cur_next(ft, row, prev, bpp, n - 1);
    }
}

proof fn lemma_png_cur_empty(ft: u8, row: Seq<u8>, prev: Seq<u8>, bpp: int)
    ensures
        png_cur(ft, row, prev, bpp, 0) == Seq::<u8>::empty(),
{
    reveal(png_cur);
}

/// One decoded byte of a PNG row of filter type `ft` (0 to 4).
fn png_byte(ft: u8, raw: u8, left: u8, up: u8, up_left: u8) -> (r: u8)
    requires
        ft <= 4,
    ensures
        r == ((raw + png_predict(ft, left, up, up_left)) % 256) as u8,
{
    let predicted: u8 = if ft == 0 {
        0
    } else if ft == 1 {
        left
    } else if ft == 2 {
        up
    } else if ft == 3 {
        ((left as u16 + up as u16) / 2) as u8
    } else {
        paeth(left, up, up_left)
    };
    raw.wrapping_add(predicted)
}

/// A decoded PNG row; `None` for an unknown filter type on a row that has
/// bytes to decode.
pub open spec fn png_row(ft: u8, row: Seq<u8>, prev: Seq<u8>, bpp: int) -> Option<Seq<u8>> {
    if row.len() == 0 {
        Some(Seq::empty())
    } else if ft > 4 {
        None
    } else {
        Some(png_cur(ft, row, prev, bpp, row.len() as int))
    }
}

/// PNG decoding of `data` from `start`, in rows of `stride` bytes (type
/// byte included), the last one possibly shorter.
pub open spec fn png_from(data: Seq<u8>, start: int, stride: int, prev: Seq<u8>, bpp: int) -> Option<Seq<u8>>
    decreases data.len() - start,
{
    if start < 0 || start >= data.len() || stride <= 0 {
        Some(Seq::empty())
    } else {
        let end = if start + stride <= data.len() { start + stride } else { data.len() as int };
        let ft = data[start];
        let row = data.subrange(start + 1, end);
        match png_row(ft, row, prev, bpp) {
            None => None,
            Some(cur) => {
                let rest = if start + stride < data.len() {
                    png_from(data, start + stride, stride, cur, bpp)
                } else {
                    Some(Seq::empty())
                };
                match rest {
                    None => None,
                    Some(r) => Some(cur + r),
                }
            },
        }
    }
}

/// `out` followed by a decoding that may have failed.
pub open spec fn prepend(out: Seq<u8>, rest: Option<Seq<u8>>) -> Option<Seq<u8>> {
    match rest {
        None => None,
        Some(r) => Some(out + r),
    }
}

/// PNG predictors: each row starts with a filter-type byte, 0 to 4
/// (ISO 32000-2, table 10; PNG specification, "Filter Algorithms"). The
/// `/Predictor` value only sets the encoder's choice; the decoder reads the
/// type byte of every row.
fn png_unpredict(data: &[u8], row_len: usize, bpp: usize) -> (r: Result<Vec<u8>, Error>)
    requires
        row_len < usize::MAX,
        bpp >= 1,
    ensures
        match r {
            Ok(out) => png_from(data@, 0, row_len + 1, Seq::empty(), bpp as int) == Some(out@),
            Err(e) => png_from(data@, 0, row_len + 1, Seq::empty(), bpp as int) is None
                && (e matches Error::Filter { filter: f, .. } && f@ == "Predictor"@),
        },
{
    let ghost total = png_from(data@, 0, row_len + 1, Seq::empty(), bpp as int);
    let len = data.len();
    let stride = row_len + 1;
    let mut out: Vec<u8> = Vec::new();
    let mut prev: Vec<u8> = Vec::new();
    let mut start: usize = 0;
    assert(out@ + Seq::<u8>::empty() =~= out@);
    while start < len
        invariant
            start <= len == data@.len(),
            stride == row_len + 1,
            bpp >= 1,
            total == png_from(data@, 0, stride as int, Seq::empty(), bpp as int),
            total == prepend(out@, png_from(data@, start as int, stride as int, prev@, bpp as int)),
        decreases len - start,
    {
        let end = if stride <= len - start { start + stride } else { len };
        let ft = data[start];
        let ghost row = data@.subrange(start + 1, end as int);
        let mut cur: Vec<u8> = Vec::new();
        let mut i: usize = 0;
        let n = end - start - 1;
        if n > 0 && ft > 4 {
            assert(png_row(ft, row, prev@, bpp as int) is None);
            return Err(filter_error("Predictor", "unknown PNG filter type"));
        }
        proof { lemma_png_cur_empty(ft, row, prev@, bpp as int); }
        while i < n
            invariant
                i <= n == row.len(),
                end <= len == data@.len(),
                start + 1 + n == end,
                row == data@.subrange(start + 1, end as int),
                bpp >= 1,
                n == 0 || ft <= 4,
                cur@ == png_cur(ft, row, prev@, bpp as int, i as int),
                cur@.len() == i,
            decreases n - i,
        {
            let raw = data[start + 1 + i];
            assert(raw == row[i as int]);
            proof { lemma_png_cur_next(ft, row, prev@, bpp as int, i as int); }
            let left = if i >= bpp { cur[i - bpp] } else { 0 };
            let up = if i < prev.len() { prev[i] } else { 0 };
            let up_left = if i >= bpp && i - bpp < prev.len() { prev[i - bpp] } else { 0 };
            cur.push(png_byte(ft, raw, left, up, up_left));
            i = i + 1;
        }
        let ghost before = out@;
        let mut k: usize = 0;
        while k < cur.len()
            invariant
                k <= cur.len(),
                out@ == before + cur@.take(k as int),
            decreases cur.len() - k,
        {
            out.push(cur[k]);
            assert(cur@.take(k + 1) =~= cur@.take(k as int).push(cur@[k as int]));
            k = k + 1;
        }
        assert(cur@.take(cur.len() as int) =~= cur@);
        assert(png_row(ft, row, prev@, bpp as int) == Some(cur@));
        prev = cur;
        start = end;
        if start >= len {
            assert(out@ + Seq::<u8>::empty() =~= out@);
        }
    }
    Ok(out)
}

/// The first `n` bytes of an 8-bit TIFF row: each sample plus the
/// decoded sample of the same component to its left.
#[verifier::opaque]
pub open spec fn tiff8_cur(row: Seq<u8>, colors: int, n: int) -> Seq<u8>
    decreases n,
{
    if n <= 0 {
        Seq::empty()
    } else {
        let c = tiff8_cur(row, colors, n - 1);
        c.push(((row[n - 1] + byte_or_zero(c, n - 1 - colors)) % 256) as u8)
    }
}

proof fn lemma_tiff8_cur_next(row: Seq<u8>, colors: int, n: int)
    requires
        0 <= n,
    ensures
        tiff8_cur(row, colors, n).len() == n,
        tiff8_cur(row, colors, n + 1) == tiff8_cur(row, colors, n).push(
            ((row[n] + byte_or_zero(tiff8_cur(row, colors, n), n - colors)) % 256) as u8,
        ),
        tiff8_cur(row, colors, 0) == Seq::<u8>::empty(),
    decreases n,
{
    reveal(tiff8_cur);
    if n > 0 {
        lemma_tiff8_cur_next(row, colors, n - 1);
    }
}

/// A 16-bit sample of `s`, 0 outside it.
pub open spec fn word_or_zero(s: Seq<u16>, i: int) -> u16 {
    if 0 <= i < s.len() {
        s[i]
    } else {
        0u16
    }
}

/// The first `n` samples of a 16-bit TIFF row (big-endian byte pairs).
#[verifier::opaque]
pub open spec fn tiff16_cur(row: Seq<u8>, colors: int, n: int) -> Seq<u16>
    decreases n,
{
    if n <= 0 {
        Seq::empty()
    } else {
        let c = tiff16_cur(row, colors, n - 1);
        let raw = row[2 * (n - 1)] * 256 + row[2 * (n - 1) + 1];
        c.push(((raw + word_or_zero(c, n - 1 - colors)) % 65536) as u16)
    }
}

proof fn lemma_tiff16_cur_next(row: Seq<u8>, colors: int, n: int)
    requires
        0 <= n,
    ensures
        tiff16_cur(row, colors, n).len() == n,
        tiff16_cur(row, colors, n + 1) == tiff16_cur(row, colors, n).push(
            ((row[2 * n] * 256 + row[2 * n + 1] + word_or_zero(tiff16_cur(row, colors, n), n - colors))
                % 65536) as u16,
        ),
        tiff16_cur(row, colors, 0) == Seq::<u16>::empty(),
    decreases n,
{
    reveal(tiff16_cur);
    if n > 0 {
        lemma_tiff16_cur_next(row, colors, n - 1);
    }
}

/// 16-bit samples written back as big-endian byte pairs.
pub open spec fn be_words(words: Seq<u16>) -> Seq<u8>
    decreases words.len(),
{
    if words.len() == 0 {
        Seq::empty()
    } else {
        be_words(words.drop_last()) + seq![(words.last() / 256) as u8, (words.last() % 256) as u8]
    }
}

/// A 16-bit TIFF row: the decoded samples, then a dangling odd byte as is.
pub open spec fn tiff16_row(row: Seq<u8>, colors: int) -> Seq<u8> {
    be_words(tiff16_cur(row, colors, row.len() as int / 2)) + row.subrange(2 * (row.len() as int / 2), row.len() as int)
}

/// Mask of a sample of `bits` bits (1, 2 or 4).
pub open spec fn sample_mask(bits: int) -> u8 {
    if bits == 1 {
        1u8
    } else if bits == 2 {
        3u8
    } else {
        15u8
    }
}

/// Sample `j` of a row of `bits`-bit samples packed from the high bits of
/// each byte down.
pub open spec fn raw_sample(row: Seq<u8>, j: int, bits: int) -> u8 {
    let per_byte = 8int / bits;
    (row[j / per_byte] >> (((per_byte - 1 - j % per_byte) * bits) as u8)) & sample_mask(bits)
}

/// The first `n` decoded samples of a row of `bits`-bit samples.
#[verifier::opaque]
pub open spec fn tiffsub_cur(row: Seq<u8>, bits: int, colors: int, n: int) -> Seq<u8>
    decreases n,
{
    if n <= 0 {
        Seq::empty()
    } else {
        let c = tiffsub_cur(row, bits, colors, n - 1);
        c.push(
            (((raw_sample(row, n - 1, bits) + byte_or_zero(c, n - 1 - colors)) % 256) as u8)
                & sample_mask(bits),
        )
    }
}

proof fn lemma_tiffsub_cur_next(row: Seq<u8>, bits: int, colors: int, n: int)
    requires
        0 <= n,
    ensures
        tiffsub_cur(row, bits, colors, n).len() == n,
        tiffsub_cur(row, bits, colors, n + 1) == tiffsub_cur(row, bits, colors, n).push(
            (((raw_sample(row, n, bits) + byte_or_zero(tiffsub_cur(row, bits, colors, n), n - colors))
                % 256) as u8) & sample_mask(bits),
        ),
        tiffsub_cur(row, bits, colors, 0) == Seq::<u8>::empty(),
    decreases n,
{
    reveal(tiffsub_cur);
    if n > 0 {
        lemma_tiffsub_cur_next(row, bits, colors, n - 1);
    }
}

/// The byte packing the first `k` samples of group `g` (samples missing
/// at the end of the row count as 0), high bits first.
pub open spec fn pack_group(samples: Seq<u8>, g: int, per_byte: int, bits: int, k: int) -> u8
    decreases k,
{
    if k <= 0 {
        0u8
    } else {
        pack_group(samples, g, per_byte, bits, k - 1) | (byte_or_zero(samples, g * per_byte + k - 1)
            << (((per_byte - k) * bits) as u8))
    }
}

/// The first `n` bytes of samples packed `per_byte` to a byte.
pub open spec fn pack_samples(samples: Seq<u8>, per_byte: int, bits: int, n: int) -> Seq<u8>
    decreases n,
{
    if n <= 0 {
        Seq::empty()
    } else {
        pack_samples(samples, per_byte, bits, n - 1).push(
            pack_group(samples, n - 1, per_byte, bits, per_byte),
        )
    }
}

/// A TIFF row of 1, 2 or 4-bit samples: at most `wanted` samples are
/// decoded, then packed again, the last byte padded with zero bits.
pub open spec fn tiffsub_row(row: Seq<u8>, bits: int, colors: int, wanted: int) -> Seq<u8> {
    let per_byte = 8int / bits;
    let n = if wanted < row.len() * per_byte { wanted } else { row.len() * per_byte };
    let samples = tiffsub_cur(row, bits, colors, n);
    pack_samples(samples, per_byte, bits, (n + per_byte - 1) / per_byte)
}

/// One decoded TIFF row.
pub open spec fn tiff_row(row: Seq<u8>, p: Predictor) -> Seq<u8> {
    if p.bits_per_component == 8 {
        tiff8_cur(row, p.colors as int, row.len() as int)
    } else if p.bits_per_component == 16 {
        tiff16_row(row, p.colors as int)
    } else {
        let wanted = if p.colors * p.columns > usize::MAX {
            usize::MAX as int
        } else {
            p.colors * p.columns
        };
        tiffsub_row(row, p.bits_per_component as int, p.colors as int, wanted)
    }
}

/// TIFF decoding of `data` from `start`, in rows of `row_len` bytes, the
/// last one possibly shorter.
pub open spec fn tiff_from(data: Seq<u8>, start: int, row_len: int, p: Predictor) -> Seq<u8>
    decreases data.len() - start,
{
    if start < 0 || start >= data.len() || row_len <= 0 {
        Seq::empty()
    } else {
        let end = if start + row_len <= data.len() { start + row_len } else { data.len() as int };
        let row = tiff_row(data.subrange(start, end), p);
        if start + row_len < data.len() {
            row + tiff_from(data, start + row_len, row_len, p)
        } else {
            row
        }
    }
}

/// Append `src` to `out`.
fn append_all(out: &mut Vec<u8>, src: &Vec<u8>)
    ensures
        final(out)@ == old(out)@ + src@,
{
    let ghost before = out@;
    let mut k: usize = 0;
    while k < src.len()
        invariant
            k <= src.len(),
            out@ == before + src@.take(k as int),
        decreases src.len() - k,
    {
        out.push(src[k]);
        assert(src@.take(k + 1) =~= src@.take(k as int).push(src@[k as int]));
        k = k + 1;
    }
    assert(src@.take(src.len() as int) =~= src@);
}

/// An 8-bit TIFF row `data[start..end]`.
fn tiff8_unpredict_row(data: &[u8], start: usize, end: usize, colors: usize) -> (cur: Vec<u8>)
    requires
        start <= end <= data@.len(),
        colors >= 1,
    ensures
        cur@ == tiff8_cur(data@.subrange(start as int, end as int), colors as int, end - start),
{
    let ghost row = data@.subrange(start as int, end as int);
    let n = end - start;
    let mut cur: Vec<u8> = Vec::new();
    let mut i: usize = 0;
    proof { lemma_tiff8_cur_next(row, colors as int, 0); }
    while i < n
        invariant
            i <= n == end - start,
            end <= data@.len(),
            row == data@.subrange(start as int, end as int),
            cur@ == tiff8_cur(row, colors as int, i as int),
            cur@.len() == i,
            colors >= 1,
        decreases n - i,
    {
        proof { lemma_tiff8_cur_next(row, colors as int, i as int); }
        let raw = data[start + i];
        assert(raw == row[i as int]);
        let left = if i >= colors { cur[i - colors] } else { 0 };
        cur.push(raw.wrapping_add(left));
        i = i + 1;
    }
    cur
}

/// A 16-bit TIFF row `data[start..end]`.
fn tiff16_unpredict_row(data: &[u8], start: usize, end: usize, colors: usize) -> (out: Vec<u8>)
    requires
        start <= end <= data@.len(),
        colors >= 1,
    ensures
        out@ == tiff16_row(data@.subrange(start as int, end as int), colors as int),
{
    let ghost row = data@.subrange(start as int, end as int);
    let n = end - start;
    let pairs = n / 2;
    let mut cur: Vec<u16> = Vec::new();
    let mut out: Vec<u8> = Vec::new();
    let mut i: usize = 0;
    proof { lemma_tiff16_cur_next(row, colors as int, 0); }
    assert(be_words(Seq::<u16>::empty()) =~= Seq::<u8>::empty());
    while i < pairs
        invariant
            i <= pairs == n / 2,
            n == end - start,
            end <= data@.len(),
            row == data@.subrange(start as int, end as int),
            cur@ == tiff16_cur(row, colors as int, i as int),
            cur@.len() == i,
            colors >= 1,
            out@ == be_words(cur@),
        decreases pairs - i,
    {
        proof { lemma_tiff16_cur_next(row, colors as int, i as int); }
        let hi = data[start + 2 * i];
        let lo = data[start + 2 * i + 1];
        assert(hi == row[2 * i] && lo == row[2 * i + 1]);
        let raw = (hi as u16) * 256 + lo as u16;
        let left = if i >= colors { cur[i - colors] } else { 0 };
        let ghost prev = cur@;
        let v = raw.wrapping_add(left);
        cur.push(v);
        assert(cur@.drop_last() =~= prev);
        out.push((v / 256) as u8);
        out.push((v % 256) as u8);
        i = i + 1;
    }
    // A dangling odd byte cannot be a sample: keep it as is.
    let ghost before = out@;
    let mut k: usize = 2 * pairs;
    while k < n
        invariant
            2 * pairs <= k <= n == end - start,
            end <= data@.len(),
            row == data@.subrange(start as int, end as int),
            out@ == before + row.subrange(2 * pairs, k as int),
        decreases n - k,
    {
        out.push(data[start + k]);
        assert(row.subrange(2 * pairs, k + 1) =~= row.subrange(2 * pairs, k as int).push(row[k as int]));
        k = k + 1;
    }
    out
}

proof fn lemma_sample_shift(bits: int, per_byte: int, k: int)
    requires
        bits == 1 || bits == 2 || bits == 4,
        per_byte == 8int / bits,
        0 <= k < per_byte,
    ensures
        0 <= (per_byte - 1 - k) * bits <= 7,
        per_byte >= 2,
{
    if bits == 1 {
        assert(per_byte == 8);
    } else if bits == 2 {
        assert(per_byte == 4);
    } else {
        assert(per_byte == 2);
    }
}

/// A TIFF row `data[start..end]` of 1, 2 or 4-bit samples.
fn tiffsub_unpredict_row(data: &[u8], start: usize, end: usize, bits: usize, colors: usize, wanted: usize) -> (out: Vec<u8>)
    requires
        start <= end <= data@.len(),
        bits == 1 || bits == 2 || bits == 4,
        colors >= 1,
    ensures
        out@ == tiffsub_row(data@.subrange(start as int, end as int), bits as int, colors as int, wanted as int),
{
    let ghost row = data@.subrange(start as int, end as int);
    let per_byte: usize = if bits == 1 { 8 } else if bits == 2 { 4 } else { 2 };
    assert(per_byte == 8int / bits as int);
    let mask: u8 = if bits == 1 { 1 } else if bits == 2 { 3 } else { 15 };
    let len = end - start;
    proof { lemma_sample_shift(bits as int, per_byte as int, 0); }
    let n = if len > wanted / per_byte {
        wanted
    } else {
        assert(len * per_byte <= wanted) by (nonlinear_arith)
            requires
                len <= wanted / per_byte,
                per_byte >= 1,
        ;
        len * per_byte
    };
    assert(n == if wanted < len * per_byte { wanted as int } else { len * per_byte }) by (nonlinear_arith)
        requires
            n == if len > wanted / per_byte { wanted as int } else { len * per_byte },
            per_byte >= 1,
    ;
    let mut samples: Vec<u8> = Vec::new();
    let mut j: usize = 0;
    proof { lemma_tiffsub_cur_next(row, bits as int, colors as int, 0); }
    while j < n
        invariant
            j <= n <= len * per_byte,
            len == end - start == row.len(),
            end <= data@.len(),
            per_byte == 8int / bits as int,
            bits == 1 || bits == 2 || bits == 4,
            mask == sample_mask(bits as int),
            row == data@.subrange(start as int, end as int),
            samples@ == tiffsub_cur(row, bits as int, colors as int, j as int),
            samples@.len() == j,
            colors >= 1,
        decreases n - j,
    {
        proof { lemma_tiffsub_cur_next(row, bits as int, colors as int, j as int); }
        assert(j / per_byte < len) by (nonlinear_arith)
            requires
                j < n <= len * per_byte,
                per_byte >= 1,
        ;
        let byte = data[start + j / per_byte];
        assert(byte == row[(j / per_byte) as int]);
        proof { lemma_sample_shift(bits as int, per_byte as int, (j % per_byte) as int); }
        let shift = ((per_byte - 1 - j % per_byte) * bits) as u8;
        let raw = (byte >> shift) & mask;
        assert(raw == raw_sample(row, j as int, bits as int));
        let left = if j >= colors { samples[j - colors] } else { 0 };
        samples.push(raw.wrapping_add(left) & mask);
        j = j + 1;
    }
    let groups = n / per_byte + if n % per_byte == 0 { 0 } else { 1 };
    assert(groups as int == (n as int + per_byte as int - 1) / per_byte as int) by (nonlinear_arith)
        requires
            groups == n / per_byte + if n % per_byte == 0 { 0int } else { 1int },
            per_byte >= 1,
    ;
    let mut out: Vec<u8> = Vec::new();
    let mut g: usize = 0;
    while g < groups
        invariant
            g <= groups,
            groups as int == (n as int + per_byte as int - 1) / per_byte as int,
            samples@.len() == n,
            per_byte == 8int / bits as int,
            bits == 1 || bits == 2 || bits == 4,
            out@ == pack_samples(samples@, per_byte as int, bits as int, g as int),
        decreases groups - g,
    {
        assert(g * per_byte < n) by (nonlinear_arith)
            requires
                g < groups,
                groups as int == (n as int + per_byte as int - 1) / per_byte as int,
                per_byte >= 1,
        ;
        let base = g * per_byte;
        let mut byte: u8 = 0;
        let mut k: usize = 0;
        while k < per_byte
            invariant
                k <= per_byte == 8int / bits as int,
                bits == 1 || bits == 2 || bits == 4,
                base == g * per_byte,
                base < samples@.len(),
                byte == pack_group(samples@, g as int, per_byte as int, bits as int, k as int),
            decreases per_byte - k,
        {
            proof { lemma_sample_shift(bits as int, per_byte as int, k as int); }
            let s = if k < samples.len() - base { samples[base + k] } else { 0 };
            byte = byte | (s << (((per_byte - 1 - k) * bits) as u8));
            k = k + 1;
        }
        out.push(byte);
        g = g + 1;
    }
    out
}

/// TIFF predictor 2: horizontal differencing, each sample is the difference
/// with the sample of the same component to its left (TIFF 6.0, section 14).
fn tiff_unpredict(data: &[u8], row_len: usize, p: Predictor) -> (out: Vec<u8>)
    requires
        p.bits_per_component == 1 || p.bits_per_component == 2 || p.bits_per_component == 4
            || p.bits_per_component == 8 || p.bits_per_component == 16,
        p.colors >= 1,
    ensures
        out@ == tiff_from(data@, 0, if row_len >= 1 { row_len as int } else { 1 }, p),
{
    let row_len = if row_len >= 1 { row_len } else { 1 };
    let ghost total = tiff_from(data@, 0, row_len as int, p);
    let wanted = match p.colors.checked_mul(p.columns) {
        Some(w) => w,
        None => usize::MAX,
    };
    let len = data.len();
    let mut out: Vec<u8> = Vec::new();
    let mut start: usize = 0;
    while start < len
        invariant
            start <= len == data@.len(),
            row_len >= 1,
            wanted as int == if p.colors * p.columns > usize::MAX { usize::MAX as int } else { p.colors * p.columns },
            p.bits_per_component == 1 || p.bits_per_component == 2 || p.bits_per_component == 4
                || p.bits_per_component == 8 || p.bits_per_component == 16,
            p.colors >= 1,
            total == tiff_from(data@, 0, row_len as int, p),
            total == out@ + tiff_from(data@, start as int, row_len as int, p),
        decreases len - start,
    {
        let end = if row_len <= len - start { start + row_len } else { len };
        let row = if p.bits_per_component == 8 {
            tiff8_unpredict_row(data, start, end, p.colors)
        } else if p.bits_per_component == 16 {
            tiff16_unpredict_row(data, start, end, p.colors)
        } else {
            tiffsub_unpredict_row(data, start, end, p.bits_per_component, p.colors, wanted)
        };
        assert(row@ == tiff_row(data@.subrange(start as int, end as int), p));
        let ghost before = out@;
        append_all(&mut out, &row);
        if end < len {
            assert(tiff_from(data@, start as int, row_len as int, p) == row@ + tiff_from(data@, end as int, row_len as int, p));
        } else {
            assert(tiff_from(data@, end as int, row_len as int, p) =~= Seq::<u8>::empty());
        }
        assert(before + tiff_from(data@, start as int, row_len as int, p) =~= out@ + tiff_from(data@, end as int, row_len as int, p));
        start = end;
    }
    assert(out@ + Seq::<u8>::empty() =~= out@);
    out
}

/// Whether the parameters describe rows this decoder can handle.
pub open spec fn valid_predictor_parameters(p: Predictor) -> bool {
    &&& 1 <= p.colors <= MAX_COLORS
    &&& (p.bits_per_component == 1 || p.bits_per_component == 2 || p.bits_per_component == 4
        || p.bits_per_component == 8 || p.bits_per_component == 16)
    &&& p.columns >= 1
}

/// Undoing predictor `p` on `data`: the data itself for predictor 1,
/// whatever the other parameters; otherwise `None` for parameters out of range, a
/// row wider than memory can address, an unknown predictor or an unknown
/// PNG filter type.
pub open spec fn spec_apply_predictor(data: Seq<u8>, p: Predictor) -> Option<Seq<u8>> {
    if p.predictor == 1 {
        Some(data)
    } else if !valid_predictor_parameters(p) {
        None
    } else if p.colors * p.bits_per_component * p.columns > usize::MAX {
        None
    } else {
        let bits_per_pixel = p.colors * p.bits_per_component;
        let row_len = (bits_per_pixel * p.columns + 7) / 8;
        let bpp = (bits_per_pixel + 7) / 8;
        if p.predictor == 2 {
            Some(tiff_from(data, 0, if row_len >= 1 { row_len } else { 1 }, p))
        } else if 10 <= p.predictor <= 15 {
            png_from(data, 0, row_len + 1, Seq::empty(), bpp)
        } else {
            None
        }
    }
}

/// Copy of `data`.
pub(crate) fn copy_bytes(data: &[u8]) -> (out: Vec<u8>)
    ensures
        out@ == data@,
{
    let mut out: Vec<u8> = Vec::new();
    let mut k: usize = 0;
    while k < data.len()
        invariant
            k <= data.len(),
            out@ == data@.take(k as int),
        decreases data.len() - k,
    {
        out.push(data[k]);
        assert(data@.take(k + 1) =~= data@.take(k as int).push(data@[k as int]));
        k = k + 1;
    }
    assert(data@.take(data.len() as int) =~= data@);
    out
}

/// Undo a TIFF (2) or PNG (10 to 15) predictor. Predictor 1 returns the
/// input unchanged.
pub fn apply_predictor(data: &[u8], p: Predictor) -> (r: Result<Vec<u8>, Error>)
    ensures
        p.predictor == 1 ==> (r matches Ok(out) && out@ == data@),
        match r {
            Ok(out) => spec_apply_predictor(data@, p) == Some(out@),
            Err(e) => spec_apply_predictor(data@, p) is None && (e matches Error::Filter {
                filter: f,
                ..
            } && f@ == "Predictor"@),
        },
{
    if p.predictor == 1 {
        return Ok(copy_bytes(data));
    }
    if !(1 <= p.colors && p.colors <= MAX_COLORS) || !(p.bits_per_component == 1
        || p.bits_per_component == 2 || p.bits_per_component == 4 || p.bits_per_component == 8
        || p.bits_per_component == 16) || p.columns == 0 {
        return Err(filter_error("Predictor", "invalid predictor parameters"));
    }
    let bits_per_pixel = p.colors * p.bits_per_component;
    let row_bits = match bits_per_pixel.checked_mul(p.columns) {
        Some(bits) => bits,
        None => {
            return Err(filter_error("Predictor", "row too wide"));
        },
    };
    let row_len = row_bits / 8 + if row_bits % 8 == 0 { 0 } else { 1 };
    // Bytes per pixel, rounded up, as PNG defines it.
    let bpp = bits_per_pixel / 8 + if bits_per_pixel % 8 == 0 { 0 } else { 1 };
    assert(row_len as int == (row_bits as int + 7) / 8);
    assert(bpp as int == (bits_per_pixel as int + 7) / 8);
    if p.predictor == 2 {
        Ok(tiff_unpredict(data, row_len, p))
    } else if 10 <= p.predictor && p.predictor <= 15 {
        png_unpredict(data, row_len, bpp)
    } else {
        Err(filter_error("Predictor", "unknown /Predictor value"))
    }
}

// ---------------------------------------------------------------------------
// FlateDecode (ISO 32000-2, 7.4.4)
// ---------------------------------------------------------------------------

/// What `flate2`'s zlib decoder yields from `data` when at most `cap`
/// bytes are read, and whether reading failed after that output.
pub uninterp spec fn zlib_inflated(data: Seq<u8>, cap: nat) -> (Seq<u8>, bool);

/// What `flate2`'s raw deflate decoder (no zlib header) yields from `data`
/// when at most `cap` bytes are read, and whether reading failed.
pub uninterp spec fn deflate_inflated(data: Seq<u8>, cap: nat) -> (Seq<u8>, bool);

/// `flate2::read::ZlibDecoder` over `data`, read through `std::io::Read::take`
/// with limit `cap` into a vector by `read_to_end`. Trusted: the bytes
/// read and whether `read_to_end` failed are `zlib_inflated(data, cap)`,
/// and `take` reads at most `cap` bytes.
#[verifier::external_body]
fn zlib_read(data: &[u8], cap: u64) -> (r: (Vec<u8>, bool))
    ensures
        (r.0@, r.1) == zlib_inflated(data@, cap as nat),
        r.0@.len() <= cap,
{
    let mut out = Vec::new();
    let failed = flate2::read::ZlibDecoder::new(data).take(cap).read_to_end(&mut out).is_err();
    (out, failed)
}

/// `flate2::read::DeflateDecoder` over `data`, read through
/// `std::io::Read::take` with limit `cap` into a vector by `read_to_end`.
/// Trusted: the bytes read and whether `read_to_end` failed are
/// `deflate_inflated(data, cap)`, and `take` reads at most `cap` bytes.
#[verifier::external_body]
fn deflate_read(data: &[u8], cap: u64) -> (r: (Vec<u8>, bool))
    ensures
        (r.0@, r.1) == deflate_inflated(data@, cap as nat),
        r.0@.len() <= cap,
{
    let mut out = Vec::new();
    let failed = flate2::read::DeflateDecoder::new(data).take(cap).read_to_end(&mut out).is_err();
    (out, failed)
}

/// How deflate data is framed.
#[derive(Debug, Clone, Copy, PartialEq, Eq)]
pub enum Framing {
    /// RFC 1950: a zlib header and an Adler-32 trailer around the data.
    Zlib,
    /// RFC 1951 alone.
    Raw,
}

/// One more byte than the limit, to tell "exactly at the limit" from "over".
pub open spec fn read_cap(limits: DecodeLimits) -> nat {
    if limits.max_output + 1 > u64::MAX {
        u64::MAX as nat
    } else {
        (limits.max_output + 1) as nat
    }
}

/// What a decoder of `framing` yields from `data` under `limits`.
pub open spec fn inflated(framing: Framing, data: Seq<u8>, limits: DecodeLimits) -> (Seq<u8>, bool) {
    match framing {
        Framing::Zlib => zlib_inflated(data, read_cap(limits)),
        Framing::Raw => deflate_inflated(data, read_cap(limits)),
    }
}

/// Read everything the decoder yields from `data`, up to the limit.
/// Returns the bytes and whether the decoder failed (after producing
/// them). Only a size overrun is an error here: callers decide what a
/// corrupt tail means.
fn inflate_bounded(framing: Framing, data: &[u8], limits: DecodeLimits) -> (r: Result<(Vec<u8>, bool), Error>)
    ensures
        match r {
            Ok((out, failed)) => inflated(framing, data@, limits) == (out@, failed) && out@.len()
                <= limits.max_output,
            Err(e) => inflated(framing, data@, limits).0.len() > limits.max_output && e == (
            Error::LimitExceeded { limit: limits.max_output, what: "inflated FlateDecode data" }),
        },
{
    let max = limits.max_output as u64;
    let cap = if max < u64::MAX { max + 1 } else { u64::MAX };
    let (out, failed) = match framing {
        Framing::Zlib => zlib_read(data, cap),
        Framing::Raw => deflate_read(data, cap),
    };
    if out.len() > limits.max_output {
        return Err(limit(limits, "inflated FlateDecode data"));
    }
    Ok((out, failed))
}

/// The outcome of `FlateDecode` on `data`: `Ok` with the output, `Err(true)`
/// when the output would pass the limit, `Err(false)` for corrupt data.
pub open spec fn spec_flate_decode(data: Seq<u8>, limits: DecodeLimits) -> Result<Seq<u8>, bool> {
    let trimmed = data.skip(first_non_whitespace(data, 0));
    if trimmed.len() == 0 {
        Ok(Seq::empty())
    } else {
        let (zlib, zlib_failed) = inflated(Framing::Zlib, trimmed, limits);
        if zlib.len() > limits.max_output {
            Err(true)
        } else if !zlib_failed || zlib.len() > 0 {
            Ok(zlib)
        } else {
            let (raw, raw_failed) = inflated(Framing::Raw, data, limits);
            if raw.len() > limits.max_output {
                Err(true)
            } else if !raw_failed || raw.len() > 0 {
                Ok(raw)
            } else {
                Err(false)
            }
        }
    }
}

/// Inflating what the zlib encoder made gives the text back: a zlib
/// stream `z` (its first byte a deflate method byte) from which the
/// decoder reads `text` without error, once it may read that much, decodes
/// to `text` under any limit that `text` fits in.
pub proof fn law_flate_round_trip(z: Seq<u8>, text: Seq<u8>, limits: DecodeLimits)
    requires
        z.len() > 0,
        z[0] % 16 == 8,
        forall|cap: nat| cap >= text.len() ==> #[trigger] zlib_inflated(z, cap) == (text, false),
        text.len() <= limits.max_output,
    ensures
        spec_flate_decode(z, limits) == Ok::<Seq<u8>, bool>(text),
{
    assert(!spec_is_whitespace(z[0]));
    assert(z.skip(0) =~= z);
    assert(zlib_inflated(z, read_cap(limits)) == (text, false));
}

/// Inflate zlib data, bounded by `limits.max_output`.
///
/// Tolerance: leading whitespace is skipped; data that fails after some
/// output was produced yields that output (truncated streams are common);
/// data without a zlib header is retried as raw deflate.
pub fn flate_decode(data: &[u8], limits: DecodeLimits) -> (r: Result<Vec<u8>, Error>)
    ensures
        match r {
            Ok(out) => spec_flate_decode(data@, limits) == Ok::<Seq<u8>, bool>(out@),
            Err(e) => match spec_flate_decode(data@, limits) {
                Ok(_) => false,
                Err(true) => e == (Error::LimitExceeded {
                    limit: limits.max_output,
                    what: "inflated FlateDecode data",
                }),
                Err(false) => e matches Error::Filter { filter: f, .. } && f@ == "FlateDecode"@,
            },
        },
        r matches Ok(out) ==> out@.len() <= limits.max_output,
{
    let len = data.len();
    let mut start: usize = 0;
    while start < len && is_whitespace(data[start])
        invariant
            start <= len == data@.len(),
            first_non_whitespace(data@, 0) == first_non_whitespace(data@, start as int),
        decreases len - start,
    {
        start = start + 1;
    }
    let trimmed = slice_from(data, start);
    if trimmed.len() == 0 {
        return Ok(Vec::new());
    }
    let (out, failed) = inflate_bounded(Framing::Zlib, trimmed, limits)?;
    if !failed || out.len() > 0 {
        return Ok(out);
    }
    let (out, failed) = inflate_bounded(Framing::Raw, data, limits)?;
    if !failed || out.len() > 0 {
        return Ok(out);
    }
    Err(filter_error("FlateDecode", "corrupt deflate data"))
}

/// `data[from..]`.
fn slice_from(data: &[u8], from: usize) -> (r: &[u8])
    requires
        from <= data@.len(),
    ensures
        r@ == data@.skip(from as int),
{
    let (_, tail) = data.split_at(from);
    tail
}


} // verus!
