//! The page arguments of the command line: `1,3,5-8`, `8-5` for reverse
//! order, a page twice to repeat it, `all` for a whole file, and the parts
//! `1-3,4-6` of a split. Pages are numbered from 1 on the command line and
//! from 0 in the library.

use crate::text::{decimal, push_decimal, push_str, string_of};
use core::ops::Range;
use vstd::prelude::*;
use vstd::string::StrSliceExecFns;

verus! {

/// Why a page argument was refused, worded for the user.
#[derive(Debug, Clone, PartialEq, Eq)]
pub struct UsageError {
    /// Human-readable explanation.
    pub message: String,
}

/// Which pages of one input a merge takes.
#[derive(Debug, Clone, PartialEq, Eq)]
pub enum Selection {
    /// Every page, in order.
    All,
    /// These pages (0-based), in this order.
    Pages(Vec<usize>),
}

/// Unicode whitespace (the `White_Space` property), as `char::is_whitespace`
/// documents it.
pub open spec fn is_white(c: char) -> bool {
    ('\u{9}' <= c <= '\u{d}') || c == ' ' || c == '\u{85}' || c == '\u{a0}' || c == '\u{1680}'
        || ('\u{2000}' <= c <= '\u{200a}') || c == '\u{2028}' || c == '\u{2029}' || c == '\u{202f}'
        || c == '\u{205f}' || c == '\u{3000}'
}

/// Whether `c` is whitespace, as `char::is_whitespace` tells it.
fn white(c: char) -> (b: bool)
    ensures
        b == is_white(c),
{
    let n: u32 = c as u32;
    (0x9 <= n && n <= 0xd) || n == 0x20 || n == 0x85 || n == 0xa0 || n == 0x1680 || (0x2000 <= n && n
        <= 0x200a) || n == 0x2028 || n == 0x2029 || n == 0x202f || n == 0x205f || n == 0x3000
}

/// First position in `i..j` that holds no whitespace, or `j`.
pub open spec fn lead(t: Seq<char>, i: int, j: int) -> int
    decreases j - i,
{
    if i < j && is_white(t[i]) {
        lead(t, i + 1, j)
    } else {
        i
    }
}

/// One past the last position in `i..j` that holds no whitespace, or `i`.
pub open spec fn trail(t: Seq<char>, i: int, j: int) -> int
    decreases j - i,
{
    if i < j && is_white(t[j - 1]) {
        trail(t, i, j - 1)
    } else {
        j
    }
}

proof fn lemma_lead(t: Seq<char>, i: int, j: int)
    requires
        i <= j,
    ensures
        i <= lead(t, i, j) <= j,
    decreases j - i,
{
    if i < j && is_white(t[i]) {
        lemma_lead(t, i + 1, j);
    }
}

proof fn lemma_trail(t: Seq<char>, i: int, j: int)
    requires
        i <= j,
    ensures
        i <= trail(t, i, j) <= j,
    decreases j - i,
{
    if i < j && is_white(t[j - 1]) {
        lemma_trail(t, i, j - 1);
    }
}

/// `t[i..j]` without leading and trailing whitespace (`str::trim`), as
/// the range it keeps.
pub open spec fn trimmed(t: Seq<char>, i: int, j: int) -> (int, int) {
    let a = lead(t, i, j);
    (a, trail(t, a, j))
}

fn trim_range(s: &str, i: usize, j: usize) -> (r: (usize, usize))
    requires
        i <= j <= s@.len(),
    ensures
        r.0 as int == trimmed(s@, i as int, j as int).0,
        r.1 as int == trimmed(s@, i as int, j as int).1,
        i <= r.0 <= r.1 <= j,
{
    let mut a = i;
    while a < j && white(s.get_char(a))
        invariant
            i <= a <= j <= s@.len(),
            lead(s@, a as int, j as int) == lead(s@, i as int, j as int),
        decreases j - a,
    {
        a = a + 1;
    }
    let mut b = j;
    while b > a && white(s.get_char(b - 1))
        invariant
            i <= a <= b <= j <= s@.len(),
            a as int == lead(s@, i as int, j as int),
            trail(s@, a as int, b as int) == trail(s@, a as int, j as int),
        decreases b,
    {
        b = b - 1;
    }
    (a, b)
}

/// An ASCII decimal digit.
pub open spec fn is_digit_char(c: char) -> bool {
    '0' <= c <= '9'
}

/// The value of the digits `t[i..j]`.
pub open spec fn digits_value(t: Seq<char>, i: int, j: int) -> nat
    decreases j - i,
{
    if j <= i {
        0
    } else {
        digits_value(t, i, j - 1) * 10 + ((t[j - 1] as int) - 48) as nat
    }
}

/// `t[i..j]` read as `str::parse::<usize>` reads it: an optional `+`, then
/// one or more ASCII digits, of a value that fits a `usize`.
pub open spec fn parsed_usize(t: Seq<char>, i: int, j: int) -> Option<nat> {
    let d = if i < j && t[i] == '+' {
        i + 1
    } else {
        i
    };
    if d >= j || exists|k: int| d <= k < j && !is_digit_char(#[trigger] t[k]) {
        None
    } else if digits_value(t, d, j) > usize::MAX {
        None
    } else {
        Some(digits_value(t, d, j))
    }
}

proof fn lemma_digits_value_grows(t: Seq<char>, d: int, k: int, j: int)
    requires
        d <= k <= j,
        forall|m: int| d <= m < j ==> is_digit_char(#[trigger] t[m]),
    ensures
        digits_value(t, d, k) <= digits_value(t, d, j),
    decreases j - k,
{
    if k < j {
        lemma_digits_value_grows(t, d, k + 1, j);
    }
}

fn parse_usize(s: &str, i: usize, j: usize) -> (r: Option<usize>)
    requires
        i <= j <= s@.len(),
    ensures
        match r {
            Some(v) => parsed_usize(s@, i as int, j as int) == Some(v as nat),
            None => parsed_usize(s@, i as int, j as int) is None,
        },
{
    let d = if i < j && s.get_char(i) == '+' {
        i + 1
    } else {
        i
    };
    if d >= j {
        assert(parsed_usize(s@, i as int, j as int) is None);
        return None;
    }
    let mut k = d;
    while k < j
        invariant
            d <= k <= j <= s@.len(),
            d < j,
            d as int == (if i < j && s@[i as int] == '+' {
                i + 1
            } else {
                i as int
            }),
            forall|m: int| d <= m < k ==> is_digit_char(#[trigger] s@[m]),
        decreases j - k,
    {
        let c = s.get_char(k);
        if !('0' <= c && c <= '9') {
            assert(!is_digit_char(s@[k as int]));
            return None;
        }
        k = k + 1;
    }
    let mut v: usize = 0;
    let mut k = d;
    while k < j
        invariant
            d <= k <= j <= s@.len(),
            d < j,
            d as int == (if i < j && s@[i as int] == '+' {
                i + 1
            } else {
                i as int
            }),
            forall|m: int| d <= m < j ==> is_digit_char(#[trigger] s@[m]),
            v as nat == digits_value(s@, d as int, k as int),
        decreases j - k,
    {
        let c = s.get_char(k);
        assert(is_digit_char(s@[k as int]));
        let dig = (c as u32 - 48) as usize;
        if v > (usize::MAX - dig) / 10 {
            proof {
                let mx = usize::MAX as int;
                let vv = v as int;
                let dd = dig as int;
                assert(vv * 10 + dd > mx) by (nonlinear_arith)
                    requires
                        vv > (mx - dd) / 10,
                        0 <= dd <= 9,
                        mx > 9,
                ;
                lemma_digits_value_grows(s@, d as int, k + 1, j as int);
                assert(digits_value(s@, d as int, k + 1) == digits_value(s@, d as int, k as int) * 10
                    + ((s@[k as int] as int) - 48) as nat);
                assert(digits_value(s@, d as int, j as int) > usize::MAX);
            }
            return None;
        }
        v = v * 10 + dig;
        k = k + 1;
    }
    Some(v)
}

/// `"s"` when `count` asks for a plural.
pub open spec fn plural(count: nat) -> Seq<char> {
    if count > 1 {
        "s"@
    } else {
        Seq::empty()
    }
}

/// The 0-based page that the number in `t[i..j]` (whitespace around it
/// ignored) names, or the message that refuses it.
pub open spec fn page_number(t: Seq<char>, i: int, j: int, count: usize) -> Result<usize, Seq<char>> {
    let (a, b) = trimmed(t, i, j);
    match parsed_usize(t, a, b) {
        None => Err("numéro de page invalide : « "@ + t.subrange(a, b) + " »"@),
        Some(n) => if n == 0 || n > count {
            Err(
                "page "@ + decimal(n) + " hors limites : le document a "@ + decimal(count as nat)
                    + " page"@ + plural(count as nat) + ", numérotées de 1 à "@ + decimal(
                    count as nat,
                ),
            )
        } else {
            Ok((n - 1) as usize)
        },
    }
}

fn usage(message: String) -> (e: UsageError)
    ensures
        e.message@ == message@,
{
    UsageError { message }
}

fn number(s: &str, i: usize, j: usize, count: usize) -> (r: Result<usize, UsageError>)
    requires
        i <= j <= s@.len(),
    ensures
        r matches Ok(p) ==> p < count,
        match page_number(s@, i as int, j as int, count) {
            Ok(p) => r == Ok::<usize, UsageError>(p),
            Err(m) => r matches Err(e) && e.message@ == m,
        },
{
    let (a, b) = trim_range(s, i, j);
    match parse_usize(s, a, b) {
        None => {
            let mut m = string_of("numéro de page invalide : « ");
            push_str(&mut m, s.substring_char(a, b));
            push_str(&mut m, " »");
            Err(usage(m))
        },
        Some(n) => {
            if n == 0 || n > count {
                let mut m = string_of("page ");
                push_decimal(&mut m, n as u64);
                push_str(&mut m, " hors limites : le document a ");
                push_decimal(&mut m, count as u64);
                push_str(&mut m, " page");
                if count > 1 {
                    push_str(&mut m, "s");
                } else {
                    assert(m@ =~= m@ + Seq::<char>::empty());
                }
                push_str(&mut m, ", numérotées de 1 à ");
                push_decimal(&mut m, count as u64);
                Err(usage(m))
            } else {
                Ok(n - 1)
            }
        },
    }
}

/// First position in `i..j` that holds `c`, or `j`.
pub open spec fn find_char(t: Seq<char>, c: char, i: int, j: int) -> int
    decreases j - i,
{
    if i < j && t[i] != c {
        find_char(t, c, i + 1, j)
    } else {
        i
    }
}

pub proof fn lemma_find_char(t: Seq<char>, c: char, i: int, j: int)
    requires
        i <= j,
    ensures
        i <= find_char(t, c, i, j) <= j,
        find_char(t, c, i, j) < j ==> t[find_char(t, c, i, j)] == c,
    decreases j - i,
{
    if i < j && t[i] != c {
        lemma_find_char(t, c, i + 1, j);
    }
}

fn find_in(s: &str, c: char, i: usize, j: usize) -> (k: usize)
    requires
        i <= j <= s@.len(),
    ensures
        k as int == find_char(s@, c, i as int, j as int),
        i <= k <= j,
{
    let mut k = i;
    while k < j && s.get_char(k) != c
        invariant
            i <= k <= j <= s@.len(),
            find_char(s@, c, k as int, j as int) == find_char(s@, c, i as int, j as int),
        decreases j - k,
    {
        k = k + 1;
    }
    k
}

/// `from` to `to`, counting down when `from` comes after `to`.
pub open spec fn span(from: usize, to: usize) -> Seq<usize> {
    if from <= to {
        Seq::new((to - from + 1) as nat, |k: int| (from + k) as usize)
    } else {
        Seq::new((from - to + 1) as nat, |k: int| (from - k) as usize)
    }
}

/// The pages one part `t[i..j]` (already trimmed, not empty) names: a
/// page, or a span `a-b` split at its first `-`.
pub open spec fn part_pages(t: Seq<char>, i: int, j: int, count: usize) -> Result<Seq<usize>, Seq<char>> {
    let k = find_char(t, '-', i, j);
    if k < j {
        match page_number(t, i, k, count) {
            Err(m) => Err(m),
            Ok(from) => match page_number(t, k + 1, j, count) {
                Err(m) => Err(m),
                Ok(to) => Ok(span(from, to)),
            },
        }
    } else {
        match page_number(t, i, j, count) {
            Err(m) => Err(m),
            Ok(p) => Ok(seq![p]),
        }
    }
}

fn push_span(pages: &mut Vec<usize>, from: usize, to: usize)
    ensures
        final(pages)@ == old(pages)@ + span(from, to),
        forall|k: int|
            0 <= k < span(from, to).len() ==> span(from, to)[k] <= from || span(from, to)[k] <= to,
{
    let ghost before = pages@;
    let ghost sp = span(from, to);
    if from <= to {
        let mut p = from;
        loop
            invariant_except_break
                from <= p <= to,
                pages@ == before + sp.take(p - from),
            invariant
                sp == span(from, to),
            ensures
                pages@ == before + sp,
            decreases to - p,
        {
            pages.push(p);
            assert(sp[p - from] == p);
            assert(sp.take(p - from + 1) =~= sp.take(p - from).push(p));
            assert(pages@ =~= before + sp.take(p - from + 1));
            if p == to {
                assert(sp.len() == to - from + 1);
                assert(sp.take(to - from + 1) =~= sp);
                break;
            }
            p = p + 1;
        }
    } else {
        let mut p = from;
        loop
            invariant_except_break
                to <= p <= from,
                pages@ == before + sp.take(from - p),
            invariant
                sp == span(from, to),
                to < from,
            ensures
                pages@ == before + sp,
            decreases p - to,
        {
            pages.push(p);
            assert(sp[from - p] == p);
            assert(sp.take(from - p + 1) =~= sp.take(from - p).push(p));
            assert(pages@ =~= before + sp.take(from - p + 1));
            if p == to {
                assert(sp.len() == from - to + 1);
                assert(sp.take(from - to + 1) =~= sp);
                break;
            }
            p = p - 1;
        }
    }
}

fn part(s: &str, i: usize, j: usize, count: usize, pages: &mut Vec<usize>) -> (r: Result<(), UsageError>)
    requires
        i <= j <= s@.len(),
        forall|k: int| 0 <= k < old(pages)@.len() ==> old(pages)@[k] < count,
    ensures
        forall|k: int| 0 <= k < final(pages)@.len() ==> final(pages)@[k] < count,
        match part_pages(s@, i as int, j as int, count) {
            Ok(q) => r is Ok && final(pages)@ == old(pages)@ + q,
            Err(m) => r matches Err(e) && e.message@ == m,
        },
{
    let k = find_in(s, '-', i, j);
    if k < j {
        let from = match number(s, i, k, count) {
            Ok(p) => p,
            Err(e) => {
                return Err(e);
            },
        };
        let to = match number(s, k + 1, j, count) {
            Ok(p) => p,
            Err(e) => {
                return Err(e);
            },
        };
        push_span(pages, from, to);
        Ok(())
    } else {
        let p = match number(s, i, j, count) {
            Ok(p) => p,
            Err(e) => {
                return Err(e);
            },
        };
        pages.push(p);
        Ok(())
    }
}

/// First comma at or after `i`, or the end.
pub open spec fn next_comma(t: Seq<char>, i: int) -> int {
    find_char(t, ',', i, t.len() as int)
}

/// The pages named by the comma-separated parts of `t` from `i` on, after
/// `acc`: parts left empty by trimming are skipped, the first refused part
/// gives its message.
pub open spec fn pages_from(t: Seq<char>, i: int, count: usize, acc: Seq<usize>) -> Result<Seq<usize>, Seq<char>>
    decreases t.len() - i + 1,
{
    if i < 0 || i > t.len() {
        Ok(acc)
    } else {
        let j = next_comma(t, i);
        proof {
            lemma_find_char(t, ',', i, t.len() as int);
        }
        let (a, b) = trimmed(t, i, j);
        let step = if a == b {
            Ok(acc)
        } else {
            match part_pages(t, a, b, count) {
                Err(m) => Err(m),
                Ok(q) => Ok(acc + q),
            }
        };
        match step {
            Err(m) => Err(m),
            Ok(next) => if j >= t.len() {
                Ok(next)
            } else {
                pages_from(t, j + 1, count, next)
            },
        }
    }
}

/// What `parse_pages` gives for `t`: the pages, 0-based, in the order the
/// parts name them, or the message that refuses the argument.
pub open spec fn pages_of(t: Seq<char>, count: usize) -> Result<Seq<usize>, Seq<char>> {
    match pages_from(t, 0, count, Seq::empty()) {
        Err(m) => Err(m),
        Ok(ps) => if ps.len() == 0 {
            Err("aucune page indiquée (exemple : 1,3,5-8)"@)
        } else {
            Ok(ps)
        },
    }
}

/// Pages given as `1,3,5-8`, 1-based: each part a page or a span, `8-5`
/// counting down, a page named twice taken twice. Every page must exist.
pub fn parse_pages(spec: &str, count: usize) -> (r: Result<Vec<usize>, UsageError>)
    ensures
        r matches Ok(v) ==> forall|k: int| 0 <= k < v@.len() ==> v@[k] < count,
        match pages_of(spec@, count) {
            Ok(ps) => r matches Ok(v) && v@ == ps,
            Err(m) => r matches Err(e) && e.message@ == m,
        },
{
    let n = spec.unicode_len();
    let mut pages: Vec<usize> = Vec::new();
    let mut i: usize = 0;
    loop
        invariant_except_break
            i <= n,
            pages_from(spec@, i as int, count, pages@) == pages_from(spec@, 0, count, Seq::empty()),
        invariant
            n == spec@.len(),
            forall|k: int| 0 <= k < pages@.len() ==> pages@[k] < count,
        ensures
            pages_from(spec@, 0, count, Seq::empty()) == Ok::<Seq<usize>, Seq<char>>(pages@),
        decreases n - i,
    {
        let j = find_in(spec, ',', i, n);
        let (a, b) = trim_range(spec, i, j);
        if a != b {
            match part(spec, a, b, count, &mut pages) {
                Ok(()) => {},
                Err(e) => {
                    return Err(e);
                },
            }
        }
        if j >= n {
            break;
        }
        i = j + 1;
    }
    if pages.len() == 0 {
        return Err(usage(string_of("aucune page indiquée (exemple : 1,3,5-8)")));
    }
    Ok(pages)
}

/// `t[i..j]` is `all` in any case mix (`str::eq_ignore_ascii_case`).
pub open spec fn is_all(t: Seq<char>, i: int, j: int) -> bool {
    &&& j - i == 3
    &&& (t[i] == 'a' || t[i] == 'A')
    &&& (t[i + 1] == 'l' || t[i + 1] == 'L')
    &&& (t[i + 2] == 'l' || t[i + 2] == 'L')
}

/// Which pages of the file at `path` (as shown) a merge takes: `all`, in
/// any case, or pages as [`parse_pages`] reads them. Messages name the
/// file.
pub fn parse_selection(path: &str, count: usize, spec: &str) -> (r: Result<Selection, UsageError>)
    ensures
        ({
            let (a, b) = trimmed(spec@, 0, spec@.len() as int);
            if is_all(spec@, a, b) {
                r == Ok::<Selection, UsageError>(Selection::All)
            } else if a == b {
                r matches Err(e) && e.message@ == path@
                    + ": aucune page indiquée (exemple : 1,3,5-8, ou « all » pour tout le fichier)"@
            } else {
                match pages_of(spec@.subrange(a, b), count) {
                    Ok(ps) => r matches Ok(Selection::Pages(v)) && v@ == ps,
                    Err(m) => r matches Err(e) && e.message@ == path@ + ": "@ + m,
                }
            }
        }),
{
    let n = spec.unicode_len();
    let (a, b) = trim_range(spec, 0, n);
    if b - a == 3 {
        let c0 = spec.get_char(a);
        let c1 = spec.get_char(a + 1);
        let c2 = spec.get_char(a + 2);
        if (c0 == 'a' || c0 == 'A') && (c1 == 'l' || c1 == 'L') && (c2 == 'l' || c2 == 'L') {
            return Ok(Selection::All);
        }
    }
    if a == b {
        let mut m = string_of(path);
        push_str(&mut m, ": aucune page indiquée (exemple : 1,3,5-8, ou « all » pour tout le fichier)");
        return Err(usage(m));
    }
    let inner = spec.substring_char(a, b);
    match parse_pages(inner, count) {
        Ok(pages) => Ok(Selection::Pages(pages)),
        Err(e) => {
            let mut m = string_of(path);
            push_str(&mut m, ": ");
            push_str(&mut m, e.message.as_str());
            Err(usage(m))
        },
    }
}

/// The ranges named by the comma-separated parts of `t` from `i` on, after
/// `acc`: each part read as pages, kept as the range from its first page
/// to its last, which may not come before the first.
pub open spec fn ranges_from(t: Seq<char>, i: int, count: usize, acc: Seq<(usize, usize)>) -> Result<Seq<(usize, usize)>, Seq<char>>
    decreases t.len() - i + 1,
{
    if i < 0 || i > t.len() {
        Ok(acc)
    } else {
        let j = next_comma(t, i);
        proof {
            lemma_find_char(t, ',', i, t.len() as int);
        }
        let (a, b) = trimmed(t, i, j);
        let step = if a == b {
            Ok(acc)
        } else {
            match pages_of(t.subrange(a, b), count) {
                Err(m) => Err(m),
                Ok(ps) => if ps[0] > ps.last() {
                    Err("plage à l'envers : « "@ + t.subrange(a, b) + " »"@)
                } else {
                    Ok(acc.push((ps[0], (ps.last() + 1) as usize)))
                },
            }
        };
        match step {
            Err(m) => Err(m),
            Ok(next) => if j >= t.len() {
                Ok(next)
            } else {
                ranges_from(t, j + 1, count, next)
            },
        }
    }
}

/// What `parse_ranges` gives for `t`: the ranges, 0-based with the end
/// excluded, or the message that refuses the argument.
pub open spec fn ranges_of(t: Seq<char>, count: usize) -> Result<Seq<(usize, usize)>, Seq<char>> {
    match ranges_from(t, 0, count, Seq::empty()) {
        Err(m) => Err(m),
        Ok(rs) => if rs.len() == 0 {
            Err("aucune plage indiquée (exemple : 1-3,4-6)"@)
        } else {
            Ok(rs)
        },
    }
}

proof fn lemma_pages_of_bounds(t: Seq<char>, count: usize)
    requires
        pages_of(t, count) is Ok,
    ensures
        pages_of(t, count)->Ok_0.len() > 0,
{
}

/// Parts of a split given as `1-3,4-6,7`, 1-based: each part a page or a
/// span that does not count down. Parts may overlap.
pub fn parse_ranges(spec: &str, count: usize) -> (r: Result<Vec<Range<usize>>, UsageError>)
    ensures
        match ranges_of(spec@, count) {
            Ok(rs) => r matches Ok(v) && v@.len() == rs.len() && forall|k: int|
                0 <= k < rs.len() ==> v@[k].start == rs[k].0 && v@[k].end == rs[k].1,
            Err(m) => r matches Err(e) && e.message@ == m,
        },
{
    let n = spec.unicode_len();
    let mut ranges: Vec<Range<usize>> = Vec::new();
    let ghost mut model: Seq<(usize, usize)> = Seq::empty();
    let mut i: usize = 0;
    loop
        invariant_except_break
            i <= n,
            ranges_from(spec@, i as int, count, model) == ranges_from(
                spec@,
                0,
                count,
                Seq::empty(),
            ),
        invariant
            n == spec@.len(),
            ranges@.len() == model.len(),
            forall|k: int|
                0 <= k < model.len() ==> ranges@[k].start == model[k].0 && ranges@[k].end
                    == model[k].1,
        ensures
            ranges_from(spec@, 0, count, Seq::empty()) == Ok::<Seq<(usize, usize)>, Seq<char>>(
                model,
            ),
        decreases n - i,
    {
        let j = find_in(spec, ',', i, n);
        let (a, b) = trim_range(spec, i, j);
        if a != b {
            let text = spec.substring_char(a, b);
            let pages = match parse_pages(text, count) {
                Ok(v) => v,
                Err(e) => {
                    return Err(e);
                },
            };
            proof {
                lemma_pages_of_bounds(spec@.subrange(a as int, b as int), count);
            }
            let first = pages[0];
            let last = pages[pages.len() - 1];
            if first > last {
                let mut m = string_of("plage à l'envers : « ");
                push_str(&mut m, text);
                push_str(&mut m, " »");
                return Err(usage(m));
            }
            ranges.push(first..last + 1);
            proof {
                model = model.push((first, (last + 1) as usize));
            }
        }
        if j >= n {
            break;
        }
        i = j + 1;
    }
    if ranges.len() == 0 {
        return Err(usage(string_of("aucune plage indiquée (exemple : 1-3,4-6)")));
    }
    Ok(ranges)
}

} // verus!
