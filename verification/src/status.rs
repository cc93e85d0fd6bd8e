//! The memory figure in the status bar: the resident set size the kernel
//! reports in `/proc/self/status`, in mebibytes.

use vstd::prelude::*;
use crate::file_types::chars_of;

verus! {

/// Bytes per mebibyte.
pub const MEBIBYTE: u64 = 1024 * 1024;

/// A byte count in mebibytes, rounded up.
pub fn bytes_to_mb(bytes: u64) -> (mb: u64)
    ensures
        mb == (bytes + MEBIBYTE - 1) / (MEBIBYTE as int),
{
    let q = bytes / MEBIBYTE;
    if bytes % MEBIBYTE == 0 {
        q
    } else {
        q + 1
    }
}

/// `char::is_whitespace`: the Unicode `White_Space` property.
pub open spec fn is_whitespace(c: char) -> bool {
    ||| '\t' <= c <= '\r'
    ||| c == ' '
    ||| c == '\u{85}'
    ||| c == '\u{a0}'
    ||| c == '\u{1680}'
    ||| '\u{2000}' <= c <= '\u{200a}'
    ||| c == '\u{2028}'
    ||| c == '\u{2029}'
    ||| c == '\u{202f}'
    ||| c == '\u{205f}'
    ||| c == '\u{3000}'
}

pub open spec fn vmrss_prefix() -> Seq<char> {
    seq!['V', 'm', 'R', 'S', 'S', ':']
}

/// The index of the first line feed at or after `i`, or the length.
pub open spec fn line_end(s: Seq<char>, i: int) -> int
    decreases s.len() - i,
{
    if i < 0 || i >= s.len() {
        s.len() as int
    } else if s[i] == '\n' {
        i
    } else {
        line_end(s, i + 1)
    }
}

pub proof fn lemma_rss_line_found(s: Seq<char>, i: int)
    ensures
        rss_line_from(s, i) matches Some(l) ==> starts_at(s, l, vmrss_prefix()) && l <= s.len(),
    decreases s.len() - i,
{
    if i < 0 || i > s.len() {
    } else if starts_at(s, i, vmrss_prefix()) {
    } else {
        lemma_line_end_bounds(s, i);
        let e = line_end(s, i);
        if e < s.len() {
            lemma_rss_line_found(s, e + 1);
        }
    }
}

pub proof fn lemma_line_end_bounds(s: Seq<char>, i: int)
    requires
        0 <= i,
    ensures
        i <= line_end(s, i) || i > s.len(),
        line_end(s, i) <= s.len(),
        forall|k: int| i <= k < line_end(s, i) ==> #[trigger] s[k] != '\n',
    decreases s.len() - i,
{
    if i < s.len() && s[i] != '\n' {
        lemma_line_end_bounds(s, i + 1);
    }
}

/// The text at `i` starts with `pre`.
pub open spec fn starts_at(s: Seq<char>, i: int, pre: Seq<char>) -> bool {
    0 <= i && i + pre.len() <= s.len() && s.subrange(i, i + pre.len()) == pre
}

/// The start of the first line, from the line that starts at `i` on, that
/// begins with `VmRSS:`.
pub open spec fn rss_line_from(s: Seq<char>, i: int) -> Option<int>
    decreases s.len() - i,
{
    if i < 0 || i > s.len() {
        None
    } else if starts_at(s, i, vmrss_prefix()) {
        Some(i)
    } else {
        let e = line_end(s, i);
        proof {
            lemma_line_end_bounds(s, i);
        }
        if e >= s.len() {
            None
        } else {
            rss_line_from(s, e + 1)
        }
    }
}

/// The first index in `i..end` that `pred` does not hold of, or `end`.
pub open spec fn skip_while(s: Seq<char>, i: int, end: int, ws: bool) -> int
    decreases end - i,
{
    if i < 0 || i >= end {
        end
    } else if is_whitespace(s[i]) == ws {
        skip_while(s, i + 1, end, ws)
    } else {
        i
    }
}

pub proof fn lemma_skip_while_bounds(s: Seq<char>, i: int, end: int, ws: bool)
    requires
        0 <= i <= end,
    ensures
        i <= skip_while(s, i, end, ws) <= end,
    decreases end - i,
{
    if i < end && is_whitespace(s[i]) == ws {
        lemma_skip_while_bounds(s, i + 1, end, ws);
    }
}

pub open spec fn is_digit(c: char) -> bool {
    '0' <= c <= '9'
}

/// The value of a run of decimal digits.
pub open spec fn decimal(d: Seq<char>) -> int
    decreases d.len(),
{
    if d.len() == 0 {
        0
    } else {
        decimal(d.drop_last()) * 10 + (d.last() as int - '0' as int)
    }
}

/// A number's digits: the text after an optional leading `+`.
pub open spec fn unsigned_digits(tok: Seq<char>) -> Seq<char> {
    if tok.len() > 0 && tok[0] == '+' {
        tok.skip(1)
    } else {
        tok
    }
}

pub open spec fn all_digits(d: Seq<char>) -> bool {
    forall|i: int| 0 <= i < d.len() ==> is_digit(#[trigger] d[i])
}

/// `u64::from_str`: an optional `+`, then one or more ASCII digits whose value
/// fits in `u64`.
pub open spec fn parse_u64(tok: Seq<char>) -> Option<u64> {
    let d = unsigned_digits(tok);
    if d.len() == 0 || !all_digits(d) || decimal(d) > u64::MAX {
        None
    } else {
        Some(decimal(d) as u64)
    }
}

/// The `VmRSS` figure of a `/proc/<pid>/status` text: the first whitespace-
/// separated word after `VmRSS:` on the first line that starts with it, read
/// as a `u64` (the kernel gives it in kB).
pub open spec fn vm_rss_kb_of(s: Seq<char>) -> Option<u64> {
    match rss_line_from(s, 0) {
        None => None,
        Some(i) => {
            let e = line_end(s, i);
            let t = skip_while(s, i + 6, e, true);
            if t >= e {
                None
            } else {
                parse_u64(s.subrange(t, skip_while(s, t, e, false)))
            }
        },
    }
}

fn is_ws(c: char) -> (r: bool)
    ensures
        r == is_whitespace(c),
{
    ('\t' <= c && c <= '\r') || c == ' ' || c == '\u{85}' || c == '\u{a0}' || c == '\u{1680}' || (
    '\u{2000}' <= c && c <= '\u{200a}') || c == '\u{2028}' || c == '\u{2029}' || c == '\u{202f}'
        || c == '\u{205f}' || c == '\u{3000}'
}

proof fn lemma_decimal_prefix(d: Seq<char>, k: int)
    requires
        0 <= k <= d.len(),
        forall|i: int| 0 <= i < d.len() ==> is_digit(#[trigger] d[i]),
    ensures
        0 <= decimal(d.take(k)) <= decimal(d),
    decreases d.len(),
{
    if k < d.len() {
        let d1 = d.drop_last();
        assert(d1.take(k) =~= d.take(k));
        lemma_decimal_prefix(d1, k);
        assert(is_digit(d[d.len() - 1]));
    } else {
        assert(d.take(k) =~= d);
        lemma_decimal_nonneg(d);
    }
}

proof fn lemma_decimal_nonneg(d: Seq<char>)
    requires
        forall|i: int| 0 <= i < d.len() ==> is_digit(#[trigger] d[i]),
    ensures
        0 <= decimal(d),
    decreases d.len(),
{
    if d.len() > 0 {
        lemma_decimal_nonneg(d.drop_last());
        assert(is_digit(d[d.len() - 1]));
    }
}

fn parse_decimal_u64(s: &Vec<char>, start: usize, end: usize) -> (r: Option<u64>)
    requires
        start <= end <= s@.len(),
    ensures
        r == parse_u64(s@.subrange(start as int, end as int)),
{
    let ghost tok = s@.subrange(start as int, end as int);
    let mut i = start;
    if i < end && s[i] == '+' {
        i += 1;
    }
    let ghost d = s@.subrange(i as int, end as int);
    assert(d =~= unsigned_digits(tok));
    if i == end {
        return None;
    }
    let first = i;
    assert(d == s@.subrange(first as int, end as int));
    let mut value: u64 = 0;
    while i < end
        invariant
            first <= i <= end <= s@.len(),
            start <= first,
            tok == s@.subrange(start as int, end as int),
            d == unsigned_digits(tok),
            d == s@.subrange(first as int, end as int),
            forall|k: int| 0 <= k < i - first ==> is_digit(#[trigger] d[k]),
            value == decimal(d.take(i - first)),
        decreases end - i,
    {
        let c = s[i];
        if !('0' <= c && c <= '9') {
            assert(d[i - first] == c);
            assert(!is_digit(d[i - first]));
            assert(!all_digits(d));
            assert(parse_u64(tok) is None);
            return None;
        }
        let dv = (c as u32 - '0' as u32) as u64;
        assert(d.take(i - first + 1).drop_last() =~= d.take(i - first));
        assert(d[i - first] == c);
        assert(decimal(d.take(i - first + 1)) == value * 10 + dv);
        if value > (u64::MAX - dv) / 10 {
            proof {
                assert(value * 10 + dv > u64::MAX) by (nonlinear_arith)
                    requires
                        value > (u64::MAX - dv) / 10,
                        dv <= 9,
                ;
                if all_digits(d) {
                    lemma_decimal_prefix(d, i - first + 1);
                }
            }
            assert(parse_u64(tok) is None);
            return None;
        }
        value = value * 10 + dv;
        i += 1;
    }
    assert(d.take(i - first) =~= d);
    Some(value)
}

/// The `VmRSS` figure of a `/proc/<pid>/status` text, in kB (see `vm_rss_kb_of`).
pub fn vm_rss_kb(status: &str) -> (r: Option<u64>)
    ensures
        r == vm_rss_kb_of(status@),
{
    let s = chars_of(status);
    let n = s.len();
    let mut i: usize = 0;
    let mut line: Option<usize> = None;
    let mut done = false;
    while !done
        invariant
            i <= n,
            n == s@.len(),
            !done ==> rss_line_from(s@, i as int) == rss_line_from(s@, 0),
            !done ==> line is None,
            done ==> match line {
                Some(l) => rss_line_from(s@, 0) == Some(l as int) && l <= n,
                None => rss_line_from(s@, 0) is None,
            },
        decreases n - i + (if done { 0int } else { 1int }),
    {
        if n >= 6 && i <= n - 6 && s[i] == 'V' && s[i + 1] == 'm' && s[i + 2] == 'R' && s[i + 3] == 'S'
            && s[i + 4] == 'S' && s[i + 5] == ':' {
            assert(s@.subrange(i as int, i + 6) =~= vmrss_prefix());
            assert(starts_at(s@, i as int, vmrss_prefix()));
            assert(rss_line_from(s@, i as int) == Some(i as int));
            line = Some(i);
            done = true;
        } else {
            assert(!starts_at(s@, i as int, vmrss_prefix())) by {
                if i + 6 <= n && s@.subrange(i as int, i + 6) == vmrss_prefix() {
                    assert(s@.subrange(i as int, i + 6)[0] == s@[i as int]);
                    assert(s@.subrange(i as int, i + 6)[1] == s@[i + 1]);
                    assert(s@.subrange(i as int, i + 6)[2] == s@[i + 2]);
                    assert(s@.subrange(i as int, i + 6)[3] == s@[i + 3]);
                    assert(s@.subrange(i as int, i + 6)[4] == s@[i + 4]);
                    assert(s@.subrange(i as int, i + 6)[5] == s@[i + 5]);
                }
            }
            let mut e = i;
            while e < n && s[e] != '\n'
                invariant
                    i <= e <= n,
                    n == s@.len(),
                    line_end(s@, e as int) == line_end(s@, i as int),
                decreases n - e,
            {
                e += 1;
            }
            assert(line_end(s@, e as int) == e);
            assert(line_end(s@, i as int) == e);
            if e >= n {
                assert(rss_line_from(s@, i as int) is None);
                done = true;
            } else {
                assert(rss_line_from(s@, i as int) == rss_line_from(s@, e + 1));
                i = e + 1;
            }
        }
    }
    let start = match line {
        None => {
            return None;
        },
        Some(l) => l,
    };
    proof {
        lemma_line_end_bounds(s@, start as int);
    }
    let mut e = start;
    while e < n && s[e] != '\n'
        invariant
            start <= e <= n,
            n == s@.len(),
            line_end(s@, e as int) == line_end(s@, start as int),
        decreases n - e,
    {
        e += 1;
    }
    proof {
        lemma_rss_line_found(s@, 0);
        assert(starts_at(s@, start as int, vmrss_prefix()));
        lemma_line_end_bounds(s@, start as int);
        assert(start + 6 <= e) by {
            assert forall|k: int| start <= k < start + 6 implies #[trigger] s@[k] != '\n' by {
                assert(s@.subrange(start as int, start + 6)[k - start] == s@[k]);
            }
        }
    }
    let mut t = start + 6;
    while t < e && is_ws(s[t])
        invariant
            start + 6 <= t <= e <= n,
            n == s@.len(),
            skip_while(s@, t as int, e as int, true) == skip_while(s@, start + 6, e as int, true),
        decreases e - t,
    {
        t += 1;
    }
    if t >= e {
        return None;
    }
    let mut u = t;
    while u < e && !is_ws(s[u])
        invariant
            t <= u <= e <= n,
            n == s@.len(),
            skip_while(s@, u as int, e as int, false) == skip_while(s@, t as int, e as int, false),
        decreases e - u,
    {
        u += 1;
    }
    parse_decimal_u64(&s, t, u)
}

} // verus!
