//! Lexical layer of the capture format: line splitting with 1-based line
//! numbers, whitespace trimming, token scanning, and integer literals.
//!
//! All spec functions work over index ranges into one character sequence, so
//! that the executable single-pass scanners mirror them directly.

use vstd::prelude::*;

use crate::parsing_error::NumberError;

verus! {

/// Whitespace inside a line: space, tab, carriage return.
pub open spec fn is_space(c: char) -> bool {
    c == ' ' || c == '\t' || c == '\r'
}

/// Index of the first newline at or after `i`, or `s.len()` if none.
pub open spec fn find_nl(s: Seq<char>, i: int) -> int
    decreases s.len() - i,
    when 0 <= i <= s.len()
{
    if i >= s.len() {
        i
    } else if s[i] == '\n' {
        i
    } else {
        find_nl(s, i + 1)
    }
}

pub proof fn lemma_find_nl(s: Seq<char>, i: int)
    requires
        0 <= i <= s.len(),
    ensures
        i <= find_nl(s, i) <= s.len(),
        forall|j: int| i <= j < find_nl(s, i) ==> s[j] != '\n',
        find_nl(s, i) < s.len() ==> s[find_nl(s, i)] == '\n',
    decreases s.len() - i,
{
    if i < s.len() && s[i] != '\n' {
        lemma_find_nl(s, i + 1);
    }
}

/// Index of the first non-space at or after `i` within `[i, e)`, or `e`.
pub open spec fn skip_spaces(s: Seq<char>, i: int, e: int) -> int
    decreases e - i,
    when 0 <= i <= e <= s.len()
{
    if i < e && is_space(s[i]) {
        skip_spaces(s, i + 1, e)
    } else {
        i
    }
}

pub proof fn lemma_skip_spaces(s: Seq<char>, i: int, e: int)
    requires
        0 <= i <= e <= s.len(),
    ensures
        i <= skip_spaces(s, i, e) <= e,
        forall|j: int| i <= j < skip_spaces(s, i, e) ==> is_space(s[j]),
        skip_spaces(s, i, e) < e ==> !is_space(s[skip_spaces(s, i, e)]),
    decreases e - i,
{
    if i < e && is_space(s[i]) {
        lemma_skip_spaces(s, i + 1, e);
    }
}

/// End of the trimmed range: the least `b` in `[a, e]` such that everything in
/// `[b, e)` is space, with nothing dropped past a non-space.
pub open spec fn rskip_spaces(s: Seq<char>, a: int, e: int) -> int
    decreases e - a,
    when 0 <= a <= e <= s.len()
{
    if a < e && is_space(s[e - 1]) {
        rskip_spaces(s, a, e - 1)
    } else {
        e
    }
}

pub proof fn lemma_rskip_spaces(s: Seq<char>, a: int, e: int)
    requires
        0 <= a <= e <= s.len(),
    ensures
        a <= rskip_spaces(s, a, e) <= e,
        forall|j: int| rskip_spaces(s, a, e) <= j < e ==> is_space(s[j]),
        rskip_spaces(s, a, e) > a ==> !is_space(s[rskip_spaces(s, a, e) - 1]),
    decreases e - a,
{
    if a < e && is_space(s[e - 1]) {
        lemma_rskip_spaces(s, a, e - 1);
    }
}

/// End of the token starting at `i`: the first space at or after `i` within
/// `[i, e)`, or `e`.
pub open spec fn token_end(s: Seq<char>, i: int, e: int) -> int
    decreases e - i,
    when 0 <= i <= e <= s.len()
{
    if i < e && !is_space(s[i]) {
        token_end(s, i + 1, e)
    } else {
        i
    }
}

pub proof fn lemma_token_end(s: Seq<char>, i: int, e: int)
    requires
        0 <= i <= e <= s.len(),
    ensures
        i <= token_end(s, i, e) <= e,
        forall|j: int| i <= j < token_end(s, i, e) ==> !is_space(s[j]),
        token_end(s, i, e) < e ==> is_space(s[token_end(s, i, e)]),
    decreases e - i,
{
    if i < e && !is_space(s[i]) {
        lemma_token_end(s, i + 1, e);
    }
}

/// Index of the first `=` at or after `i` within `[i, e)`, or `e`.
pub open spec fn find_eq(s: Seq<char>, i: int, e: int) -> int
    decreases e - i,
    when 0 <= i <= e <= s.len()
{
    if i < e && s[i] != '=' {
        find_eq(s, i + 1, e)
    } else {
        i
    }
}

/// One non-blank line of the source: its 1-based number and the bounds of its
/// trimmed content.
pub struct LineSpan {
    pub num: int,
    pub start: int,
    pub end: int,
}

/// The non-blank lines of `s` from position `pos` on, the line at `pos`
/// numbered `num`; each line trimmed of surrounding whitespace.
pub open spec fn spec_lines_at(s: Seq<char>, pos: int, num: int) -> Seq<LineSpan>
    decreases s.len() - pos,
    when 0 <= pos <= s.len()
    via spec_lines_at_dec
{
    if pos >= s.len() {
        seq![]
    } else {
        let e = find_nl(s, pos);
        let a = skip_spaces(s, pos, e);
        let b = rskip_spaces(s, a, e);
        let rest = if e < s.len() {
            spec_lines_at(s, e + 1, num + 1)
        } else {
            seq![]
        };
        if a == b {
            rest
        } else {
            seq![LineSpan { num, start: a, end: b }] + rest
        }
    }
}

#[via_fn]
proof fn spec_lines_at_dec(s: Seq<char>, pos: int, num: int) {
    if 0 <= pos < s.len() {
        lemma_find_nl(s, pos);
    }
}

/// The numbered, trimmed, non-blank lines of `s`.
pub open spec fn spec_lines(s: Seq<char>) -> Seq<LineSpan> {
    spec_lines_at(s, 0, 1)
}

pub proof fn lemma_lines_at_bounds(s: Seq<char>, pos: int, num: int)
    requires
        0 <= pos <= s.len(),
    ensures
        spec_lines_at(s, pos, num).len() <= s.len() - pos,
        forall|k: int|
            0 <= k < spec_lines_at(s, pos, num).len() ==> {
                let l = #[trigger] spec_lines_at(s, pos, num)[k];
                pos <= l.start < l.end <= s.len() && l.num >= num
            },
    decreases s.len() - pos,
{
    if pos < s.len() {
        let e = find_nl(s, pos);
        lemma_find_nl(s, pos);
        let a = skip_spaces(s, pos, e);
        lemma_skip_spaces(s, pos, e);
        let b = rskip_spaces(s, a, e);
        lemma_rskip_spaces(s, a, e);
        if e < s.len() {
            lemma_lines_at_bounds(s, e + 1, num + 1);
        }
        let rest = if e < s.len() {
            spec_lines_at(s, e + 1, num + 1)
        } else {
            seq![]
        };
        assert forall|k: int|
            0 <= k < spec_lines_at(s, pos, num).len() implies {
            let l = #[trigger] spec_lines_at(s, pos, num)[k];
            pos <= l.start < l.end <= s.len() && l.num >= num
        } by {
            if a == b {
                assert(spec_lines_at(s, pos, num)[k] == rest[k]);
            } else {
                if k == 0 {
                    assert(spec_lines_at(s, pos, num)[k] == LineSpan { num, start: a, end: b });
                } else {
                    assert(spec_lines_at(s, pos, num)[k] == rest[k - 1]);
                }
            }
        }
    }
}

/// No line ever holds a newline: each ends at the first one.
pub proof fn lemma_lines_no_nl(s: Seq<char>, pos: int, num: int)
    requires
        0 <= pos <= s.len(),
    ensures
        forall|k: int, c: int|
            #![trigger spec_lines_at(s, pos, num)[k], s[c]]
            0 <= k < spec_lines_at(s, pos, num).len() && spec_lines_at(s, pos, num)[k].start <= c
                < spec_lines_at(s, pos, num)[k].end ==> s[c] != '\n',
    decreases s.len() - pos,
{
    if pos < s.len() {
        let e = find_nl(s, pos);
        lemma_find_nl(s, pos);
        let a = skip_spaces(s, pos, e);
        lemma_skip_spaces(s, pos, e);
        let b = rskip_spaces(s, a, e);
        lemma_rskip_spaces(s, a, e);
        if e < s.len() {
            lemma_lines_no_nl(s, e + 1, num + 1);
        }
        let rest = if e < s.len() {
            spec_lines_at(s, e + 1, num + 1)
        } else {
            seq![]
        };
        assert forall|k: int, c: int|
            #![trigger spec_lines_at(s, pos, num)[k], s[c]]
            0 <= k < spec_lines_at(s, pos, num).len() && spec_lines_at(s, pos, num)[k].start <= c
                < spec_lines_at(s, pos, num)[k].end implies s[c] != '\n' by {
            if a == b {
                assert(spec_lines_at(s, pos, num)[k] == rest[k]);
            } else {
                if k == 0 {
                    assert(spec_lines_at(s, pos, num)[k] == LineSpan { num, start: a, end: b });
                } else {
                    assert(spec_lines_at(s, pos, num)[k] == rest[k - 1]);
                }
            }
        }
    }
}

/// Every token is a non-empty run of non-space characters.
pub proof fn lemma_tokens_chars(s: Seq<char>, i: int, e: int)
    requires
        0 <= i <= e <= s.len(),
    ensures
        forall|k: int|
            0 <= k < spec_tokens(s, i, e).len() ==> {
                let t = #[trigger] spec_tokens(s, i, e)[k];
                &&& i <= t.0 < t.1 <= e
                &&& forall|c: int| t.0 <= c < t.1 ==> !is_space(#[trigger] s[c])
            },
    decreases e - i,
{
    let a = skip_spaces(s, i, e);
    lemma_skip_spaces(s, i, e);
    if a < e {
        let b = token_end(s, a, e);
        lemma_token_end(s, a, e);
        assert(!is_space(s[a]));
        assert(b > a);
        lemma_tokens_chars(s, b, e);
        let rest = spec_tokens(s, b, e);
        assert forall|k: int|
            0 <= k < spec_tokens(s, i, e).len() implies {
            let t = #[trigger] spec_tokens(s, i, e)[k];
            &&& i <= t.0 < t.1 <= e
            &&& forall|c: int| t.0 <= c < t.1 ==> !is_space(#[trigger] s[c])
        } by {
            if k == 0 {
                assert(spec_tokens(s, i, e)[k] == (a, b));
            } else {
                assert(spec_tokens(s, i, e)[k] == rest[k - 1]);
            }
        }
    }
}

/// Executable form of a [`LineSpan`], with machine indices.
#[derive(Debug, Clone, Copy, PartialEq, Eq)]
pub struct Line {
    pub num: usize,
    pub start: usize,
    pub end: usize,
}

impl View for Line {
    type V = LineSpan;

    open spec fn view(&self) -> LineSpan {
        LineSpan { num: self.num as int, start: self.start as int, end: self.end as int }
    }
}

/// The views of a sequence of executable lines.
pub open spec fn lines_view(ls: Seq<Line>) -> Seq<LineSpan> {
    ls.map_values(|l: Line| l@)
}

/// Collects the characters of a string slice.
pub fn to_chars(s: &str) -> (r: Vec<char>)
    ensures
        r@ == s@,
{
    let n = s.unicode_len();
    let mut r: Vec<char> = Vec::new();
    let mut i: usize = 0;
    while i < n
        invariant
            i <= n,
            n == s@.len(),
            r@ == s@.take(i as int),
        decreases n - i,
    {
        r.push(s.get_char(i));
        assert(r@ =~= s@.take(i + 1));
        i += 1;
    }
    assert(r@ =~= s@);
    r
}

/// Splits the source into numbered, trimmed, non-blank lines.
pub fn scan_lines(v: &Vec<char>) -> (r: Vec<Line>)
    requires
        v@.len() < usize::MAX,
    ensures
        lines_view(r@) == spec_lines(v@),
{
    let n = v.len();
    let mut out: Vec<Line> = Vec::new();
    let mut pos: usize = 0;
    let mut num: usize = 1;
    while pos < n
        invariant
            0 <= pos <= n,
            n == v@.len(),
            n < usize::MAX,
            num >= 1,
            num <= pos + 1,
            lines_view(out@) + spec_lines_at(v@, pos as int, num as int) == spec_lines(v@),
        decreases n - pos,
    {
        // end of the raw line
        let mut e: usize = pos;
        while e < n && v[e] != '\n'
            invariant
                pos <= e <= n,
                n == v@.len(),
                find_nl(v@, pos as int) == find_nl(v@, e as int),
            decreases n - e,
        {
            e += 1;
        }
        assert(find_nl(v@, pos as int) == e as int);
        // trim
        let mut a: usize = pos;
        while a < e && (v[a] == ' ' || v[a] == '\t' || v[a] == '\r')
            invariant
                pos <= a <= e <= n,
                n == v@.len(),
                skip_spaces(v@, pos as int, e as int) == skip_spaces(v@, a as int, e as int),
            decreases e - a,
        {
            a += 1;
        }
        assert(skip_spaces(v@, pos as int, e as int) == a as int);
        let mut b: usize = e;
        while b > a && (v[b - 1] == ' ' || v[b - 1] == '\t' || v[b - 1] == '\r')
            invariant
                a <= b <= e <= n,
                n == v@.len(),
                rskip_spaces(v@, a as int, e as int) == rskip_spaces(v@, a as int, b as int),
            decreases b,
        {
            b -= 1;
        }
        assert(rskip_spaces(v@, a as int, e as int) == b as int);
        let ghost prev = out@;
        if a < b {
            out.push(Line { num, start: a, end: b });
            assert(lines_view(out@) =~= lines_view(prev) + seq![
                LineSpan { num: num as int, start: a as int, end: b as int },
            ]);
        }
        if e < n {
            pos = e + 1;
            num = num + 1;
        } else {
            pos = n;
        }
    }
    out
}

/// The value of `c` as a decimal digit.
pub open spec fn digit_val(c: char) -> int {
    c as u32 - 48
}

/// Whether `c` is a decimal digit.
pub open spec fn is_digit(c: char) -> bool {
    48 <= c as u32 <= 57
}

/// Whether `s` is one or more decimal digits.
pub open spec fn all_digits(s: Seq<char>) -> bool {
    s.len() > 0 && forall|i: int| 0 <= i < s.len() ==> is_digit(#[trigger] s[i])
}

/// The numeric value of a digit string.
pub open spec fn digits_val(s: Seq<char>) -> int
    decreases s.len(),
{
    if s.len() == 0 {
        0
    } else {
        digits_val(s.drop_last()) * 10 + digit_val(s.last())
    }
}

pub proof fn lemma_digits_val_bounds(s: Seq<char>)
    requires
        forall|i: int| 0 <= i < s.len() ==> is_digit(#[trigger] s[i]),
    ensures
        0 <= digits_val(s),
        forall|k: int| 0 <= k <= s.len() ==> 0 <= digits_val(#[trigger] s.take(k)) <= digits_val(s),
    decreases s.len(),
{
    if s.len() == 0 {
        assert forall|k: int| 0 <= k <= s.len() implies 0 <= digits_val(#[trigger] s.take(k))
            <= digits_val(s) by {
            assert(s.take(k) =~= s);
        }
    } else {
        let p = s.drop_last();
        lemma_digits_val_bounds(p);
        assert(digit_val(s.last()) >= 0);
        assert(digits_val(s) >= digits_val(p));
        assert forall|k: int| 0 <= k <= s.len() implies 0 <= digits_val(#[trigger] s.take(k))
            <= digits_val(s) by {
            if k == s.len() {
                assert(s.take(k) =~= s);
            } else {
                assert(s.take(k) =~= p.take(k));
                assert(digits_val(p.take(k)) <= digits_val(p));
            }
        }
    }
}

/// An unsigned decimal literal: an optional `+`, then digits, within `u32`.
pub open spec fn spec_parse_u32(s: Seq<char>) -> Result<u32, NumberError> {
    if s.len() == 0 {
        Err(NumberError::Empty)
    } else {
        let ds = if s[0] == '+' {
            s.skip(1)
        } else {
            s
        };
        if !all_digits(ds) {
            Err(NumberError::InvalidDigit)
        } else if digits_val(ds) > u32::MAX {
            Err(NumberError::PosOverflow)
        } else {
            Ok(digits_val(ds) as u32)
        }
    }
}

/// A signed decimal literal: an optional sign, then digits, within `i32`.
pub open spec fn spec_parse_i32(s: Seq<char>) -> Result<i32, NumberError> {
    if s.len() == 0 {
        Err(NumberError::Empty)
    } else {
        let neg = s[0] == '-';
        let ds = if s[0] == '-' || s[0] == '+' {
            s.skip(1)
        } else {
            s
        };
        if !all_digits(ds) {
            Err(NumberError::InvalidDigit)
        } else if neg && digits_val(ds) > 0x8000_0000 {
            Err(NumberError::NegOverflow)
        } else if !neg && digits_val(ds) > i32::MAX {
            Err(NumberError::PosOverflow)
        } else if neg {
            Ok((-digits_val(ds)) as i32)
        } else {
            Ok(digits_val(ds) as i32)
        }
    }
}

/// Scans the digit run `[i, e)`, returning its value unless it is empty, holds
/// a non-digit, or exceeds `cap`.
fn scan_digits(v: &Vec<char>, i: usize, e: usize, cap: u64) -> (r: Result<u64, NumberError>)
    requires
        i <= e <= v@.len(),
        cap <= 0x1_0000_0000,
    ensures
        ({
            let ds = v@.subrange(i as int, e as int);
            match r {
                Ok(x) => all_digits(ds) && digits_val(ds) == x && x <= cap,
                Err(NumberError::InvalidDigit) => !all_digits(ds),
                Err(NumberError::PosOverflow) => all_digits(ds) && digits_val(ds) > cap,
                _ => false,
            }
        }),
{
    let ghost ds = v@.subrange(i as int, e as int);
    if i == e {
        return Err(NumberError::InvalidDigit);
    }
    // every character must be a digit
    let mut j: usize = i;
    while j < e
        invariant
            i <= j <= e <= v@.len(),
            ds == v@.subrange(i as int, e as int),
            forall|k: int| 0 <= k < j - i ==> is_digit(#[trigger] ds[k]),
        decreases e - j,
    {
        let c = v[j];
        assert(ds[j - i] == c);
        let d = c as u32;
        if !(48 <= d && d <= 57) {
            assert(!is_digit(ds[j - i]));
            return Err(NumberError::InvalidDigit);
        }
        assert(is_digit(ds[j - i]));
        j += 1;
    }
    assert(all_digits(ds));
    proof {
        lemma_digits_val_bounds(ds);
    }
    // accumulate, stopping once the value exceeds the cap
    let mut acc: u64 = 0;
    let mut k: usize = 0;
    let n = e - i;
    assert(ds.take(0) =~= Seq::<char>::empty());
    while k < n
        invariant
            0 <= k <= n,
            n == ds.len(),
            i + n == e <= v@.len(),
            ds == v@.subrange(i as int, e as int),
            all_digits(ds),
            cap <= 0x1_0000_0000,
            acc == digits_val(ds.take(k as int)),
            acc <= cap,
        decreases n - k,
    {
        let c = v[i + k];
        assert(ds[k as int] == c);
        assert(is_digit(c));
        let d = (c as u32 - 48) as u64;
        assert(digit_val(c) == d);
        let next = acc * 10 + d;
        assert(ds.take(k + 1).drop_last() =~= ds.take(k as int));
        assert(ds.take(k + 1).last() == ds[k as int]);
        assert(next == digits_val(ds.take(k + 1)));
        if next > cap {
            proof {
                lemma_digits_val_bounds(ds);
                assert(digits_val(ds.take(k + 1)) <= digits_val(ds));
            }
            return Err(NumberError::PosOverflow);
        }
        acc = next;
        k += 1;
    }
    assert(ds.take(n as int) =~= ds);
    Ok(acc)
}

/// Parses `[a, b)` as an unsigned 32-bit decimal literal.
pub fn parse_u32_range(v: &Vec<char>, a: usize, b: usize) -> (r: Result<u32, NumberError>)
    requires
        a <= b <= v@.len(),
    ensures
        r == spec_parse_u32(v@.subrange(a as int, b as int)),
{
    let ghost s = v@.subrange(a as int, b as int);
    if a == b {
        return Err(NumberError::Empty);
    }
    let start = if v[a] == '+' {
        a + 1
    } else {
        a
    };
    proof {
        if s[0] == '+' {
            assert(v@.subrange(start as int, b as int) =~= s.skip(1));
        } else {
            assert(v@.subrange(start as int, b as int) =~= s);
        }
    }
    match scan_digits(v, start, b, 0xFFFF_FFFF) {
        Ok(x) => Ok(x as u32),
        Err(e) => Err(e),
    }
}

/// Parses `[a, b)` as a signed 32-bit decimal literal.
pub fn parse_i32_range(v: &Vec<char>, a: usize, b: usize) -> (r: Result<i32, NumberError>)
    requires
        a <= b <= v@.len(),
    ensures
        r == spec_parse_i32(v@.subrange(a as int, b as int)),
{
    let ghost s = v@.subrange(a as int, b as int);
    if a == b {
        return Err(NumberError::Empty);
    }
    let neg = v[a] == '-';
    let start = if v[a] == '-' || v[a] == '+' {
        a + 1
    } else {
        a
    };
    proof {
        if s[0] == '-' || s[0] == '+' {
            assert(v@.subrange(start as int, b as int) =~= s.skip(1));
        } else {
            assert(v@.subrange(start as int, b as int) =~= s);
        }
    }
    let cap: u64 = if neg {
        0x8000_0000
    } else {
        0x7FFF_FFFF
    };
    match scan_digits(v, start, b, cap) {
        Ok(x) => {
            if neg {
                assert(x <= 0x8000_0000);
                let xi: i64 = -(x as i64);
                assert(-0x8000_0000 <= xi <= 0);
                Ok(xi as i32)
            } else {
                Ok(x as i32)
            }
        },
        Err(NumberError::PosOverflow) => {
            if neg {
                Err(NumberError::NegOverflow)
            } else {
                Err(NumberError::PosOverflow)
            }
        },
        Err(e) => Err(e),
    }
}

/// The token ranges of `[i, e)`, split on whitespace.
pub open spec fn spec_tokens(s: Seq<char>, i: int, e: int) -> Seq<(int, int)>
    decreases e - i,
    when 0 <= i <= e <= s.len()
    via spec_tokens_dec
{
    let a = skip_spaces(s, i, e);
    if a >= e {
        seq![]
    } else {
        let b = token_end(s, a, e);
        seq![(a, b)] + spec_tokens(s, b, e)
    }
}

#[via_fn]
proof fn spec_tokens_dec(s: Seq<char>, i: int, e: int) {
    if 0 <= i <= e <= s.len() {
        lemma_skip_spaces(s, i, e);
        let a = skip_spaces(s, i, e);
        if a < e {
            lemma_token_end(s, a, e);
        }
    }
}

/// The views of a sequence of executable token ranges.
pub open spec fn spans_view(ts: Seq<(usize, usize)>) -> Seq<(int, int)> {
    ts.map_values(|t: (usize, usize)| (t.0 as int, t.1 as int))
}

/// Splits `[i, e)` into whitespace-separated tokens.
pub fn scan_tokens(v: &Vec<char>, i: usize, e: usize) -> (r: Vec<(usize, usize)>)
    requires
        i <= e <= v@.len(),
    ensures
        spans_view(r@) == spec_tokens(v@, i as int, e as int),
        forall|k: int| 0 <= k < r@.len() ==> i <= (#[trigger] r@[k]).0 < r@[k].1 <= e,
{
    let mut out: Vec<(usize, usize)> = Vec::new();
    let mut pos: usize = i;
    while pos < e
        invariant
            i <= pos <= e <= v@.len(),
            spans_view(out@) + spec_tokens(v@, pos as int, e as int) == spec_tokens(
                v@,
                i as int,
                e as int,
            ),
            forall|k: int| 0 <= k < out@.len() ==> i <= (#[trigger] out@[k]).0 < out@[k].1 <= e,
        decreases e - pos,
    {
        let mut a: usize = pos;
        while a < e && (v[a] == ' ' || v[a] == '\t' || v[a] == '\r')
            invariant
                pos <= a <= e <= v@.len(),
                skip_spaces(v@, pos as int, e as int) == skip_spaces(v@, a as int, e as int),
            decreases e - a,
        {
            a += 1;
        }
        assert(skip_spaces(v@, pos as int, e as int) == a as int);
        if a == e {
            pos = e;
        } else {
            let mut b: usize = a;
            while b < e && !(v[b] == ' ' || v[b] == '\t' || v[b] == '\r')
                invariant
                    a <= b <= e <= v@.len(),
                    token_end(v@, a as int, e as int) == token_end(v@, b as int, e as int),
                decreases e - b,
            {
                b += 1;
            }
            assert(token_end(v@, a as int, e as int) == b as int);
            let ghost prev = out@;
            out.push((a, b));
            assert(spans_view(out@) =~= spans_view(prev) + seq![(a as int, b as int)]);
            assert(b > a);
            pos = b;
        }
    }
    assert(spec_tokens(v@, pos as int, e as int) =~= Seq::<(int, int)>::empty());
    assert(spans_view(out@) =~= spans_view(out@) + spec_tokens(v@, pos as int, e as int));
    out
}

/// Whether `[a, b)` of `v` spells exactly `lit`.
pub fn range_eq_lit(v: &Vec<char>, a: usize, b: usize, lit: &str) -> (r: bool)
    requires
        a <= b <= v@.len(),
    ensures
        r == (v@.subrange(a as int, b as int) == lit@),
{
    let ghost s = v@.subrange(a as int, b as int);
    let n = lit.unicode_len();
    if b - a != n {
        assert(s.len() != lit@.len());
        return false;
    }
    let mut i: usize = 0;
    while i < n
        invariant
            0 <= i <= n,
            n == lit@.len(),
            a + n == b <= v@.len(),
            s == v@.subrange(a as int, b as int),
            forall|j: int| 0 <= j < i ==> s[j] == lit@[j],
        decreases n - i,
    {
        if v[a + i] != lit.get_char(i) {
            assert(s[i as int] != lit@[i as int]);
            return false;
        }
        assert(s[i as int] == lit@[i as int]);
        i += 1;
    }
    assert(s =~= lit@);
    true
}

} // verus!
