//! Parser for the textual `.cube` 3D-LUT description: a line-oriented stream
//! holding a `LUT_3D_SIZE` directive and `N^3` data lines of three floats
//! each, turned into a dense RGBA float32 volume with alpha forced to 1.0.
//!
//! Floating-point text conversion cannot run inside the verified library, so
//! parsing is split in two verified halves around it: [`scan`] reads the line
//! structure and collects the numeric tokens of every data line, the host
//! converts each token to float bits, and [`parse`] combines the scan with
//! those bits, reporting faults exactly as a single line-by-line pass would:
//! the earliest faulting line wins, and within a data line a wrong token
//! count is reported before an unparsable token.

use vstd::prelude::*;

use crate::errors::FormatError;
use crate::layout::{expand_rgb, expand_rgb_words};

verus! {

// ---------------------------------------------------------------------------
// Lines
// ---------------------------------------------------------------------------

/// ASCII whitespace, as the tokenizer and the size directive's trim see it.
pub open spec fn is_ws(b: u8) -> bool {
    b == 32 || (9 <= b <= 13)
}

fn is_ws_byte(b: u8) -> (r: bool)
    ensures
        r == is_ws(b),
{
    b == 32 || (9 <= b && b <= 13)
}

/// One carriage return stripped from the end of a newline-terminated line.
pub open spec fn strip_cr(l: Seq<u8>) -> Seq<u8> {
    if l.len() > 0 && l[l.len() - 1] == 13 {
        l.take(l.len() - 1)
    } else {
        l
    }
}

/// Position of the first newline byte, or the length where there is none.
pub open spec fn first_nl(s: Seq<u8>) -> int
    decreases s.len(),
{
    if s.len() == 0 {
        0
    } else if s[0] == 10 {
        0
    } else {
        1 + first_nl(s.skip(1))
    }
}

proof fn lemma_first_nl(s: Seq<u8>)
    ensures
        0 <= first_nl(s) <= s.len(),
        first_nl(s) < s.len() ==> s[first_nl(s)] == 10,
        forall|i: int| 0 <= i < first_nl(s) ==> s[i] != 10,
    decreases s.len(),
{
    if s.len() > 0 && s[0] != 10 {
        lemma_first_nl(s.skip(1));
        assert forall|i: int| 0 <= i < first_nl(s) implies s[i] != 10 by {
            if i > 0 {
                assert(s.skip(1)[i - 1] != 10);
            }
        }
    }
}

proof fn lemma_first_nl_at(s: Seq<u8>, k: int)
    requires
        0 <= k < s.len(),
        s[k] == 10,
        forall|i: int| 0 <= i < k ==> s[i] != 10,
    ensures
        first_nl(s) == k,
    decreases k,
{
    if k > 0 {
        lemma_first_nl_at(s.skip(1), k - 1);
    }
}

/// The lines of a byte stream, as a buffered line reader yields them: split
/// at newlines, one carriage return stripped before each newline, and a
/// final unterminated fragment kept only where it is nonempty.
pub open spec fn split_lines(s: Seq<u8>) -> Seq<Seq<u8>>
    decreases s.len(),
    via split_lines_decreases
{
    if s.len() == 0 {
        Seq::empty()
    } else {
        let i = first_nl(s);
        if i == s.len() {
            seq![s]
        } else {
            seq![strip_cr(s.take(i))] + split_lines(s.skip(i + 1))
        }
    }
}

#[via_fn]
proof fn split_lines_decreases(s: Seq<u8>) {
    lemma_first_nl(s);
}

/// Splitting a stream whose head holds no newline: the head, stripped, is
/// the first line.
proof fn lemma_split_lines_head(c: Seq<u8>, t: Seq<u8>)
    requires
        forall|i: int| 0 <= i < c.len() ==> c[i] != 10,
    ensures
        split_lines(c + seq![10u8] + t) == seq![strip_cr(c)] + split_lines(t),
{
    let s = c + seq![10u8] + t;
    assert(s[c.len() as int] == 10);
    assert(forall|i: int| 0 <= i < c.len() ==> s[i] == c[i] && s[i] != 10);
    lemma_first_nl_at(s, c.len() as int);
    assert(s.take(c.len() as int) =~= c);
    assert(s.skip(c.len() as int + 1) =~= t);
}

fn split_into_lines(input: &[u8]) -> (lines: Vec<Vec<u8>>)
    ensures
        lines@.map_values(|l: Vec<u8>| l@) == split_lines(input@),
{
    let n: usize = input.len();
    let mut lines: Vec<Vec<u8>> = Vec::new();
    let mut cur: Vec<u8> = Vec::new();
    let mut j: usize = 0;
    proof {
        assert(cur@ + input@.skip(0) =~= input@);
        assert(lines@.map_values(|l: Vec<u8>| l@) + split_lines(input@) =~= split_lines(input@));
    }
    while j < n
        invariant
            n == input@.len(),
            j <= n,
            forall|i: int| 0 <= i < cur@.len() ==> cur@[i] != 10,
            split_lines(input@) == lines@.map_values(|l: Vec<u8>| l@) + split_lines(
                cur@ + input@.skip(j as int),
            ),
        decreases n - j,
    {
        let b = input[j];
        proof {
            assert(input@.skip(j as int) =~= seq![b] + input@.skip(j + 1));
        }
        if b == 10 {
            let ghost c = cur@;
            let mut line = cur;
            if line.len() > 0 && line[line.len() - 1] == 13 {
                let _popped = line.pop();
            }
            proof {
                assert(line@ == strip_cr(c));
                assert(c + input@.skip(j as int) =~= c + seq![10u8] + input@.skip(j + 1));
                lemma_split_lines_head(c, input@.skip(j + 1));
            }
            let ghost lines_before = lines@;
            lines.push(line);
            cur = Vec::new();
            proof {
                assert(lines@.map_values(|l: Vec<u8>| l@) =~= lines_before.map_values(
                    |l: Vec<u8>| l@,
                ) + seq![strip_cr(c)]);
                assert(cur@ + input@.skip(j + 1) =~= input@.skip(j + 1));
                assert(split_lines(input@) == lines@.map_values(|l: Vec<u8>| l@) + split_lines(
                    cur@ + input@.skip(j + 1),
                ));
            }
        } else {
            let ghost c = cur@;
            cur.push(b);
            proof {
                assert(cur@ + input@.skip(j + 1) =~= c + input@.skip(j as int));
            }
        }
        j = j + 1;
    }
    proof {
        assert(input@.skip(n as int) =~= Seq::<u8>::empty());
        assert(cur@ + input@.skip(n as int) =~= cur@);
    }
    if cur.len() > 0 {
        proof {
            lemma_first_nl(cur@);
            assert(first_nl(cur@) == cur@.len());
            assert(split_lines(cur@) =~= seq![cur@]);
        }
        let ghost cv = cur@;
        let ghost lines_before = lines@;
        lines.push(cur);
        proof {
            assert(lines@.map_values(|l: Vec<u8>| l@) =~= lines_before.map_values(|l: Vec<u8>| l@)
                + seq![cv]);
            assert(lines@.map_values(|l: Vec<u8>| l@) == split_lines(input@));
        }
    } else {
        proof {
            assert(split_lines(cur@) =~= Seq::<Seq<u8>>::empty());
            assert(lines@.map_values(|l: Vec<u8>| l@) =~= split_lines(input@));
        }
    }
    lines
}


// ---------------------------------------------------------------------------
// Whitespace tokens
// ---------------------------------------------------------------------------

/// Length of the maximal non-whitespace prefix.
pub open spec fn token_len(s: Seq<u8>) -> int
    decreases s.len(),
{
    if s.len() == 0 || is_ws(s[0]) {
        0
    } else {
        1 + token_len(s.skip(1))
    }
}

proof fn lemma_token_len_bounds(s: Seq<u8>)
    ensures
        0 <= token_len(s) <= s.len(),
    decreases s.len(),
{
    if s.len() > 0 && !is_ws(s[0]) {
        lemma_token_len_bounds(s.skip(1));
    }
}

proof fn lemma_token_len_at(s: Seq<u8>, m: int)
    requires
        0 <= m <= s.len(),
        forall|q: int| 0 <= q < m ==> !is_ws(s[q]),
        m == s.len() || is_ws(s[m]),
    ensures
        token_len(s) == m,
    decreases m,
{
    if m > 0 {
        lemma_token_len_at(s.skip(1), m - 1);
    }
}

/// The maximal non-whitespace runs of a line, in order.
pub open spec fn split_ws(s: Seq<u8>) -> Seq<Seq<u8>>
    decreases s.len(),
    via split_ws_decreases
{
    if s.len() == 0 {
        Seq::empty()
    } else if is_ws(s[0]) {
        split_ws(s.skip(1))
    } else {
        let k = token_len(s);
        seq![s.take(k)] + split_ws(s.skip(k))
    }
}

#[via_fn]
proof fn split_ws_decreases(s: Seq<u8>) {
    lemma_token_len_bounds(s);
    if s.len() > 0 && !is_ws(s[0]) {
        lemma_token_len_bounds(s.skip(1));
    }
}

fn split_ws_exec(l: &[u8]) -> (toks: Vec<Vec<u8>>)
    ensures
        toks@.map_values(|t: Vec<u8>| t@) == split_ws(l@),
{
    let n: usize = l.len();
    let mut toks: Vec<Vec<u8>> = Vec::new();
    let mut i: usize = 0;
    proof {
        assert(l@.skip(0) =~= l@);
        assert(toks@.map_values(|t: Vec<u8>| t@) + split_ws(l@) =~= split_ws(l@));
    }
    while i < n
        invariant
            n == l@.len(),
            i <= n,
            split_ws(l@) == toks@.map_values(|t: Vec<u8>| t@) + split_ws(l@.skip(i as int)),
        decreases n - i,
    {
        if is_ws_byte(l[i]) {
            proof {
                assert(l@.skip(i as int).skip(1) =~= l@.skip(i + 1));
            }
            i = i + 1;
        } else {
            let start = i;
            let mut t: Vec<u8> = Vec::new();
            while i < n && !is_ws_byte(l[i])
                invariant
                    n == l@.len(),
                    start <= i <= n,
                    !is_ws(l@[start as int]),
                    t@ == l@.subrange(start as int, i as int),
                    forall|q: int| start <= q < i ==> !is_ws(l@[q]),
                decreases n - i,
            {
                t.push(l[i]);
                proof {
                    assert(t@ =~= l@.subrange(start as int, i + 1));
                }
                i = i + 1;
            }
            proof {
                let rest = l@.skip(start as int);
                assert(forall|q: int|
                    0 <= q < i - start ==> rest[q] == l@[start + q] && !is_ws(rest[q]));
                assert(i - start == rest.len() || is_ws(rest[i - start]));
                lemma_token_len_at(rest, i - start);
                assert(rest.take(i - start) =~= l@.subrange(start as int, i as int));
                assert(rest.skip(i - start) =~= l@.skip(i as int));
                assert(split_ws(rest) == seq![t@] + split_ws(l@.skip(i as int)));
            }
            let ghost toks_before = toks@;
            toks.push(t);
            proof {
                assert(toks@.map_values(|t: Vec<u8>| t@) =~= toks_before.map_values(
                    |t: Vec<u8>| t@,
                ) + seq![l@.subrange(start as int, i as int)]);
            }
        }
    }
    proof {
        assert(l@.skip(n as int) =~= Seq::<u8>::empty());
        assert(toks@.map_values(|t: Vec<u8>| t@) =~= split_ws(l@));
    }
    toks
}

// ---------------------------------------------------------------------------
// The size directive
// ---------------------------------------------------------------------------

/// The bytes of `TITLE`.
pub open spec fn title_prefix() -> Seq<u8> {
    seq![84u8, 73u8, 84u8, 76u8, 69u8]
}

/// The bytes of `LUT_3D_SIZE`.
pub open spec fn size_prefix() -> Seq<u8> {
    seq![76u8, 85u8, 84u8, 95u8, 51u8, 68u8, 95u8, 83u8, 73u8, 90u8, 69u8]
}

pub open spec fn has_prefix(l: Seq<u8>, p: Seq<u8>) -> bool {
    l.len() >= p.len() && l.take(p.len() as int) == p
}

/// Every leading repetition of the size directive's keyword removed.
pub open spec fn strip_size_prefixes(l: Seq<u8>) -> Seq<u8>
    decreases l.len(),
{
    if has_prefix(l, size_prefix()) {
        strip_size_prefixes(l.skip(size_prefix().len() as int))
    } else {
        l
    }
}

pub open spec fn trim_leading_ws(l: Seq<u8>) -> Seq<u8>
    decreases l.len(),
{
    if l.len() > 0 && is_ws(l[0]) {
        trim_leading_ws(l.skip(1))
    } else {
        l
    }
}

pub open spec fn trim_leading_quotes(l: Seq<u8>) -> Seq<u8>
    decreases l.len(),
{
    if l.len() > 0 && l[0] == 34 {
        trim_leading_quotes(l.skip(1))
    } else {
        l
    }
}

pub open spec fn trim_trailing_quotes(l: Seq<u8>) -> Seq<u8>
    decreases l.len(),
{
    if l.len() > 0 && l[l.len() - 1] == 34 {
        trim_trailing_quotes(l.take(l.len() - 1))
    } else {
        l
    }
}

/// The size directive's numeric token: the keyword's repetitions stripped,
/// then leading whitespace, then leading and trailing double quotes.
pub open spec fn size_token(l: Seq<u8>) -> Seq<u8> {
    trim_trailing_quotes(trim_leading_quotes(trim_leading_ws(strip_size_prefixes(l))))
}

fn title_prefix_exec() -> (p: Vec<u8>)
    ensures
        p@ == title_prefix(),
{
    let mut p: Vec<u8> = Vec::new();
    p.push(84);
    p.push(73);
    p.push(84);
    p.push(76);
    p.push(69);
    proof {
        assert(p@ =~= title_prefix());
    }
    p
}

fn size_prefix_exec() -> (p: Vec<u8>)
    ensures
        p@ == size_prefix(),
{
    let mut p: Vec<u8> = Vec::new();
    p.push(76);
    p.push(85);
    p.push(84);
    p.push(95);
    p.push(51);
    p.push(68);
    p.push(95);
    p.push(83);
    p.push(73);
    p.push(90);
    p.push(69);
    proof {
        assert(p@ =~= size_prefix());
    }
    p
}

fn prefix_at(l: &[u8], at: usize, p: &[u8]) -> (r: bool)
    requires
        at <= l@.len(),
    ensures
        r == has_prefix(l@.skip(at as int), p@),
{
    let n: usize = l.len();
    let m: usize = p.len();
    if n - at < m {
        return false;
    }
    let mut j: usize = 0;
    while j < m
        invariant
            n == l@.len(),
            m == p@.len(),
            at + m <= n,
            j <= m,
            forall|q: int| 0 <= q < j ==> l@[at + q] == p@[q],
        decreases m - j,
    {
        if l[at + j] != p[j] {
            proof {
                assert(l@.skip(at as int).take(m as int)[j as int] != p@[j as int]);
            }
            return false;
        }
        j = j + 1;
    }
    proof {
        assert(l@.skip(at as int).take(m as int) =~= p@);
    }
    true
}

fn size_token_exec(l: &[u8]) -> (t: Vec<u8>)
    ensures
        t@ == size_token(l@),
{
    let n: usize = l.len();
    let size_p = size_prefix_exec();
    let mut start: usize = 0;
    proof {
        assert(l@.skip(0) =~= l@);
    }
    while prefix_at(l, start, size_p.as_slice())
        invariant
            n == l@.len(),
            start <= n,
            size_p@ == size_prefix(),
            strip_size_prefixes(l@) == strip_size_prefixes(l@.skip(start as int)),
        decreases n - start,
    {
        proof {
            assert(l@.skip(start as int).skip(11) =~= l@.skip(start + 11));
        }
        start = start + 11;
    }
    let ghost s0 = strip_size_prefixes(l@);
    proof {
        assert(s0 == l@.skip(start as int));
    }
    while start < n && is_ws_byte(l[start])
        invariant
            n == l@.len(),
            start <= n,
            trim_leading_ws(s0) == trim_leading_ws(l@.skip(start as int)),
        decreases n - start,
    {
        proof {
            assert(l@.skip(start as int).skip(1) =~= l@.skip(start + 1));
        }
        start = start + 1;
    }
    let ghost s1 = trim_leading_ws(s0);
    proof {
        assert(s1 == l@.skip(start as int));
    }
    while start < n && l[start] == 34
        invariant
            n == l@.len(),
            start <= n,
            trim_leading_quotes(s1) == trim_leading_quotes(l@.skip(start as int)),
        decreases n - start,
    {
        proof {
            assert(l@.skip(start as int).skip(1) =~= l@.skip(start + 1));
        }
        start = start + 1;
    }
    let ghost s2 = trim_leading_quotes(s1);
    proof {
        assert(s2 == l@.skip(start as int));
        assert(l@.subrange(start as int, n as int) =~= l@.skip(start as int));
    }
    let mut end: usize = n;
    while end > start && l[end - 1] == 34
        invariant
            n == l@.len(),
            start <= end <= n,
            trim_trailing_quotes(s2) == trim_trailing_quotes(
                l@.subrange(start as int, end as int),
            ),
        decreases end,
    {
        proof {
            let sub = l@.subrange(start as int, end as int);
            assert(sub[sub.len() - 1] == l@[end - 1]);
            assert(sub.take(sub.len() - 1) =~= l@.subrange(start as int, end - 1));
        }
        end = end - 1;
    }
    let ghost s3 = trim_trailing_quotes(s2);
    proof {
        assert(s3 == l@.subrange(start as int, end as int));
    }
    let mut t: Vec<u8> = Vec::new();
    let mut k: usize = start;
    while k < end
        invariant
            n == l@.len(),
            start <= k <= end <= n,
            t@ == l@.subrange(start as int, k as int),
        decreases end - k,
    {
        t.push(l[k]);
        proof {
            assert(t@ =~= l@.subrange(start as int, k + 1));
        }
        k = k + 1;
    }
    t
}

// ---------------------------------------------------------------------------
// Decimal size values
// ---------------------------------------------------------------------------

/// Value of a digit sequence read left to right.
pub open spec fn digits_value(s: Seq<u8>) -> int
    decreases s.len(),
{
    if s.len() == 0 {
        0
    } else {
        digits_value(s.take(s.len() - 1)) * 10 + (s[s.len() - 1] - 48)
    }
}

pub open spec fn all_digits(s: Seq<u8>) -> bool {
    forall|i: int| 0 <= i < s.len() ==> 48 <= #[trigger] s[i] <= 57
}

/// The unsigned decimal grammar of `usize::from_str`: an optional plus sign,
/// then one or more digits, valid only when the value fits a `usize`.
pub open spec fn parse_usize(s: Seq<u8>) -> Option<int> {
    let digits = if s.len() > 0 && s[0] == 43 {
        s.skip(1)
    } else {
        s
    };
    if digits.len() > 0 && all_digits(digits) && digits_value(digits) <= usize::MAX {
        Option::Some(digits_value(digits))
    } else {
        Option::None
    }
}

proof fn lemma_digits_value_nonneg(s: Seq<u8>)
    requires
        all_digits(s),
    ensures
        digits_value(s) >= 0,
    decreases s.len(),
{
    if s.len() > 0 {
        assert(all_digits(s.take(s.len() - 1)));
        lemma_digits_value_nonneg(s.take(s.len() - 1));
    }
}

fn parse_usize_exec(t: &[u8]) -> (r: Option<usize>)
    ensures
        match r {
            Option::Some(v) => parse_usize(t@) == Option::Some(v as int),
            Option::None => parse_usize(t@) is None,
        },
{
    let n: usize = t.len();
    let mut i: usize = 0;
    if n > 0 && t[0] == 43 {
        i = 1;
    }
    let ghost digits = if t@.len() > 0 && t@[0] == 43 {
        t@.skip(1)
    } else {
        t@
    };
    proof {
        assert(digits =~= t@.subrange(i as int, n as int));
    }
    if i == n {
        return None;
    }
    let umax: u128 = usize::MAX as u128;
    let mut acc: u128 = 0;
    let mut over: bool = false;
    let mut j: usize = i;
    while j < n
        invariant
            n == t@.len(),
            i <= j <= n,
            digits == t@.subrange(i as int, n as int),
            digits == (if t@.len() > 0 && t@[0] == 43 {
                t@.skip(1)
            } else {
                t@
            }),
            umax == usize::MAX as u128,
            forall|q: int| 0 <= q < j - i ==> 48 <= #[trigger] digits[q] <= 57,
            !over ==> acc as int == digits_value(digits.take(j - i)) && acc <= umax,
            over ==> digits_value(digits.take(j - i)) > usize::MAX,
        decreases n - j,
    {
        let b = t[j];
        if b < 48 || b > 57 {
            proof {
                assert(digits[j - i] == b);
                assert(!all_digits(digits));
            }
            return None;
        }
        proof {
            let pre = digits.take(j - i);
            let pre2 = digits.take(j - i + 1);
            assert(pre2.take(pre2.len() - 1) =~= pre);
            assert(pre2[pre2.len() - 1] == b);
            assert(digits_value(pre2) == digits_value(pre) * 10 + (b - 48));
            if over {
                assert(digits_value(pre) > usize::MAX);
                assert(digits_value(pre) * 10 >= digits_value(pre) + digits_value(pre));
                assert(digits_value(pre2) > usize::MAX);
            }
        }
        if !over {
            let nv: u128 = acc * 10 + ((b - 48) as u128);
            if nv > umax {
                over = true;
                proof {
                    assert(digits_value(digits.take(j - i + 1)) == nv as int);
                }
            } else {
                acc = nv;
            }
        }
        j = j + 1;
    }
    proof {
        assert(digits.take(n - i) =~= digits);
        assert(all_digits(digits));
        assert(digits.len() > 0);
    }
    if over {
        return None;
    }
    proof {
        assert(acc <= umax);
    }
    Some(acc as usize)
}


// ---------------------------------------------------------------------------
// The scan: line structure and data tokens
// ---------------------------------------------------------------------------

/// Scan state after a prefix of the lines: the declared dimension (0 while
/// no size directive has been seen), the accepted data lines, and their
/// tokens in line order.
#[verifier::ext_equal]
pub struct ScanState {
    pub dim: u32,
    pub count: int,
    pub tokens: Seq<Seq<u8>>,
}

/// A fault of the text, with the offending value.
pub enum CubeFault {
    BadSizeToken { token: Seq<u8> },
    SizeOutOfRange { size: int },
    MissingSize,
    WrongTokenCount { line: Seq<u8>, count: int },
    BadFloat { token: Seq<u8> },
    WrongLineCount { expected: int, got: int },
}

pub open spec fn init_scan() -> ScanState {
    ScanState { dim: 0, count: 0, tokens: Seq::empty() }
}

/// One line of the scan: blank lines and `TITLE` lines are skipped, a size
/// directive replaces the dimension after a range check, and any other line
/// is a data line whose three tokens are collected.
pub open spec fn step_scan(st: ScanState, l: Seq<u8>) -> Result<ScanState, CubeFault> {
    if l.len() == 0 {
        Ok(st)
    } else if has_prefix(l, title_prefix()) {
        Ok(st)
    } else if has_prefix(l, size_prefix()) {
        let tok = size_token(l);
        match parse_usize(tok) {
            Option::None => Err(CubeFault::BadSizeToken { token: tok }),
            Option::Some(v) => if 2 <= v && v <= 65535 {
                Ok(ScanState { dim: v as u32, count: st.count, tokens: st.tokens })
            } else {
                Err(CubeFault::SizeOutOfRange { size: v })
            },
        }
    } else {
        if st.dim == 0 {
            Err(CubeFault::MissingSize)
        } else {
            let toks = split_ws(l);
            if toks.len() != 3 {
                Err(CubeFault::WrongTokenCount { line: l, count: toks.len() as int })
            } else {
                Ok(ScanState { dim: st.dim, count: st.count + 1, tokens: st.tokens + toks })
            }
        }
    }
}

/// The scan of a line sequence: the state reached, and the first fault if
/// one stopped it.
pub open spec fn run_scan(ls: Seq<Seq<u8>>, st: ScanState) -> (ScanState, Option<CubeFault>)
    decreases ls.len(),
{
    if ls.len() == 0 {
        (st, Option::None)
    } else {
        match step_scan(st, ls[0]) {
            Ok(st2) => run_scan(ls.skip(1), st2),
            Err(f) => (st, Option::Some(f)),
        }
    }
}

/// Shape facts the scan maintains: three tokens per accepted data line, and
/// a dimension that is zero or within range.
pub proof fn lemma_run_scan_shape(ls: Seq<Seq<u8>>, st: ScanState)
    requires
        st.count >= 0,
        st.tokens.len() == 3 * st.count,
        st.dim <= 65535,
        st.dim != 0 ==> st.dim >= 2,
    ensures
        ({
            let (st2, f) = run_scan(ls, st);
            st2.count >= st.count && st2.tokens.len() == 3 * st2.count && st2.dim <= 65535 && (
            st2.dim != 0 ==> st2.dim >= 2)
        }),
    decreases ls.len(),
{
    if ls.len() > 0 {
        match step_scan(st, ls[0]) {
            Ok(st2) => {
                lemma_run_scan_shape(ls.skip(1), st2);
            },
            Err(f) => {},
        }
    }
}

/// The structural fault an exec error value stands for.
pub open spec fn fault_of(e: FormatError) -> CubeFault {
    match e {
        FormatError::BadSizeToken { token } => CubeFault::BadSizeToken { token: token@ },
        FormatError::SizeOutOfRange { size } => CubeFault::SizeOutOfRange { size: size as int },
        FormatError::MissingSize => CubeFault::MissingSize,
        FormatError::WrongTokenCount { line, count } => CubeFault::WrongTokenCount {
            line: line@,
            count: count as int,
        },
        FormatError::BadFloat { token } => CubeFault::BadFloat { token: token@ },
        FormatError::WrongLineCount { expected, got } => CubeFault::WrongLineCount {
            expected: expected as int,
            got: got as int,
        },
    }
}

/// Outcome of the structural half of parsing: the dimension and data tokens
/// of every line before the first structural fault, and that fault if any.
pub struct CubeScan {
    pub dim: u32,
    pub tokens: Vec<Vec<u8>>,
    pub fault: Option<FormatError>,
}

/// Reads the line structure of a `.cube` text: skips blank and `TITLE`
/// lines, applies size directives, and collects the three whitespace-
/// separated tokens of every data line, stopping at the first structural
/// fault. Token-to-float conversion is the caller's; [`parse`] combines the
/// converted bits with this scan.
pub fn scan(input: &[u8]) -> (r: CubeScan)
    ensures
        ({
            let (st, f) = run_scan(split_lines(input@), init_scan());
            &&& r.dim == st.dim
            &&& r.tokens@.map_values(|t: Vec<u8>| t@) == st.tokens
            &&& match (f, r.fault) {
                (Option::None, Option::None) => true,
                (Option::Some(sf), Option::Some(e)) => fault_of(e) == sf,
                _ => false,
            }
            &&& r.tokens@.len() % 3 == 0
            &&& r.dim <= 65535
            &&& (r.dim == 0 || r.dim >= 2)
        }),
{
    let lines = split_into_lines(input);
    let ghost lseq = split_lines(input@);
    let nl: usize = lines.len();
    let title_p = title_prefix_exec();
    let size_p = size_prefix_exec();
    let mut dim: u32 = 0;
    let mut tokens: Vec<Vec<u8>> = Vec::new();
    let ghost mut count: int = 0;
    let mut li: usize = 0;
    proof {
        lemma_run_scan_shape(lseq, init_scan());
        assert(tokens@.map_values(|t: Vec<u8>| t@) =~= Seq::<Seq<u8>>::empty());
        assert(ScanState { dim, count, tokens: tokens@.map_values(|t: Vec<u8>| t@) } =~= init_scan());
        assert(lseq.skip(0) =~= lseq);
    }
    while li < nl
        invariant
            lseq == split_lines(input@),
            nl == lines@.len(),
            li <= nl,
            lines@.map_values(|l: Vec<u8>| l@) == lseq,
            title_p@ == title_prefix(),
            size_p@ == size_prefix(),
            count >= 0,
            tokens@.len() == 3 * count,
            tokens@.len() % 3 == 0,
            dim <= 65535,
            dim != 0 ==> dim >= 2,
            run_scan(lseq, init_scan()) == run_scan(
                lseq.skip(li as int),
                ScanState { dim, count, tokens: tokens@.map_values(|t: Vec<u8>| t@) },
            ),
        decreases nl - li,
    {
        let ghost stv = ScanState { dim, count, tokens: tokens@.map_values(|t: Vec<u8>| t@) };
        let ghost lv = lseq[li as int];
        proof {
            assert(lines@[li as int]@ == lv);
            assert(lseq.skip(li as int)[0] == lv);
            assert(lseq.skip(li as int).skip(1) =~= lseq.skip(li + 1));
        }
        let line = &lines[li];
        if line.len() == 0 {
            proof {
                assert(step_scan(stv, lv) == Ok::<ScanState, CubeFault>(stv));
            }
        } else if prefix_at(line.as_slice(), 0, title_p.as_slice()) {
            proof {
                assert(lv.skip(0) =~= lv);
                assert(step_scan(stv, lv) == Ok::<ScanState, CubeFault>(stv));
            }
        } else if prefix_at(line.as_slice(), 0, size_p.as_slice()) {
            proof {
                assert(lv.skip(0) =~= lv);
            }
            let tok = size_token_exec(line.as_slice());
            match parse_usize_exec(tok.as_slice()) {
                None => {
                    proof {
                        assert(step_scan(stv, lv) == Err::<ScanState, CubeFault>(
                            CubeFault::BadSizeToken { token: size_token(lv) },
                        ));
                        assert(run_scan(lseq, init_scan()) == (
                            stv,
                            Option::Some(CubeFault::BadSizeToken { token: size_token(lv) }),
                        ));
                    }
                    return CubeScan {
                        dim,
                        tokens,
                        fault: Some(FormatError::BadSizeToken { token: tok }),
                    };
                },
                Some(v) => {
                    if 2 <= v && v <= 65535 {
                        dim = v as u32;
                    } else {
                        proof {
                            assert(step_scan(stv, lv) == Err::<ScanState, CubeFault>(
                                CubeFault::SizeOutOfRange { size: v as int },
                            ));
                            assert(run_scan(lseq, init_scan()) == (
                                stv,
                                Option::Some(CubeFault::SizeOutOfRange { size: v as int }),
                            ));
                        }
                        return CubeScan {
                            dim,
                            tokens,
                            fault: Some(FormatError::SizeOutOfRange { size: v }),
                        };
                    }
                },
            }
        } else {
            proof {
                assert(lv.skip(0) =~= lv);
            }
            if dim == 0 {
                proof {
                    assert(step_scan(stv, lv) == Err::<ScanState, CubeFault>(
                        CubeFault::MissingSize,
                    ));
                    assert(run_scan(lseq, init_scan()) == (
                        stv,
                        Option::Some(CubeFault::MissingSize),
                    ));
                }
                return CubeScan { dim, tokens, fault: Some(FormatError::MissingSize) };
            }
            let mut toks = split_ws_exec(line.as_slice());
            if toks.len() != 3 {
                let cnt = toks.len();
                proof {
                    assert(step_scan(stv, lv) == Err::<ScanState, CubeFault>(
                        CubeFault::WrongTokenCount { line: lv, count: split_ws(lv).len() as int },
                    ));
                    assert(run_scan(lseq, init_scan()) == (
                        stv,
                        Option::Some(
                            CubeFault::WrongTokenCount {
                                line: lv,
                                count: split_ws(lv).len() as int,
                            },
                        ),
                    ));
                }
                return CubeScan {
                    dim,
                    tokens,
                    fault: Some(
                        FormatError::WrongTokenCount {
                            line: vstd::slice::slice_to_vec(line.as_slice()),
                            count: cnt,
                        },
                    ),
                };
            }
            let ghost toks_v = toks@.map_values(|t: Vec<u8>| t@);
            let ghost tokens_before = tokens@.map_values(|t: Vec<u8>| t@);
            let t2 = toks.pop().unwrap();
            let t1 = toks.pop().unwrap();
            let t0 = toks.pop().unwrap();
            proof {
                assert(t0@ == toks_v[0] && t1@ == toks_v[1] && t2@ == toks_v[2]);
            }
            tokens.push(t0);
            tokens.push(t1);
            tokens.push(t2);
            proof {
                count = count + 1;
                assert(tokens@.map_values(|t: Vec<u8>| t@) =~= tokens_before + toks_v);
                assert(step_scan(stv, lv) == Ok::<ScanState, CubeFault>(
                    ScanState {
                        dim,
                        count,
                        tokens: tokens@.map_values(|t: Vec<u8>| t@),
                    },
                ));
            }
        }
        proof {
            let stv2 = ScanState { dim, count, tokens: tokens@.map_values(|t: Vec<u8>| t@) };
            assert(step_scan(stv, lv) == Ok::<ScanState, CubeFault>(stv2));
            assert(run_scan(lseq.skip(li as int), stv) == run_scan(lseq.skip(li + 1), stv2));
        }
        li = li + 1;
    }
    proof {
        assert(lseq.skip(nl as int) =~= Seq::<Seq<u8>>::empty());
        assert(run_scan(lseq, init_scan()) == (
            ScanState { dim, count, tokens: tokens@.map_values(|t: Vec<u8>| t@) },
            Option::None::<CubeFault>,
        ));
    }
    CubeScan { dim, tokens, fault: None }
}

// ---------------------------------------------------------------------------
// Combining a scan with the converted float bits
// ---------------------------------------------------------------------------

/// Position of the first unconverted token, or the length where every token
/// converted.
pub open spec fn first_none(bits: Seq<Option<u32>>) -> int
    decreases bits.len(),
{
    if bits.len() == 0 {
        0
    } else if bits[0] is None {
        0
    } else {
        1 + first_none(bits.skip(1))
    }
}

proof fn lemma_first_none(bits: Seq<Option<u32>>)
    ensures
        0 <= first_none(bits) <= bits.len(),
        first_none(bits) < bits.len() ==> bits[first_none(bits)] is None,
        forall|i: int| 0 <= i < first_none(bits) ==> bits[i] is Some,
    decreases bits.len(),
{
    if bits.len() > 0 && bits[0] is Some {
        lemma_first_none(bits.skip(1));
        assert forall|i: int| 0 <= i < first_none(bits) implies bits[i] is Some by {
            if i > 0 {
                assert(bits.skip(1)[i - 1] is Some);
            }
        }
    }
}

/// The channel words of fully converted tokens.
pub open spec fn unwrap_bits(bits: Seq<Option<u32>>) -> Seq<u32> {
    Seq::new(bits.len(), |i: int| bits[i]->0)
}

/// What parsing yields once the host converted the tokens: the earliest
/// fault in line order wins -- an unconvertible token beats the structural
/// fault only because every collected token comes from an earlier line --
/// then the volume must declare a size and hold exactly `dim^3` data lines.
pub open spec fn combine_spec(
    dim: u32,
    tokens: Seq<Seq<u8>>,
    fault: Option<CubeFault>,
    bits: Seq<Option<u32>>,
) -> Result<(u32, Seq<u8>), CubeFault>
    recommends
        bits.len() == tokens.len(),
{
    let fi = first_none(bits);
    if fi < bits.len() {
        Err(CubeFault::BadFloat { token: tokens[fi] })
    } else if fault is Some {
        Err(fault->0)
    } else if dim == 0 {
        Err(CubeFault::MissingSize)
    } else if tokens.len() != dim * dim * dim * 3 {
        Err(
            CubeFault::WrongLineCount {
                expected: (dim * dim * dim) as int,
                got: tokens.len() as int / 3,
            },
        )
    } else {
        Ok((dim, expand_rgb_words(unwrap_bits(bits))))
    }
}

/// Combines a [`scan`] with the float bits the host obtained for each of its
/// tokens (in order; nothing for a token that did not parse as a float).
/// Returns the declared dimension and the RGBA float32 volume bytes, alpha
/// forced to 1.0, or the first fault of the text.
pub fn parse(scan: CubeScan, bits: &[Option<u32>]) -> (r: Result<(u32, Vec<u8>), FormatError>)
    requires
        bits@.len() == scan.tokens@.len(),
        scan.tokens@.len() % 3 == 0,
        scan.dim <= 65535,
        scan.dim == 0 || scan.dim >= 2,
    ensures
        ({
            let c = combine_spec(
                scan.dim,
                scan.tokens@.map_values(|t: Vec<u8>| t@),
                match scan.fault {
                    Option::Some(e) => Option::Some(fault_of(e)),
                    Option::None => Option::None,
                },
                bits@,
            );
            match r {
                Ok(out) => c == Ok::<(u32, Seq<u8>), CubeFault>((out.0, out.1@)),
                Err(e) => c is Err && fault_of(e) == c->Err_0,
            }
        }),
        r is Ok ==> r->Ok_0.1@.len() == r->Ok_0.0 * r->Ok_0.0 * r->Ok_0.0 * 16 && 2 <= r->Ok_0.0
            <= 65535,
{
    let CubeScan { dim, tokens, fault } = scan;
    let nt: usize = tokens.len();
    let ghost tokens_v = tokens@.map_values(|t: Vec<u8>| t@);
    proof {
        lemma_first_none(bits@);
    }
    let mut words: Vec<u32> = Vec::new();
    let mut i: usize = 0;
    while i < nt
        invariant
            dim == scan.dim,
            fault == scan.fault,
            tokens@ == scan.tokens@,
            nt == tokens@.len(),
            bits@.len() == nt,
            tokens_v == tokens@.map_values(|t: Vec<u8>| t@),
            i <= nt,
            forall|q: int| 0 <= q < i ==> bits@[q] is Some,
            words@.len() == i,
            forall|q: int| 0 <= q < i ==> words@[q] == bits@[q]->0,
        decreases nt - i,
    {
        match bits[i] {
            Some(w) => {
                words.push(w);
            },
            None => {
                proof {
                    lemma_first_none(bits@);
                    let fi = first_none(bits@);
                    if fi < i {
                        assert(bits@[fi] is Some);
                        assert(false);
                    }
                    if fi > i {
                        assert(bits@[i as int] is Some);
                        assert(false);
                    }
                    assert(tokens@.map_values(|t: Vec<u8>| t@)[i as int] == tokens@[i as int]@);
                    assert(combine_spec(
                        dim,
                        tokens_v,
                        match fault {
                            Option::Some(e) => Option::Some(fault_of(e)),
                            Option::None => Option::None,
                        },
                        bits@,
                    ) == Err::<(u32, Seq<u8>), CubeFault>(
                        CubeFault::BadFloat { token: tokens_v[i as int] },
                    ));
                }
                let token = vstd::slice::slice_to_vec(tokens[i].as_slice());
                return Err(FormatError::BadFloat { token });
            },
        }
        i = i + 1;
    }
    proof {
        lemma_first_none(bits@);
        if first_none(bits@) < bits@.len() {
            assert(bits@[first_none(bits@)] is None);
            assert(bits@[first_none(bits@)] is Some);
            assert(false);
        }
        assert(first_none(bits@) == bits@.len());
    }
    match fault {
        Some(e) => {
            return Err(e);
        },
        None => {},
    }
    if dim == 0 {
        return Err(FormatError::MissingSize);
    }
    let d: u64 = dim as u64;
    proof {
        assert(d * d < 0x8000_0000_0000_0000 && d * d * d < 0x8000_0000_0000_0000 && d * d * d * 3
            < 0x8000_0000_0000_0000) by (nonlinear_arith)
            requires
                d <= 65535,
        ;
    }
    let want: u64 = d * d * d * 3;
    if (nt as u64) != want {
        return Err(
            FormatError::WrongLineCount { expected: d * d * d, got: (nt as u64) / 3 },
        );
    }
    proof {
        assert(words@ =~= unwrap_bits(bits@));
    }
    let volume = expand_rgb(words.as_slice());
    proof {
        crate::layout::lemma_expand_rgb_words_layout(words@);
        assert((3 * (dim * dim * dim) as int) / 3 == (dim * dim * dim) as int) by (
        nonlinear_arith);
    }
    Ok((dim, volume))
}


// ---------------------------------------------------------------------------
// What a successful parse guarantees
// ---------------------------------------------------------------------------

/// A data line: nonempty, no `TITLE`, no size keyword.
pub open spec fn is_data_line(l: Seq<u8>) -> bool {
    l.len() > 0 && !has_prefix(l, title_prefix()) && !has_prefix(l, size_prefix())
}

/// Number of data lines.
pub open spec fn count_data_lines(ls: Seq<Seq<u8>>) -> int
    decreases ls.len(),
{
    if ls.len() == 0 {
        0
    } else {
        (if is_data_line(ls[0]) {
            1int
        } else {
            0int
        }) + count_data_lines(ls.skip(1))
    }
}

proof fn lemma_run_scan_ok_lines(ls: Seq<Seq<u8>>, st: ScanState)
    requires
        run_scan(ls, st).1 is None,
        st.count >= 0,
    ensures
        forall|i: int|
            0 <= i < ls.len() && is_data_line(#[trigger] ls[i]) ==> split_ws(ls[i]).len() == 3,
        run_scan(ls, st).0.count == st.count + count_data_lines(ls),
    decreases ls.len(),
{
    if ls.len() > 0 {
        match step_scan(st, ls[0]) {
            Ok(st2) => {
                lemma_run_scan_ok_lines(ls.skip(1), st2);
                assert forall|i: int|
                    0 <= i < ls.len() && is_data_line(#[trigger] ls[i]) implies split_ws(
                    ls[i],
                ).len() == 3 by {
                    if i > 0 {
                        assert(ls.skip(1)[i - 1] == ls[i]);
                    }
                }
            },
            Err(f) => {},
        }
    }
}

/// The shape every successful parse has, for any token valuation `bits`: the
/// declared dimension lies in `2..=65535`, every data line of the text holds
/// exactly three tokens, the text holds exactly `dim^3` data lines, and the
/// volume holds 16 bytes for each of their voxels.
pub proof fn lemma_parse_ok_shape(input: Seq<u8>, bits: Seq<Option<u32>>)
    requires
        ({
            let (st, f) = run_scan(split_lines(input), init_scan());
            bits.len() == st.tokens.len() && combine_spec(st.dim, st.tokens, f, bits) is Ok
        }),
    ensures
        ({
            let (st, f) = run_scan(split_lines(input), init_scan());
            let out = combine_spec(st.dim, st.tokens, f, bits)->Ok_0;
            &&& 2 <= out.0 <= 65535
            &&& count_data_lines(split_lines(input)) == out.0 * out.0 * out.0
            &&& out.1.len() == out.0 * out.0 * out.0 * 16
            &&& forall|i: int|
                0 <= i < split_lines(input).len() && is_data_line(#[trigger] split_lines(input)[i])
                    ==> split_ws(split_lines(input)[i]).len() == 3
        }),
{
    let ls = split_lines(input);
    let (st, f) = run_scan(ls, init_scan());
    let out = combine_spec(st.dim, st.tokens, f, bits)->Ok_0;
    lemma_run_scan_shape(ls, init_scan());
    lemma_first_none(bits);
    assert(f is None);
    lemma_run_scan_ok_lines(ls, init_scan());
    let d = out.0 as int;
    assert(st.tokens.len() == d * d * d * 3);
    assert(st.count == count_data_lines(ls));
    assert(3 * st.count == d * d * d * 3);
    assert(st.count == d * d * d) by (nonlinear_arith)
        requires
            3 * st.count == d * d * d * 3,
    ;
    crate::layout::lemma_expand_rgb_words_layout(unwrap_bits(bits));
    assert(unwrap_bits(bits).len() == d * d * d * 3);
    assert((d * d * d * 3) / 3 == d * d * d) by (nonlinear_arith);
}

} // verus!
