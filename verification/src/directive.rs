//! The directive parser: extracts cross-file annotations from one file's
//! text. A directive is the first non-whitespace content of a comment:
//! `#`, optional whitespace, an `@`-keyword with an optional trailing
//! colon, then a bare or quoted value, then optional `line=`/`match=`
//! parameters after a backward directive's path. Malformed directives are
//! skipped; parsing never fails.

use vstd::prelude::*;

use crate::types::BackwardDirective;
use crate::types::BackwardView;
use crate::types::CallSiteSpec;
use crate::types::CallView;
use crate::types::CrossFileMetadata;
use crate::types::ForwardDirective;
use crate::types::MetadataView;

verus! {

/// Whitespace inside a line: space, tab, carriage return.
pub open spec fn is_space(b: u8) -> bool {
    b == 32 || b == 9 || b == 13
}

/// A decimal digit.
pub open spec fn is_digit(b: u8) -> bool {
    48 <= b <= 57
}

/// First index at or after `i` holding `b`, or the length.
pub open spec fn scan_to_byte(s: Seq<u8>, i: int, b: u8) -> int
    decreases s.len() - i,
{
    if i < 0 || i >= s.len() {
        s.len() as int
    } else if s[i] == b {
        i
    } else {
        scan_to_byte(s, i + 1, b)
    }
}

/// First index at or after `i` not holding `b`, or the length.
pub open spec fn scan_past_byte(s: Seq<u8>, i: int, b: u8) -> int
    decreases s.len() - i,
{
    if i < 0 || i >= s.len() {
        s.len() as int
    } else if s[i] != b {
        i
    } else {
        scan_past_byte(s, i + 1, b)
    }
}

/// First non-whitespace index at or after `i`, or the length.
pub open spec fn scan_ws(s: Seq<u8>, i: int) -> int
    decreases s.len() - i,
{
    if i < 0 || i >= s.len() {
        s.len() as int
    } else if !is_space(s[i]) {
        i
    } else {
        scan_ws(s, i + 1)
    }
}

/// First whitespace index at or after `i`, or the length.
pub open spec fn scan_token(s: Seq<u8>, i: int) -> int
    decreases s.len() - i,
{
    if i < 0 || i >= s.len() {
        s.len() as int
    } else if is_space(s[i]) {
        i
    } else {
        scan_token(s, i + 1)
    }
}

/// First non-digit index at or after `i`, or the length.
pub open spec fn scan_digits(s: Seq<u8>, i: int) -> int
    decreases s.len() - i,
{
    if i < 0 || i >= s.len() {
        s.len() as int
    } else if !is_digit(s[i]) {
        i
    } else {
        scan_digits(s, i + 1)
    }
}

/// Value of the decimal digits in `s[i..e]`.
pub open spec fn digits_val(s: Seq<u8>, i: int, e: int) -> int
    decreases e - i,
{
    if i >= e {
        0
    } else {
        digits_val(s, i, e - 1) * 10 + (s[e - 1] - 48)
    }
}

// The directive keywords.
pub open spec fn kw_sourced_by() -> Seq<u8> {
    seq![
        '@' as u8, 'l' as u8, 's' as u8, 'p' as u8, '-' as u8, 's' as u8, 'o' as u8,
        'u' as u8, 'r' as u8, 'c' as u8, 'e' as u8, 'd' as u8, '-' as u8, 'b' as u8,
        'y' as u8,
    ]
}

pub open spec fn kw_run_by() -> Seq<u8> {
    seq![
        '@' as u8, 'l' as u8, 's' as u8, 'p' as u8, '-' as u8, 'r' as u8, 'u' as u8,
        'n' as u8, '-' as u8, 'b' as u8, 'y' as u8,
    ]
}

pub open spec fn kw_included_by() -> Seq<u8> {
    seq![
        '@' as u8, 'l' as u8, 's' as u8, 'p' as u8, '-' as u8, 'i' as u8, 'n' as u8,
        'c' as u8, 'l' as u8, 'u' as u8, 'd' as u8, 'e' as u8, 'd' as u8, '-' as u8,
        'b' as u8, 'y' as u8,
    ]
}

pub open spec fn kw_source() -> Seq<u8> {
    seq![
        '@' as u8, 'l' as u8, 's' as u8, 'p' as u8, '-' as u8, 's' as u8, 'o' as u8,
        'u' as u8, 'r' as u8, 'c' as u8, 'e' as u8,
    ]
}

pub open spec fn kw_sources() -> Seq<u8> {
    seq![
        '@' as u8, 'l' as u8, 's' as u8, 'p' as u8, '-' as u8, 's' as u8, 'o' as u8,
        'u' as u8, 'r' as u8, 'c' as u8, 'e' as u8, 's' as u8,
    ]
}

pub open spec fn kw_working_directory() -> Seq<u8> {
    seq![
        '@' as u8, 'l' as u8, 's' as u8, 'p' as u8, '-' as u8, 'w' as u8, 'o' as u8,
        'r' as u8, 'k' as u8, 'i' as u8, 'n' as u8, 'g' as u8, '-' as u8, 'd' as u8,
        'i' as u8, 'r' as u8, 'e' as u8, 'c' as u8, 't' as u8, 'o' as u8, 'r' as u8,
        'y' as u8,
    ]
}

pub open spec fn kw_working_dir() -> Seq<u8> {
    seq![
        '@' as u8, 'l' as u8, 's' as u8, 'p' as u8, '-' as u8, 'w' as u8, 'o' as u8,
        'r' as u8, 'k' as u8, 'i' as u8, 'n' as u8, 'g' as u8, '-' as u8, 'd' as u8,
        'i' as u8, 'r' as u8,
    ]
}

pub open spec fn kw_current_directory() -> Seq<u8> {
    seq![
        '@' as u8, 'l' as u8, 's' as u8, 'p' as u8, '-' as u8, 'c' as u8, 'u' as u8,
        'r' as u8, 'r' as u8, 'e' as u8, 'n' as u8, 't' as u8, '-' as u8, 'd' as u8,
        'i' as u8, 'r' as u8, 'e' as u8, 'c' as u8, 't' as u8, 'o' as u8, 'r' as u8,
        'y' as u8,
    ]
}

pub open spec fn kw_current_dir() -> Seq<u8> {
    seq![
        '@' as u8, 'l' as u8, 's' as u8, 'p' as u8, '-' as u8, 'c' as u8, 'u' as u8,
        'r' as u8, 'r' as u8, 'e' as u8, 'n' as u8, 't' as u8, '-' as u8, 'd' as u8,
        'i' as u8, 'r' as u8,
    ]
}

pub open spec fn kw_cd() -> Seq<u8> {
    seq!['@' as u8, 'l' as u8, 's' as u8, 'p' as u8, '-' as u8, 'c' as u8, 'd' as u8]
}

pub open spec fn kw_wd() -> Seq<u8> {
    seq!['@' as u8, 'l' as u8, 's' as u8, 'p' as u8, '-' as u8, 'w' as u8, 'd' as u8]
}

pub open spec fn kw_ignore() -> Seq<u8> {
    seq![
        '@' as u8, 'l' as u8, 's' as u8, 'p' as u8, '-' as u8, 'i' as u8, 'g' as u8,
        'n' as u8, 'o' as u8, 'r' as u8, 'e' as u8,
    ]
}

pub open spec fn kw_ignore_next() -> Seq<u8> {
    seq![
        '@' as u8, 'l' as u8, 's' as u8, 'p' as u8, '-' as u8, 'i' as u8, 'g' as u8,
        'n' as u8, 'o' as u8, 'r' as u8, 'e' as u8, '-' as u8, 'n' as u8, 'e' as u8,
        'x' as u8, 't' as u8,
    ]
}

pub open spec fn kw_line_eq() -> Seq<u8> {
    seq!['l' as u8, 'i' as u8, 'n' as u8, 'e' as u8, '=' as u8]
}

pub open spec fn kw_match_eq() -> Seq<u8> {
    seq!['m' as u8, 'a' as u8, 't' as u8, 'c' as u8, 'h' as u8, '=' as u8]
}

/// Pointwise equality with a keyword.
pub open spec fn word_is(w: Seq<u8>, kw: Seq<u8>) -> bool {
    w.len() == kw.len() && forall|i: int| 0 <= i < kw.len() ==> w[i] == kw[i]
}

/// Whether `s[at..]` begins with `w`.
pub open spec fn starts_with(s: Seq<u8>, at: int, w: Seq<u8>) -> bool {
    at >= 0 && at + w.len() <= s.len() && forall|i: int| 0 <= i < w.len() ==> s[at + i] == w[i]
}

/// One parsed directive.
pub enum DirView {
    /// This file is sourced by the path, from the given call site.
    Back(Seq<u8>, CallView),
    /// This file sources the path.
    Fwd(Seq<u8>),
    /// The working directory for relative paths.
    Wd(Seq<u8>),
    /// Ignore this line.
    Ign,
    /// Ignore the following line.
    IgnNext,
}

/// A bare or quoted value at `i`: the value and the index after it.
pub open spec fn parse_value(s: Seq<u8>, i: int) -> Option<(Seq<u8>, int)> {
    if i < 0 || i >= s.len() {
        None
    } else if s[i] == 34 || s[i] == 39 {
        let q = s[i];
        let c = scan_to_byte(s, i + 1, q);
        if c >= s.len() {
            None
        } else {
            Some((s.subrange(i + 1, c), c + 1))
        }
    } else {
        let e = scan_token(s, i);
        if e == i {
            None
        } else {
            Some((s.subrange(i, e), e))
        }
    }
}

/// Trailing `line=`/`match=` parameters from `i` on; the last recognised
/// one wins, and an unrecognised token stops the scan.
pub open spec fn parse_params(s: Seq<u8>, i: int) -> CallView
    decreases s.len() - i, 0int,
{
    let w = scan_ws(s, i);
    if w >= s.len() || w < i {
        CallView::Default
    } else if starts_with(s, w, kw_line_eq()) {
        let d = w + kw_line_eq().len();
        let e = scan_digits(s, d);
        let n = digits_val(s, d, e);
        if e > d && e <= s.len() && e - d <= 10 && 1 <= n <= u32::MAX {
            let rest = parse_params_from(s, e);
            if rest is Default {
                CallView::Line((n - 1) as u32)
            } else {
                rest
            }
        } else {
            CallView::Default
        }
    } else if starts_with(s, w, kw_match_eq()) {
        match parse_value(s, w + kw_match_eq().len()) {
            None => CallView::Default,
            Some((p, np)) => if np > w && np <= s.len() {
                let rest = parse_params_from(s, np);
                if rest is Default {
                    CallView::Match(p)
                } else {
                    rest
                }
            } else {
                CallView::Match(p)
            },
        }
    } else {
        CallView::Default
    }
}

/// Step helper keeping the recursion measured by position.
pub open spec fn parse_params_from(s: Seq<u8>, i: int) -> CallView
    decreases s.len() - i, 1int,
{
    if i < 0 || i >= s.len() {
        CallView::Default
    } else {
        parse_params(s, i)
    }
}

/// Parse one line into at most one directive.
pub open spec fn parse_line(line: Seq<u8>) -> Option<DirView> {
    let h = scan_to_byte(line, 0, 35);
    if h >= line.len() {
        None
    } else {
        let a = scan_past_byte(line, h, 35);
        let k = scan_ws(line, a);
        if k >= line.len() || line[k] != 64 {
            None
        } else {
            let e = scan_token(line, k);
            let kw0 = line.subrange(k, e);
            let kw = if kw0.len() > 0 && kw0.last() == 58 {
                kw0.drop_last()
            } else {
                kw0
            };
            if word_is(kw, kw_sourced_by()) || word_is(kw, kw_run_by()) || word_is(
                kw,
                kw_included_by(),
            ) {
                match parse_value(line, scan_ws(line, e)) {
                    None => None,
                    Some((p, np)) => Some(DirView::Back(p, parse_params_from(line, np))),
                }
            } else if word_is(kw, kw_source()) || word_is(kw, kw_sources()) {
                match parse_value(line, scan_ws(line, e)) {
                    None => None,
                    Some((p, _)) => Some(DirView::Fwd(p)),
                }
            } else if word_is(kw, kw_working_directory()) || word_is(kw, kw_working_dir())
                || word_is(kw, kw_current_directory()) || word_is(kw, kw_current_dir())
                || word_is(kw, kw_cd()) || word_is(kw, kw_wd()) {
                match parse_value(line, scan_ws(line, e)) {
                    None => None,
                    Some((p, _)) => Some(DirView::Wd(p)),
                }
            } else if word_is(kw, kw_ignore()) {
                Some(DirView::Ign)
            } else if word_is(kw, kw_ignore_next()) {
                Some(DirView::IgnNext)
            } else {
                None
            }
        }
    }
}

/// Fold one parsed line into the metadata.
pub open spec fn apply_line(acc: MetadataView, d: Option<DirView>, ln: u32) -> MetadataView {
    match d {
        None => acc,
        Some(DirView::Back(p, c)) => MetadataView {
            sourced_by: acc.sourced_by.push(BackwardView { path: p, call_site: c }),
            ..acc
        },
        Some(DirView::Fwd(p)) => MetadataView { sources: acc.sources.push(p), ..acc },
        Some(DirView::Wd(p)) => MetadataView { working_directory: Some(p), ..acc },
        Some(DirView::Ign) => if acc.ignored_lines.len() == 0 || acc.ignored_lines.last()
            < ln {
            MetadataView { ignored_lines: acc.ignored_lines.push(ln), ..acc }
        } else {
            acc
        },
        Some(DirView::IgnNext) => if acc.ignored_next_lines.len() == 0
            || acc.ignored_next_lines.last() < ln {
            MetadataView { ignored_next_lines: acc.ignored_next_lines.push(ln), ..acc }
        } else {
            acc
        },
    }
}

/// Parse from byte `i` (the start of line number `ln`) to the end.
pub open spec fn parse_from(text: Seq<u8>, i: int, ln: u32, acc: MetadataView) -> MetadataView
    decreases text.len() - i,
{
    if i < 0 || i >= text.len() {
        acc
    } else {
        let e = scan_to_byte(text, i, 10);
        let acc2 = apply_line(acc, parse_line(text.subrange(i, e)), ln);
        if e >= text.len() || e < i {
            acc2
        } else {
            parse_from(
                text,
                e + 1,
                if ln < u32::MAX {
                    (ln + 1) as u32
                } else {
                    ln
                },
                acc2,
            )
        }
    }
}

/// The metadata extracted from a whole file.
pub open spec fn parse_directives_spec(text: Seq<u8>) -> MetadataView {
    parse_from(text, 0, 0, MetadataView::empty())
}


// ---------------------------------------------------------------------
// Executable parser.
// ---------------------------------------------------------------------

pub(crate) fn find_byte(s: &[u8], i: usize, b: u8) -> (r: usize)
    ensures
        r == scan_to_byte(s@, i as int, b),
        r >= i || r == s@.len(),
        r <= s@.len(),
{
    let mut j: usize = i;
    if j >= s.len() {
        proof {
            assert(scan_to_byte(s@, i as int, b) == s@.len());
        }
        return s.len();
    }
    while j < s.len()
        invariant
            i <= j <= s@.len(),
            scan_to_byte(s@, i as int, b) == scan_to_byte(s@, j as int, b),
        decreases s@.len() - j,
    {
        if s[j] == b {
            return j;
        }
        j += 1;
    }
    j
}

fn skip_byte_run(s: &[u8], i: usize, b: u8) -> (r: usize)
    ensures
        r == scan_past_byte(s@, i as int, b),
        r >= i || r == s@.len(),
        r <= s@.len(),
{
    let mut j: usize = i;
    if j >= s.len() {
        proof {
            assert(scan_past_byte(s@, i as int, b) == s@.len());
        }
        return s.len();
    }
    while j < s.len()
        invariant
            i <= j <= s@.len(),
            scan_past_byte(s@, i as int, b) == scan_past_byte(s@, j as int, b),
        decreases s@.len() - j,
    {
        if s[j] != b {
            return j;
        }
        j += 1;
    }
    j
}

fn skip_ws(s: &[u8], i: usize) -> (r: usize)
    ensures
        r == scan_ws(s@, i as int),
        r >= i || r == s@.len(),
        r <= s@.len(),
{
    let mut j: usize = i;
    if j >= s.len() {
        proof {
            assert(scan_ws(s@, i as int) == s@.len());
        }
        return s.len();
    }
    while j < s.len()
        invariant
            i <= j <= s@.len(),
            scan_ws(s@, i as int) == scan_ws(s@, j as int),
        decreases s@.len() - j,
    {
        let c = s[j];
        if !(c == 32 || c == 9 || c == 13) {
            return j;
        }
        j += 1;
    }
    j
}

fn token_end(s: &[u8], i: usize) -> (r: usize)
    ensures
        r == scan_token(s@, i as int),
        r >= i || r == s@.len(),
        r <= s@.len(),
{
    let mut j: usize = i;
    if j >= s.len() {
        proof {
            assert(scan_token(s@, i as int) == s@.len());
        }
        return s.len();
    }
    while j < s.len()
        invariant
            i <= j <= s@.len(),
            scan_token(s@, i as int) == scan_token(s@, j as int),
        decreases s@.len() - j,
    {
        let c = s[j];
        if c == 32 || c == 9 || c == 13 {
            return j;
        }
        j += 1;
    }
    j
}

fn digits_end(s: &[u8], i: usize) -> (r: usize)
    ensures
        r == scan_digits(s@, i as int),
        r >= i || r == s@.len(),
        r <= s@.len(),
{
    let mut j: usize = i;
    if j >= s.len() {
        proof {
            assert(scan_digits(s@, i as int) == s@.len());
        }
        return s.len();
    }
    while j < s.len()
        invariant
            i <= j <= s@.len(),
            scan_digits(s@, i as int) == scan_digits(s@, j as int),
        decreases s@.len() - j,
    {
        let c = s[j];
        if !(48 <= c && c <= 57) {
            return j;
        }
        j += 1;
    }
    j
}

/// Copy `s[from..to]`.
pub(crate) fn copy_range(s: &[u8], from: usize, to: usize) -> (r: Vec<u8>)
    requires
        from <= to <= s@.len(),
    ensures
        r@ == s@.subrange(from as int, to as int),
{
    let mut r: Vec<u8> = Vec::new();
    let mut j: usize = from;
    while j < to
        invariant
            from <= j <= to <= s@.len(),
            r@ == s@.subrange(from as int, j as int),
        decreases to - j,
    {
        r.push(s[j]);
        proof {
            assert(r@ =~= s@.subrange(from as int, j + 1));
        }
        j += 1;
    }
    r
}

/// Whether `s[from..to]` is exactly `kw`.
fn region_is(s: &[u8], from: usize, to: usize, kw: &Vec<u8>) -> (r: bool)
    requires
        from <= to <= s@.len(),
    ensures
        r == word_is(s@.subrange(from as int, to as int), kw@),
{
    if to - from != kw.len() {
        return false;
    }
    let mut j: usize = 0;
    while j < kw.len()
        invariant
            from + kw@.len() <= to <= s@.len() || to - from == kw@.len(),
            to - from == kw@.len(),
            to <= s@.len(),
            j <= kw@.len(),
            forall|p: int| 0 <= p < j ==> s@.subrange(from as int, to as int)[p] == kw@[p],
        decreases kw@.len() - j,
    {
        if s[from + j] != kw[j] {
            proof {
                assert(s@.subrange(from as int, to as int)[j as int] != kw@[j as int]);
            }
            return false;
        }
        proof {
            assert(s@.subrange(from as int, to as int)[j as int] == kw@[j as int]);
        }
        j += 1;
    }
    true
}

/// Whether `s[at..]` begins with `w`.
fn begins_with(s: &[u8], at: usize, w: &Vec<u8>) -> (r: bool)
    ensures
        r == starts_with(s@, at as int, w@),
{
    if at > s.len() || s.len() - at < w.len() {
        return false;
    }
    let mut j: usize = 0;
    proof {
        assert(s@.len() <= usize::MAX);
    }
    while j < w.len()
        invariant
            at + w@.len() <= s@.len(),
            s@.len() <= usize::MAX,
            j <= w@.len(),
            forall|p: int| 0 <= p < j ==> s@[at + p] == w@[p],
        decreases w@.len() - j,
    {
        if s[at + j] != w[j] {
            return false;
        }
        j += 1;
    }
    true
}

// Executable keyword values; each matches its ghost counterpart.
fn kwv_sourced_by() -> (r: Vec<u8>)
    ensures
        r@ == kw_sourced_by(),
{
    let v: Vec<u8> = vec![
        '@' as u8, 'l' as u8, 's' as u8, 'p' as u8, '-' as u8, 's' as u8, 'o' as u8,
        'u' as u8, 'r' as u8, 'c' as u8, 'e' as u8, 'd' as u8, '-' as u8, 'b' as u8,
        'y' as u8,
    ];
    proof {
        assert(v@ =~= kw_sourced_by());
    }
    v
}

fn kwv_run_by() -> (r: Vec<u8>)
    ensures
        r@ == kw_run_by(),
{
    let v: Vec<u8> = vec![
        '@' as u8, 'l' as u8, 's' as u8, 'p' as u8, '-' as u8, 'r' as u8, 'u' as u8,
        'n' as u8, '-' as u8, 'b' as u8, 'y' as u8,
    ];
    proof {
        assert(v@ =~= kw_run_by());
    }
    v
}

fn kwv_included_by() -> (r: Vec<u8>)
    ensures
        r@ == kw_included_by(),
{
    let v: Vec<u8> = vec![
        '@' as u8, 'l' as u8, 's' as u8, 'p' as u8, '-' as u8, 'i' as u8, 'n' as u8,
        'c' as u8, 'l' as u8, 'u' as u8, 'd' as u8, 'e' as u8, 'd' as u8, '-' as u8,
        'b' as u8, 'y' as u8,
    ];
    proof {
        assert(v@ =~= kw_included_by());
    }
    v
}

fn kwv_source() -> (r: Vec<u8>)
    ensures
        r@ == kw_source(),
{
    let v: Vec<u8> = vec![
        '@' as u8, 'l' as u8, 's' as u8, 'p' as u8, '-' as u8, 's' as u8, 'o' as u8,
        'u' as u8, 'r' as u8, 'c' as u8, 'e' as u8,
    ];
    proof {
        assert(v@ =~= kw_source());
    }
    v
}

fn kwv_sources() -> (r: Vec<u8>)
    ensures
        r@ == kw_sources(),
{
    let v: Vec<u8> = vec![
        '@' as u8, 'l' as u8, 's' as u8, 'p' as u8, '-' as u8, 's' as u8, 'o' as u8,
        'u' as u8, 'r' as u8, 'c' as u8, 'e' as u8, 's' as u8,
    ];
    proof {
        assert(v@ =~= kw_sources());
    }
    v
}

fn kwv_working_directory() -> (r: Vec<u8>)
    ensures
        r@ == kw_working_directory(),
{
    let v: Vec<u8> = vec![
        '@' as u8, 'l' as u8, 's' as u8, 'p' as u8, '-' as u8, 'w' as u8, 'o' as u8,
        'r' as u8, 'k' as u8, 'i' as u8, 'n' as u8, 'g' as u8, '-' as u8, 'd' as u8,
        'i' as u8, 'r' as u8, 'e' as u8, 'c' as u8, 't' as u8, 'o' as u8, 'r' as u8,
        'y' as u8,
    ];
    proof {
        assert(v@ =~= kw_working_directory());
    }
    v
}

fn kwv_working_dir() -> (r: Vec<u8>)
    ensures
        r@ == kw_working_dir(),
{
    let v: Vec<u8> = vec![
        '@' as u8, 'l' as u8, 's' as u8, 'p' as u8, '-' as u8, 'w' as u8, 'o' as u8,
        'r' as u8, 'k' as u8, 'i' as u8, 'n' as u8, 'g' as u8, '-' as u8, 'd' as u8,
        'i' as u8, 'r' as u8,
    ];
    proof {
        assert(v@ =~= kw_working_dir());
    }
    v
}

fn kwv_current_directory() -> (r: Vec<u8>)
    ensures
        r@ == kw_current_directory(),
{
    let v: Vec<u8> = vec![
        '@' as u8, 'l' as u8, 's' as u8, 'p' as u8, '-' as u8, 'c' as u8, 'u' as u8,
        'r' as u8, 'r' as u8, 'e' as u8, 'n' as u8, 't' as u8, '-' as u8, 'd' as u8,
        'i' as u8, 'r' as u8, 'e' as u8, 'c' as u8, 't' as u8, 'o' as u8, 'r' as u8,
        'y' as u8,
    ];
    proof {
        assert(v@ =~= kw_current_directory());
    }
    v
}

fn kwv_current_dir() -> (r: Vec<u8>)
    ensures
        r@ == kw_current_dir(),
{
    let v: Vec<u8> = vec![
        '@' as u8, 'l' as u8, 's' as u8, 'p' as u8, '-' as u8, 'c' as u8, 'u' as u8,
        'r' as u8, 'r' as u8, 'e' as u8, 'n' as u8, 't' as u8, '-' as u8, 'd' as u8,
        'i' as u8, 'r' as u8,
    ];
    proof {
        assert(v@ =~= kw_current_dir());
    }
    v
}

fn kwv_cd() -> (r: Vec<u8>)
    ensures
        r@ == kw_cd(),
{
    let v: Vec<u8> = vec![
        '@' as u8, 'l' as u8, 's' as u8, 'p' as u8, '-' as u8, 'c' as u8, 'd' as u8,
    ];
    proof {
        assert(v@ =~= kw_cd());
    }
    v
}

fn kwv_wd() -> (r: Vec<u8>)
    ensures
        r@ == kw_wd(),
{
    let v: Vec<u8> = vec![
        '@' as u8, 'l' as u8, 's' as u8, 'p' as u8, '-' as u8, 'w' as u8, 'd' as u8,
    ];
    proof {
        assert(v@ =~= kw_wd());
    }
    v
}

fn kwv_ignore() -> (r: Vec<u8>)
    ensures
        r@ == kw_ignore(),
{
    let v: Vec<u8> = vec![
        '@' as u8, 'l' as u8, 's' as u8, 'p' as u8, '-' as u8, 'i' as u8, 'g' as u8,
        'n' as u8, 'o' as u8, 'r' as u8, 'e' as u8,
    ];
    proof {
        assert(v@ =~= kw_ignore());
    }
    v
}

fn kwv_ignore_next() -> (r: Vec<u8>)
    ensures
        r@ == kw_ignore_next(),
{
    let v: Vec<u8> = vec![
        '@' as u8, 'l' as u8, 's' as u8, 'p' as u8, '-' as u8, 'i' as u8, 'g' as u8,
        'n' as u8, 'o' as u8, 'r' as u8, 'e' as u8, '-' as u8, 'n' as u8, 'e' as u8,
        'x' as u8, 't' as u8,
    ];
    proof {
        assert(v@ =~= kw_ignore_next());
    }
    v
}

fn kwv_line_eq() -> (r: Vec<u8>)
    ensures
        r@ == kw_line_eq(),
{
    let v: Vec<u8> = vec!['l' as u8, 'i' as u8, 'n' as u8, 'e' as u8, '=' as u8];
    proof {
        assert(v@ =~= kw_line_eq());
    }
    v
}

fn kwv_match_eq() -> (r: Vec<u8>)
    ensures
        r@ == kw_match_eq(),
{
    let v: Vec<u8> = vec![
        'm' as u8, 'a' as u8, 't' as u8, 'c' as u8, 'h' as u8, '=' as u8,
    ];
    proof {
        assert(v@ =~= kw_match_eq());
    }
    v
}

/// Read a bare or quoted value at `i`.
fn read_value(s: &[u8], i: usize) -> (r: Option<(Vec<u8>, usize)>)
    ensures
        match r {
            Some((v, p)) => parse_value(s@, i as int) == Some((v@, p as int)) && i < p
                <= s@.len(),
            None => parse_value(s@, i as int) is None,
        },
{
    if i >= s.len() {
        return None;
    }
    let c0 = s[i];
    if c0 == 34 || c0 == 39 {
        let c = find_byte(s, i + 1, c0);
        if c >= s.len() {
            None
        } else {
            Some((copy_range(s, i + 1, c), c + 1))
        }
    } else {
        let e = token_end(s, i);
        if e == i {
            None
        } else {
            Some((copy_range(s, i, e), e))
        }
    }
}

/// Power of ten, used to bound digit accumulation.
pub open spec fn pow10(n: nat) -> int
    decreases n,
{
    if n == 0 {
        1
    } else {
        10 * pow10((n - 1) as nat)
    }
}

proof fn lemma_pow10_le(a: nat, b: nat)
    requires
        a <= b,
    ensures
        pow10(a) <= pow10(b),
        pow10(a) >= 1,
    decreases b,
{
    if a == b {
        if a > 0 {
            lemma_pow10_le((a - 1) as nat, (a - 1) as nat);
        }
    } else {
        lemma_pow10_le(a, (b - 1) as nat);
    }
}

/// Read the trailing call-site parameters from `i`.
fn read_params(s: &[u8], i: usize) -> (r: CallSiteSpec)
    ensures
        r@ == parse_params_from(s@, i as int),
{
    let kw_line = kwv_line_eq();
    let kw_match = kwv_match_eq();
    let mut cur = CallSiteSpec::Default;
    let mut pos: usize = i;
    proof {
        assert(cur@ is Default);
    }
    loop
        invariant
            pos >= i,
            (if parse_params_from(s@, pos as int) is Default {
                cur@
            } else {
                parse_params_from(s@, pos as int)
            }) == parse_params_from(s@, i as int),
            kw_line@ == kw_line_eq(),
            kw_match@ == kw_match_eq(),
        decreases s@.len() + 1 - pos,
    {
        if pos >= s.len() {
            proof {
                assert(parse_params_from(s@, pos as int) is Default);
            }
            return cur;
        }
        let ghost spec_here = parse_params(s@, pos as int);
        let w = skip_ws(s, pos);
        if w >= s.len() {
            proof {
                assert(spec_here is Default);
            }
            return cur;
        }
        if begins_with(s, w, &kw_line) {
            let d = w + 5;
            let e = digits_end(s, d);
            if e > d && e - d <= 10 {
                let mut acc: u64 = 0;
                let mut j: usize = d;
                proof {
                    lemma_pow10_le(0, 10);
                }
                while j < e
                    invariant
                        d <= j <= e <= s@.len(),
                        e - d <= 10,
                        e == scan_digits(s@, d as int),
                        acc == digits_val(s@, d as int, j as int),
                        acc < pow10((j - d) as nat),
                        pow10((j - d) as nat) <= pow10(10),
                    decreases e - j,
                {
                    proof {
                        assert(scan_digits(s@, d as int) == e);
                        lemma_scan_digits_all(s@, d as int, j as int);
                        assert(is_digit(s@[j as int]));
                        assert(pow10(((j + 1) - d) as nat) == 10 * pow10((j - d) as nat));
                        lemma_pow10_le(((j + 1) - d) as nat, 10);
                        assert(pow10(10) == 10000000000) by {
                            reveal_with_fuel(pow10, 11);
                        }
                    }
                    let digit = (s[j] - 48) as u64;
                    acc = acc * 10 + digit;
                    j += 1;
                }
                if acc >= 1 && acc <= u32::MAX as u64 {
                    let rest_pos = e;
                    let n32 = acc as u32;
                    cur = CallSiteSpec::Line(n32 - 1);
                    pos = rest_pos;
                } else {
                    proof {
                        assert(spec_here is Default);
                    }
                    return cur;
                }
            } else {
                proof {
                    assert(spec_here is Default);
                }
                return cur;
            }
        } else if begins_with(s, w, &kw_match) {
            match read_value(s, w + 6) {
                None => {
                    proof {
                        assert(spec_here is Default);
                    }
                    return cur;
                },
                Some((p, np)) => {
                    cur = CallSiteSpec::Match(p);
                    pos = np;
                },
            }
        } else {
            proof {
                assert(spec_here is Default);
            }
            return cur;
        }
    }
}

proof fn lemma_scan_digits_all(s: Seq<u8>, i: int, j: int)
    requires
        0 <= i <= j < scan_digits(s, i),
    ensures
        is_digit(s[j]),
    decreases j - i,
{
    if i < j {
        lemma_scan_digits_all(s, i + 1, j);
    }
}


/// One parsed directive, executable form.
pub enum Directive {
    /// This file is sourced by the path, from the given call site.
    Back(Vec<u8>, CallSiteSpec),
    /// This file sources the path.
    Fwd(Vec<u8>),
    /// The working directory for relative paths.
    Wd(Vec<u8>),
    /// Ignore this line.
    Ign,
    /// Ignore the following line.
    IgnNext,
}

impl View for Directive {
    type V = DirView;

    open spec fn view(&self) -> DirView {
        match self {
            Directive::Back(p, c) => DirView::Back(p@, c@),
            Directive::Fwd(p) => DirView::Fwd(p@),
            Directive::Wd(p) => DirView::Wd(p@),
            Directive::Ign => DirView::Ign,
            Directive::IgnNext => DirView::IgnNext,
        }
    }
}

/// Parse one line into at most one directive.
fn parse_line_exec(s: &[u8]) -> (r: Option<Directive>)
    ensures
        match r {
            Some(d) => parse_line(s@) == Some(d@),
            None => parse_line(s@) is None,
        },
{
    let h = find_byte(s, 0, 35);
    if h >= s.len() {
        return None;
    }
    let a = skip_byte_run(s, h, 35);
    let k = skip_ws(s, a);
    if k >= s.len() {
        return None;
    }
    if s[k] != 64 {
        return None;
    }
    let e = token_end(s, k);
    let mut ke = e;
    if e > k && s[e - 1] == 58 {
        ke = e - 1;
    }
    proof {
        let kw0 = s@.subrange(k as int, e as int);
        assert(kw0.len() == e - k);
        if e > k {
            assert(kw0.last() == s@[e - 1]);
        }
        if e > k && s@[e - 1] == 58 {
            assert(kw0.drop_last() =~= s@.subrange(k as int, ke as int));
        } else {
            assert(kw0 =~= s@.subrange(k as int, ke as int));
        }
    }
    let kw1 = kwv_sourced_by();
    let kw2 = kwv_run_by();
    let kw3 = kwv_included_by();
    if region_is(s, k, ke, &kw1) || region_is(s, k, ke, &kw2) || region_is(s, k, ke, &kw3) {
        let v = skip_ws(s, e);
        return match read_value(s, v) {
            None => None,
            Some((p, np)) => {
                let c = read_params(s, np);
                Some(Directive::Back(p, c))
            },
        };
    }
    let kw4 = kwv_source();
    let kw5 = kwv_sources();
    if region_is(s, k, ke, &kw4) || region_is(s, k, ke, &kw5) {
        let v = skip_ws(s, e);
        return match read_value(s, v) {
            None => None,
            Some((p, _)) => Some(Directive::Fwd(p)),
        };
    }
    let kw6 = kwv_working_directory();
    let kw7 = kwv_working_dir();
    let kw8 = kwv_current_directory();
    let kw9 = kwv_current_dir();
    let kw10 = kwv_cd();
    let kw11 = kwv_wd();
    if region_is(s, k, ke, &kw6) || region_is(s, k, ke, &kw7) || region_is(s, k, ke, &kw8)
        || region_is(s, k, ke, &kw9) || region_is(s, k, ke, &kw10) || region_is(
        s,
        k,
        ke,
        &kw11,
    ) {
        let v = skip_ws(s, e);
        return match read_value(s, v) {
            None => None,
            Some((p, _)) => Some(Directive::Wd(p)),
        };
    }
    let kw12 = kwv_ignore();
    if region_is(s, k, ke, &kw12) {
        return Some(Directive::Ign);
    }
    let kw13 = kwv_ignore_next();
    if region_is(s, k, ke, &kw13) {
        return Some(Directive::IgnNext);
    }
    None
}

/// Extract the metadata of a whole file. Malformed directives are
/// skipped; the function never fails.
pub fn parse_directives(text: &[u8]) -> (r: CrossFileMetadata)
    ensures
        r@ == parse_directives_spec(text@),
        r@.wf(),
{
    let mut acc = CrossFileMetadata::empty();
    let mut i: usize = 0;
    let mut ln: u32 = 0;
    while i < text.len()
        invariant
            i <= text@.len(),
            parse_from(text@, 0, 0, MetadataView::empty()) == parse_from(
                text@,
                i as int,
                ln,
                acc@,
            ),
            acc@.wf(),
        decreases text@.len() - i,
    {
        let ghost acc0 = acc@;
        let e = find_byte(text, i, 10);
        let line = copy_range(text, i, e);
        let d = parse_line_exec(line.as_slice());
        proof {
            assert(line@ == text@.subrange(i as int, e as int));
        }
        match d {
            None => {
                proof {
                    assert(apply_line(acc0, parse_line(line@), ln) == acc0);
                }
            },
            Some(Directive::Back(p, c)) => {
                let ghost pv = p@;
                let ghost cv = c@;
                acc.sourced_by.push(BackwardDirective { path: p, call_site: c });
                proof {
                    assert(acc@.sourced_by =~= acc0.sourced_by.push(BackwardView {
                        path: pv,
                        call_site: cv,
                    }));
                    assert(acc@ == apply_line(acc0, parse_line(line@), ln));
                }
            },
            Some(Directive::Fwd(p)) => {
                let ghost pv = p@;
                acc.sources.push(ForwardDirective { path: p });
                proof {
                    assert(acc@.sources =~= acc0.sources.push(pv));
                    assert(acc@ == apply_line(acc0, parse_line(line@), ln));
                }
            },
            Some(Directive::Wd(p)) => {
                acc.working_directory = Some(p);
                proof {
                    assert(acc@.sourced_by =~= acc0.sourced_by);
                    assert(acc@.sources =~= acc0.sources);
                    assert(acc@ == apply_line(acc0, parse_line(line@), ln));
                }
            },
            Some(Directive::Ign) => {
                let push_it = if acc.ignored_lines.len() == 0 {
                    true
                } else {
                    acc.ignored_lines[acc.ignored_lines.len() - 1] < ln
                };
                if push_it {
                    acc.ignored_lines.push(ln);
                }
                proof {
                    assert(acc@ == apply_line(acc0, parse_line(line@), ln));
                    assert(crate::types::strictly_ascending(acc@.ignored_lines)) by {
                        if push_it {
                            assert(forall|a: int, b: int|
                                0 <= a < b < acc@.ignored_lines.len() - 1
                                    ==> acc@.ignored_lines[a] < acc@.ignored_lines[b]);
                            assert(forall|a: int|
                                0 <= a < acc0.ignored_lines.len() ==> acc0.ignored_lines[a]
                                    <= acc0.ignored_lines.last());
                        }
                    }
                }
            },
            Some(Directive::IgnNext) => {
                let push_it = if acc.ignored_next_lines.len() == 0 {
                    true
                } else {
                    acc.ignored_next_lines[acc.ignored_next_lines.len() - 1] < ln
                };
                if push_it {
                    acc.ignored_next_lines.push(ln);
                }
                proof {
                    assert(acc@ == apply_line(acc0, parse_line(line@), ln));
                    assert(crate::types::strictly_ascending(acc@.ignored_next_lines)) by {
                        if push_it {
                            assert(forall|a: int, b: int|
                                0 <= a < b < acc@.ignored_next_lines.len() - 1
                                    ==> acc@.ignored_next_lines[a] < acc@.ignored_next_lines[b]);
                            assert(forall|a: int|
                                0 <= a < acc0.ignored_next_lines.len()
                                    ==> acc0.ignored_next_lines[a]
                                    <= acc0.ignored_next_lines.last());
                        }
                    }
                }
            },
        }
        if e < text.len() {
            i = e + 1;
            if ln < u32::MAX {
                ln = ln + 1;
            }
        } else {
            i = text.len();
        }
    }
    acc
}


// ---------------------------------------------------------------------
// Laws: synonym equivalence and call-site parameters.
// ---------------------------------------------------------------------

/// A value fit for a bare directive argument: non-empty, no whitespace,
/// no newline, no quotes.
pub open spec fn plain_token(p: Seq<u8>) -> bool {
    p.len() > 0 && forall|k: int|
        0 <= k < p.len() ==> !is_space(#[trigger] p[k]) && p[k] != 10 && p[k] != 34 && p[k]
            != 39
}

/// A directive keyword's shape: starts with `@`, no whitespace, colon,
/// newline or hash inside.
pub open spec fn kw_shape(kw: Seq<u8>) -> bool {
    kw.len() > 0 && kw[0] == 64 && forall|k: int|
        0 <= k < kw.len() ==> !is_space(#[trigger] kw[k]) && kw[k] != 58 && kw[k] != 10
            && kw[k] != 35
}

proof fn lemma_scan_to_byte_is(s: Seq<u8>, i: int, j: int, b: u8)
    requires
        0 <= i <= j <= s.len(),
        forall|k: int| i <= k < j ==> s[k] != b,
        j == s.len() || s[j] == b,
    ensures
        scan_to_byte(s, i, b) == j,
    decreases j - i,
{
    if i < j {
        lemma_scan_to_byte_is(s, i + 1, j, b);
    }
}

proof fn lemma_scan_past_byte_is(s: Seq<u8>, i: int, j: int, b: u8)
    requires
        0 <= i <= j <= s.len(),
        forall|k: int| i <= k < j ==> s[k] == b,
        j == s.len() || s[j] != b,
    ensures
        scan_past_byte(s, i, b) == j,
    decreases j - i,
{
    if i < j {
        lemma_scan_past_byte_is(s, i + 1, j, b);
    }
}

proof fn lemma_scan_ws_is(s: Seq<u8>, i: int, j: int)
    requires
        0 <= i <= j <= s.len(),
        forall|k: int| i <= k < j ==> is_space(s[k]),
        j == s.len() || !is_space(s[j]),
    ensures
        scan_ws(s, i) == j,
    decreases j - i,
{
    if i < j {
        lemma_scan_ws_is(s, i + 1, j);
    }
}

proof fn lemma_scan_token_is(s: Seq<u8>, i: int, j: int)
    requires
        0 <= i <= j <= s.len(),
        forall|k: int| i <= k < j ==> !is_space(s[k]),
        j == s.len() || is_space(s[j]),
    ensures
        scan_token(s, i) == j,
    decreases j - i,
{
    if i < j {
        lemma_scan_token_is(s, i + 1, j);
    }
}

proof fn lemma_scan_digits_is(s: Seq<u8>, i: int, j: int)
    requires
        0 <= i <= j <= s.len(),
        forall|k: int| i <= k < j ==> is_digit(s[k]),
        j == s.len() || !is_digit(s[j]),
    ensures
        scan_digits(s, i) == j,
    decreases j - i,
{
    if i < j {
        lemma_scan_digits_is(s, i + 1, j);
    }
}

/// The keyword token written at position 2 of a directive line.
pub open spec fn kw_token(kw: Seq<u8>, colon: bool) -> Seq<u8> {
    if colon {
        kw.push(58)
    } else {
        kw
    }
}

/// The written value: bare, or wrapped in the given quote byte.
pub open spec fn value_text(p: Seq<u8>, quote: u8) -> Seq<u8> {
    if quote == 0 {
        p
    } else {
        seq![quote] + p + seq![quote]
    }
}

/// A full directive line: `# `, the keyword (optionally `:`), a space,
/// the value, then anything further.
pub open spec fn directive_line(kw: Seq<u8>, colon: bool, p: Seq<u8>, quote: u8, rest: Seq<
    u8,
>) -> Seq<u8> {
    seq![35u8, 32u8] + kw_token(kw, colon) + seq![32u8] + value_text(p, quote) + rest
}

/// Scanning facts common to every directive line.
proof fn lemma_line_head(line: Seq<u8>, kw: Seq<u8>, colon: bool, p: Seq<u8>, quote: u8, rest: Seq<u8>)
    requires
        line == directive_line(kw, colon, p, quote, rest),
        kw_shape(kw),
        plain_token(p),
        quote == 0 || quote == 34 || quote == 39,
        rest.len() == 0 || is_space(rest[0]),
    ensures
        ({
            let ktok = kw_token(kw, colon);
            let e: int = 2 + ktok.len() as int;
            let v: int = e + 1;
            &&& scan_to_byte(line, 0, 35) == 0
            &&& scan_past_byte(line, 0, 35) == 1
            &&& scan_ws(line, 1) == 2
            &&& line.len() == v + value_text(p, quote).len() + rest.len()
            &&& line[2] == 64
            &&& scan_token(line, 2) == e
            &&& line.subrange(2, e) =~= ktok
            &&& scan_ws(line, e) == v
            &&& parse_value(line, v) == Some((p, v + value_text(p, quote).len()))
        }),
{
    let ktok = kw_token(kw, colon);
    let e: int = 2 + ktok.len() as int;
    let v: int = e + 1;
    let vt = value_text(p, quote);
    assert(line.len() == v + vt.len() + rest.len());
    assert(line[0] == 35);
    assert(line[1] == 32);
    assert forall|k: int| 0 <= k < ktok.len() implies line[2 + k] == ktok[k] by {}
    assert(line[2] == ktok[0]);
    assert(ktok[0] == kw[0]);
    assert(line[e] == 32);
    assert forall|k: int| 0 <= k < vt.len() implies line[v + k] == vt[k] by {}
    lemma_scan_to_byte_is(line, 0, 0, 35);
    lemma_scan_past_byte_is(line, 1, 1, 35);
    lemma_scan_ws_is(line, 1, 2) ;
    assert(!is_space(line[2]));
    lemma_scan_token_is(line, 2, e);
    assert(line.subrange(2, e) =~= ktok);
    lemma_scan_ws_is(line, e, v);
    // the value itself
    if quote == 0 {
        assert(line[v] == p[0]);
        assert(!(line[v] == 34 || line[v] == 39));
        lemma_scan_token_is(line, v, v + p.len());
        assert(line.subrange(v, v + p.len()) =~= p);
        assert(parse_value(line, v) == Some((p, v + p.len())));
    } else {
        assert(line[v] == quote);
        assert forall|k: int| v + 1 <= k < v + 1 + p.len() implies line[k] != quote by {
            assert(line[k] == p[k - (v + 1)]);
        }
        assert(line[v + 1 + p.len()] == quote);
        lemma_scan_to_byte_is(line, v + 1, v + 1 + p.len(), quote);
        assert(line.subrange(v + 1, v + 1 + p.len()) =~= p);
        assert(parse_value(line, v) == Some((p, v + p.len() + 2)));
    }
}

/// Shape facts for each keyword constant.
proof fn lemma_kw_shapes()
    ensures
        kw_shape(kw_sourced_by()),
        kw_shape(kw_run_by()),
        kw_shape(kw_included_by()),
        kw_shape(kw_source()),
        kw_shape(kw_sources()),
        kw_shape(kw_working_directory()),
        kw_shape(kw_working_dir()),
        kw_shape(kw_current_directory()),
        kw_shape(kw_current_dir()),
        kw_shape(kw_cd()),
        kw_shape(kw_wd()),
{
}

/// The word checks a backward keyword fails against the other families
/// never hold, and conversely for the working-directory keywords.
proof fn lemma_kw_distinct(kw: Seq<u8>)
    ensures
        (word_is(kw, kw_working_directory()) || word_is(kw, kw_working_dir()) || word_is(
            kw,
            kw_current_directory(),
        ) || word_is(kw, kw_current_dir()) || word_is(kw, kw_cd()) || word_is(kw, kw_wd()))
            ==> !word_is(kw, kw_sourced_by()) && !word_is(kw, kw_run_by()) && !word_is(
            kw,
            kw_included_by(),
        ) && !word_is(kw, kw_source()) && !word_is(kw, kw_sources()),
{
    if word_is(kw, kw_working_dir()) {
        assert(kw[5] == 'w' as u8);
        if word_is(kw, kw_included_by()) {
            assert(kw[5] == 'i' as u8);
        }
    }
    if word_is(kw, kw_current_dir()) {
        assert(kw[5] == 'c' as u8);
        if word_is(kw, kw_included_by()) {
            assert(kw[5] == 'i' as u8);
        }
    }
}

/// The metadata holding exactly one backward directive.
pub open spec fn single_backward(p: Seq<u8>, c: CallView) -> MetadataView {
    MetadataView {
        sourced_by: seq![BackwardView { path: p, call_site: c }],
        sources: Seq::empty(),
        working_directory: None,
        ignored_lines: Seq::empty(),
        ignored_next_lines: Seq::empty(),
    }
}

/// A one-line file parses to the single directive of that line.
proof fn lemma_single_line(text: Seq<u8>, d: DirView)
    requires
        forall|k: int| 0 <= k < text.len() ==> text[k] != 10,
        parse_line(text) == Some(d),
    ensures
        parse_directives_spec(text) == apply_line(MetadataView::empty(), Some(d), 0),
{
    lemma_scan_to_byte_is(text, 0, text.len() as int, 10);
    if text.len() > 0 {
        assert(text.subrange(0, text.len() as int) =~= text);
    } else {
        assert(parse_line(text) is None);
    }
}

/// Synonym equivalence for backward directives: each of the three
/// backward keywords, with or without a trailing colon, with the path
/// bare, double-quoted or single-quoted, yields exactly one backward
/// directive carrying that path and the default call site.
pub proof fn lemma_backward_synonym_equivalence(
    kw: Seq<u8>,
    colon: bool,
    p: Seq<u8>,
    quote: u8,
    text: Seq<u8>,
)
    requires
        word_is(kw, kw_sourced_by()) || word_is(kw, kw_run_by()) || word_is(
            kw,
            kw_included_by(),
        ),
        plain_token(p),
        quote == 0 || quote == 34 || quote == 39,
        text == directive_line(kw, colon, p, quote, Seq::empty()),
    ensures
        parse_directives_spec(text) == single_backward(p, CallView::Default),
{
    lemma_kw_shapes();
    assert(kw_shape(kw)) by {
        lemma_word_is_shape(kw);
    }
    lemma_line_head(text, kw, colon, p, quote, Seq::empty());
    let ktok = kw_token(kw, colon);
    let e: int = 2 + ktok.len() as int;
    let v: int = e + 1;
    let np: int = v + value_text(p, quote).len();
    assert(np == text.len());
    assert(parse_params_from(text, np) == CallView::Default);
    let kw0 = text.subrange(2, e);
    assert(kw0 == ktok);
    if colon {
        assert(kw0.last() == 58);
        assert(kw0.drop_last() =~= kw);
    } else {
        assert(kw0.last() == kw.last());
        assert(kw.last() != 58);
    }
    assert(parse_line(text) == Some(DirView::Back(p, CallView::Default)));
    assert(forall|k: int| 0 <= k < text.len() ==> text[k] != 10) by {
        lemma_line_no_newline(text, kw, colon, p, quote, Seq::empty());
    }
    lemma_single_line(text, DirView::Back(p, CallView::Default));
    assert(apply_line(MetadataView::empty(), Some(DirView::Back(p, CallView::Default)), 0)
        == single_backward(p, CallView::Default)) by {
        assert(MetadataView::empty().sourced_by.push(BackwardView {
            path: p,
            call_site: CallView::Default,
        }) =~= seq![BackwardView { path: p, call_site: CallView::Default }]);
    }
}

/// A keyword equal pointwise to a constant keeps its shape.
proof fn lemma_word_is_shape(kw: Seq<u8>)
    requires
        word_is(kw, kw_sourced_by()) || word_is(kw, kw_run_by()) || word_is(
            kw,
            kw_included_by(),
        ) || word_is(kw, kw_source()) || word_is(kw, kw_sources()) || word_is(
            kw,
            kw_working_directory(),
        ) || word_is(kw, kw_working_dir()) || word_is(kw, kw_current_directory()) || word_is(
            kw,
            kw_current_dir(),
        ) || word_is(kw, kw_cd()) || word_is(kw, kw_wd()),
    ensures
        kw_shape(kw),
{
    lemma_kw_shapes();
}

/// No byte of a constructed directive line is a newline.
proof fn lemma_line_no_newline(
    line: Seq<u8>,
    kw: Seq<u8>,
    colon: bool,
    p: Seq<u8>,
    quote: u8,
    rest: Seq<u8>,
)
    requires
        line == directive_line(kw, colon, p, quote, rest),
        kw_shape(kw),
        plain_token(p),
        quote == 0 || quote == 34 || quote == 39,
        forall|k: int| 0 <= k < rest.len() ==> rest[k] != 10,
    ensures
        forall|k: int| 0 <= k < line.len() ==> line[k] != 10,
{
    let ktok = kw_token(kw, colon);
    let vt = value_text(p, quote);
    assert forall|k: int| 0 <= k < line.len() implies line[k] != 10 by {
        if k < 2 {
        } else if k < 2 + ktok.len() {
            assert(line[k] == ktok[k - 2]);
        } else if k == 2 + ktok.len() {
            assert(line[k] == 32);
        } else if k < 3 + ktok.len() + vt.len() {
            assert(line[k] == vt[k - 3 - ktok.len()]);
            if quote != 0 {
                if k - 3 - ktok.len() == 0 || k - 3 - ktok.len() == vt.len() - 1 {
                } else {
                    assert(vt[k - 3 - ktok.len()] == p[k - 4 - ktok.len()]);
                }
            }
        } else {
            assert(line[k] == rest[k - 3 - ktok.len() - vt.len()]);
        }
    }
}

/// Synonym equivalence for working-directory directives: each of the six
/// keywords, with or without a trailing colon, with the path bare,
/// double-quoted or single-quoted, sets the working directory to that
/// path and nothing else.
pub proof fn lemma_working_directory_synonym_equivalence(
    kw: Seq<u8>,
    colon: bool,
    p: Seq<u8>,
    quote: u8,
    text: Seq<u8>,
)
    requires
        word_is(kw, kw_working_directory()) || word_is(kw, kw_working_dir()) || word_is(
            kw,
            kw_current_directory(),
        ) || word_is(kw, kw_current_dir()) || word_is(kw, kw_cd()) || word_is(kw, kw_wd()),
        plain_token(p),
        quote == 0 || quote == 34 || quote == 39,
        text == directive_line(kw, colon, p, quote, Seq::empty()),
    ensures
        parse_directives_spec(text) == (MetadataView {
            working_directory: Some(p),
            ..MetadataView::empty()
        }),
{
    lemma_kw_shapes();
    assert(kw_shape(kw)) by {
        lemma_word_is_shape(kw);
    }
    lemma_line_head(text, kw, colon, p, quote, Seq::empty());
    lemma_kw_distinct(kw);
    let ktok = kw_token(kw, colon);
    let e: int = 2 + ktok.len() as int;
    let v: int = e + 1;
    let np: int = v + value_text(p, quote).len();
    assert(np == text.len());
    let kw0 = text.subrange(2, e);
    assert(kw0 == ktok);
    if colon {
        assert(kw0.last() == 58);
        assert(kw0.drop_last() =~= kw);
    } else {
        assert(kw0.last() == kw.last());
        assert(kw.last() != 58);
    }
    assert(parse_line(text) == Some(DirView::Wd(p)));
    assert(forall|k: int| 0 <= k < text.len() ==> text[k] != 10) by {
        lemma_line_no_newline(text, kw, colon, p, quote, Seq::empty());
    }
    lemma_single_line(text, DirView::Wd(p));
    assert(apply_line(MetadataView::empty(), Some(DirView::Wd(p)), 0) == (MetadataView {
        working_directory: Some(p),
        ..MetadataView::empty()
    }));
}


proof fn lemma_digits_val_shift(line: Seq<u8>, off: int, d: Seq<u8>, e: int)
    requires
        0 <= off,
        0 <= e <= d.len(),
        off + d.len() <= line.len(),
        forall|k: int| 0 <= k < d.len() ==> line[off + k] == d[k],
    ensures
        digits_val(line, off, off + e) == digits_val(d, 0, e),
    decreases e,
{
    if e > 0 {
        lemma_digits_val_shift(line, off, d, e - 1);
        assert(line[off + (e - 1)] == d[e - 1]);
    }
}

/// A match pattern: no closing quote, no newline inside.
pub open spec fn match_pattern(x: Seq<u8>, q: u8) -> bool {
    forall|k: int| 0 <= k < x.len() ==> #[trigger] x[k] != q && x[k] != 10
}

/// The line parameter: `line=N` (1-based, written in decimal digits `d`)
/// on a backward directive produces the 0-based call site `Line(N - 1)`.
pub proof fn lemma_line_parameter(
    kw: Seq<u8>,
    p: Seq<u8>,
    d: Seq<u8>,
    n: int,
    text: Seq<u8>,
)
    requires
        word_is(kw, kw_sourced_by()) || word_is(kw, kw_run_by()) || word_is(
            kw,
            kw_included_by(),
        ),
        plain_token(p),
        1 <= d.len() <= 10,
        forall|k: int| 0 <= k < d.len() ==> is_digit(#[trigger] d[k]),
        n == digits_val(d, 0, d.len() as int),
        1 <= n <= u32::MAX,
        text == directive_line(kw, false, p, 0, seq![32u8] + kw_line_eq() + d),
    ensures
        parse_directives_spec(text) == single_backward(p, CallView::Line((n - 1) as u32)),
{
    let rest = seq![32u8] + kw_line_eq() + d;
    lemma_kw_shapes();
    assert(kw_shape(kw)) by {
        lemma_word_is_shape(kw);
    }
    assert(rest[0] == 32);
    lemma_line_head(text, kw, false, p, 0, rest);
    let e: int = 2 + kw.len() as int;
    let v: int = e + 1;
    let np: int = v + p.len();
    assert forall|k: int| 0 <= k < rest.len() implies text[np + k] == rest[k] by {}
    // the keyword token carries no colon
    let kw0 = text.subrange(2, e);
    assert(kw0 == kw_token(kw, false));
    assert(kw0.last() == kw.last());
    assert(kw.last() != 58);
    // parameters: one recognised line= with the digits, then the end
    let w = np + 1;
    assert(text[np] == 32);
    assert(text[w] == kw_line_eq()[0]) by {
        assert(rest[1] == kw_line_eq()[0]);
    }
    assert(!is_space(text[w]));
    lemma_scan_ws_is(text, np, w);
    assert(starts_with(text, w, kw_line_eq())) by {
        assert forall|k: int| 0 <= k < 5 implies text[w + k] == kw_line_eq()[k] by {
            assert(rest[1 + k] == kw_line_eq()[k]);
        }
    }
    let dd = w + 5;
    assert forall|k: int| 0 <= k < d.len() implies text[dd + k] == d[k] by {
        assert(rest[6 + k] == d[k]);
    }
    assert(dd + d.len() == text.len());
    lemma_scan_digits_is(text, dd, dd + d.len() as int);
    lemma_digits_val_shift(text, dd, d, d.len() as int);
    assert(digits_val(text, dd, dd + d.len() as int) == n);
    assert(parse_params_from(text, dd + d.len() as int) == CallView::Default);
    assert(parse_params(text, np) == CallView::Line((n - 1) as u32));
    assert(parse_params_from(text, np) == CallView::Line((n - 1) as u32));
    assert(parse_line(text) == Some(DirView::Back(p, CallView::Line((n - 1) as u32))));
    assert(forall|k: int| 0 <= k < text.len() ==> text[k] != 10) by {
        assert forall|k: int| 0 <= k < rest.len() implies rest[k] != 10 by {
            if 1 <= k < 6 {
                assert(rest[k] == kw_line_eq()[k - 1]);
            }
            if k >= 6 {
                assert(rest[k] == d[k - 6]);
                assert(is_digit(d[k - 6]));
            }
        }
        lemma_line_no_newline(text, kw, false, p, 0, rest);
    }
    lemma_single_line(text, DirView::Back(p, CallView::Line((n - 1) as u32)));
    assert(apply_line(
        MetadataView::empty(),
        Some(DirView::Back(p, CallView::Line((n - 1) as u32))),
        0,
    ) == single_backward(p, CallView::Line((n - 1) as u32))) by {
        assert(MetadataView::empty().sourced_by.push(BackwardView {
            path: p,
            call_site: CallView::Line((n - 1) as u32),
        }) =~= seq![BackwardView { path: p, call_site: CallView::Line((n - 1) as u32) }]);
    }
}

/// The match parameter: `match="X"` or `match='X'` on a backward
/// directive produces the call site `Match(X)` with the pattern byte
/// exact.
#[verifier::rlimit(100)]
#[verifier::spinoff_prover]
pub proof fn lemma_match_parameter(
    kw: Seq<u8>,
    p: Seq<u8>,
    x: Seq<u8>,
    q: u8,
    text: Seq<u8>,
)
    requires
        word_is(kw, kw_sourced_by()) || word_is(kw, kw_run_by()) || word_is(
            kw,
            kw_included_by(),
        ),
        plain_token(p),
        q == 34 || q == 39,
        match_pattern(x, q),
        text == directive_line(kw, false, p, 0, seq![32u8] + kw_match_eq() + seq![q] + x + seq![q]),
    ensures
        parse_directives_spec(text) == single_backward(p, CallView::Match(x)),
{
    let rest = seq![32u8] + kw_match_eq() + seq![q] + x + seq![q];
    lemma_kw_shapes();
    assert(kw_shape(kw)) by {
        lemma_word_is_shape(kw);
    }
    assert(rest[0] == 32);
    lemma_line_head(text, kw, false, p, 0, rest);
    let e: int = 2 + kw.len() as int;
    let v: int = e + 1;
    let np: int = v + p.len();
    assert forall|k: int| 0 <= k < rest.len() implies text[np + k] == rest[k] by {}
    let kw0 = text.subrange(2, e);
    assert(kw0 == kw_token(kw, false));
    assert(kw0.last() == kw.last());
    assert(kw.last() != 58);
    let w = np + 1;
    assert(text[np] == 32);
    assert(text[w] == kw_match_eq()[0]) by {
        assert(rest[1] == kw_match_eq()[0]);
    }
    assert(!is_space(text[w]));
    lemma_scan_ws_is(text, np, w);
    assert(!starts_with(text, w, kw_line_eq())) by {
        assert(text[w] == 'm' as u8);
        assert(kw_line_eq()[0] == 'l' as u8);
    }
    assert(starts_with(text, w, kw_match_eq())) by {
        assert forall|k: int| 0 <= k < 6 implies text[w + k] == kw_match_eq()[k] by {
            assert(rest[1 + k] == kw_match_eq()[k]);
        }
    }
    let qq = w + 6;
    assert(text[qq] == q) by {
        assert(rest[7] == q);
    }
    assert forall|k: int| 0 <= k < x.len() implies text[qq + 1 + k] == x[k] by {
        assert(rest[8 + k] == x[k]);
    }
    assert(text[qq + 1 + x.len()] == q) by {
        assert(rest[8 + x.len() as int] == q);
    }
    assert forall|k: int| qq + 1 <= k < qq + 1 + x.len() implies text[k] != q by {
        assert(text[k] == x[k - (qq + 1)]);
    }
    lemma_scan_to_byte_is(text, qq + 1, qq + 1 + x.len() as int, q);
    assert(text.subrange(qq + 1, qq + 1 + x.len() as int) =~= x);
    assert(parse_value(text, qq) == Some((x, qq + 2 + x.len())));
    assert(qq + 2 + x.len() == text.len());
    assert(parse_params_from(text, text.len() as int) == CallView::Default);
    assert(parse_params(text, np) == CallView::Match(x));
    assert(parse_params_from(text, np) == CallView::Match(x));
    assert(parse_line(text) == Some(DirView::Back(p, CallView::Match(x))));
    assert(forall|k: int| 0 <= k < text.len() ==> text[k] != 10) by {
        assert forall|k: int| 0 <= k < rest.len() implies rest[k] != 10 by {
            if 1 <= k < 7 {
                assert(rest[k] == kw_match_eq()[k - 1]);
            }
            if k == 7 || k == rest.len() - 1 {
            } else if k >= 8 {
                assert(rest[k] == x[k - 8]);
            }
        }
        lemma_line_no_newline(text, kw, false, p, 0, rest);
    }
    lemma_single_line(text, DirView::Back(p, CallView::Match(x)));
    assert(apply_line(MetadataView::empty(), Some(DirView::Back(p, CallView::Match(x))), 0)
        == single_backward(p, CallView::Match(x))) by {
        assert(MetadataView::empty().sourced_by.push(BackwardView {
            path: p,
            call_site: CallView::Match(x),
        }) =~= seq![BackwardView { path: p, call_site: CallView::Match(x) }]);
    }
}

} // verus!
