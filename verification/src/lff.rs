//! LibreCAD stroke-font (`.lff`) files.
//!
//! A file is read line by line; each line is trimmed and blank lines are
//! skipped.
//!   - `# Key: value` headers: `Name`, `LetterSpacing`, `WordSpacing`,
//!     `LineSpacingFactor`. A spacing value is kept only when it is a valid
//!     number.
//!   - `[<hex>] <label>` starts a block. A label of more than one character
//!     names a shape (looked up case-insensitively); otherwise the block is the
//!     glyph of code point `<hex>`, or is dropped when `<hex>` is no code point.
//!   - Inside a block, `C<hex>` includes the strokes of another glyph, and any
//!     other line is a stroke: `;`-separated vertices `x,y`, where a vertex
//!     `x,y,A<bulge>` makes the segment ending at it a bulge arc. A stroke line
//!     with a vertex whose `x` or `y` is not a number is dropped; so is a
//!     stroke of fewer than two vertices.
//!
//! Text pieces are kept as spans `(start, end)` of the file's characters;
//! numbers are checked against the grammar of decimal floating-point
//! literals and converted by the caller.

use vstd::prelude::*;
use std::collections::HashMap;
use rustc_hash::FxBuildHasher;
use crate::text_codes::str_chars;

verus! {

/// Half-open range of character positions in the source.
pub type Span = (usize, usize);

// ── characters ─────────────────────────────────────────────────────────

/// Unicode `White_Space` (what `char::is_whitespace` accepts).
pub open spec fn is_ws(c: char) -> bool {
    ||| c == ' '
    ||| ('\t' <= c && c <= '\r')
    ||| c == '\u{85}'
    ||| c == '\u{a0}'
    ||| c == '\u{1680}'
    ||| ('\u{2000}' <= c && c <= '\u{200a}')
    ||| c == '\u{2028}'
    ||| c == '\u{2029}'
    ||| c == '\u{202f}'
    ||| c == '\u{205f}'
    ||| c == '\u{3000}'
}

pub fn ws(c: char) -> (b: bool)
    ensures
        b == is_ws(c),
{
    c == ' ' || ('\t' <= c && c <= '\r') || c == '\u{85}' || c == '\u{a0}' || c == '\u{1680}' || (
    '\u{2000}' <= c && c <= '\u{200a}') || c == '\u{2028}' || c == '\u{2029}' || c == '\u{202f}'
        || c == '\u{205f}' || c == '\u{3000}'
}

pub open spec fn is_digit(c: char) -> bool {
    '0' <= c && c <= '9'
}

pub open spec fn is_hex_digit(c: char) -> bool {
    is_digit(c) || ('a' <= c && c <= 'f') || ('A' <= c && c <= 'F')
}

pub open spec fn hex_digit_val(c: char) -> int {
    if is_digit(c) {
        c as int - '0' as int
    } else if 'a' <= c && c <= 'f' {
        c as int - 'a' as int + 10
    } else {
        c as int - 'A' as int + 10
    }
}

/// ASCII upper case of `c`; other characters are unchanged.
pub open spec fn upper(c: char) -> char {
    if 'a' <= c && c <= 'z' {
        ((c as u32) - 32) as char
    } else {
        c
    }
}

/// ASCII lower case of `c`; other characters are unchanged.
pub open spec fn lower(c: char) -> char {
    if 'A' <= c && c <= 'Z' {
        ((c as u32) + 32) as char
    } else {
        c
    }
}

// ── spans ──────────────────────────────────────────────────────────────

/// Start of `s[lo..hi]` once leading white space is skipped.
pub open spec fn skip_ws(s: Seq<char>, lo: int, hi: int) -> int
    decreases hi - lo,
{
    if lo < hi && is_ws(s[lo]) {
        skip_ws(s, lo + 1, hi)
    } else {
        lo
    }
}

/// End of `s[lo..hi]` once trailing white space is dropped.
pub open spec fn drop_ws(s: Seq<char>, lo: int, hi: int) -> int
    decreases hi - lo,
{
    if lo < hi && is_ws(s[hi - 1]) {
        drop_ws(s, lo, hi - 1)
    } else {
        hi
    }
}

/// `s[lo..hi]` without leading and trailing white space (`str::trim`).
pub open spec fn trim(s: Seq<char>, lo: int, hi: int) -> (int, int) {
    let a = skip_ws(s, lo, hi);
    (a, drop_ws(s, a, hi))
}

/// First position of `c` in `s[lo..hi]`, or `hi`.
pub open spec fn find_from(s: Seq<char>, lo: int, hi: int, c: char) -> int
    decreases hi - lo,
{
    if lo < hi {
        if s[lo] == c {
            lo
        } else {
            find_from(s, lo + 1, hi, c)
        }
    } else {
        hi
    }
}

/// `s[lo..hi]` starts with `p`.
pub open spec fn has_prefix(s: Seq<char>, lo: int, hi: int, p: Seq<char>) -> bool {
    &&& hi - lo >= p.len()
    &&& forall|k: int| 0 <= k < p.len() ==> s[lo + k] == p[k]
}

/// `s[lo..hi]` equals `p` ignoring ASCII case of `s`.
pub open spec fn eq_lower(s: Seq<char>, lo: int, hi: int, p: Seq<char>) -> bool {
    &&& hi - lo == p.len()
    &&& forall|k: int| 0 <= k < p.len() ==> lower(s[lo + k]) == p[k]
}

proof fn lemma_skip_ws(s: Seq<char>, lo: int, hi: int)
    requires
        lo <= hi,
    ensures
        lo <= skip_ws(s, lo, hi) <= hi,
    decreases hi - lo,
{
    if lo < hi && is_ws(s[lo]) {
        lemma_skip_ws(s, lo + 1, hi);
    }
}

proof fn lemma_drop_ws(s: Seq<char>, lo: int, hi: int)
    requires
        lo <= hi,
    ensures
        lo <= drop_ws(s, lo, hi) <= hi,
    decreases hi - lo,
{
    if lo < hi && is_ws(s[hi - 1]) {
        lemma_drop_ws(s, lo, hi - 1);
    }
}

proof fn lemma_find_from(s: Seq<char>, lo: int, hi: int, c: char)
    requires
        lo <= hi,
    ensures
        lo <= find_from(s, lo, hi, c) <= hi,
        find_from(s, lo, hi, c) < hi ==> s[find_from(s, lo, hi, c)] == c,
        forall|k: int| lo <= k < find_from(s, lo, hi, c) ==> s[k] != c,
    decreases hi - lo,
{
    if lo < hi && s[lo] != c {
        lemma_find_from(s, lo + 1, hi, c);
    }
}

/// `str::trim` on `s[lo..hi]`, as a span.
pub fn trim_span(s: &Vec<char>, lo: usize, hi: usize) -> (r: Span)
    requires
        lo <= hi <= s@.len(),
    ensures
        r.0 == trim(s@, lo as int, hi as int).0,
        r.1 == trim(s@, lo as int, hi as int).1,
        lo <= r.0 <= r.1 <= hi,
{
    let mut a = lo;
    while a < hi && ws(s[a])
        invariant
            lo <= a <= hi <= s@.len(),
            skip_ws(s@, a as int, hi as int) == skip_ws(s@, lo as int, hi as int),
        decreases hi - a,
    {
        a = a + 1;
    }
    let mut b = hi;
    while b > a && ws(s[b - 1])
        invariant
            a <= b <= hi <= s@.len(),
            drop_ws(s@, a as int, b as int) == drop_ws(s@, a as int, hi as int),
        decreases b - a,
    {
        b = b - 1;
    }
    (a, b)
}

/// First position of `c` in `s[lo..hi]`, or `hi`.
pub fn find_char(s: &Vec<char>, lo: usize, hi: usize, c: char) -> (r: usize)
    requires
        lo <= hi <= s@.len(),
    ensures
        r == find_from(s@, lo as int, hi as int, c),
        lo <= r <= hi,
{
    let mut i = lo;
    while i < hi && s[i] != c
        invariant
            lo <= i <= hi <= s@.len(),
            find_from(s@, i as int, hi as int, c) == find_from(s@, lo as int, hi as int, c),
        decreases hi - i,
    {
        i = i + 1;
    }
    i
}

/// `s[lo..hi]` starts with `p`.
pub fn starts_with(s: &Vec<char>, lo: usize, hi: usize, p: &Vec<char>) -> (b: bool)
    requires
        lo <= hi <= s@.len(),
    ensures
        b == has_prefix(s@, lo as int, hi as int, p@),
{
    if hi - lo < p.len() {
        return false;
    }
    let mut k: usize = 0;
    while k < p.len()
        invariant
            hi - lo >= p@.len(),
            lo <= hi <= s@.len(),
            k <= p@.len(),
            forall|j: int| 0 <= j < k ==> s@[lo + j] == p@[j],
        decreases p@.len() - k,
    {
        if s[lo + k] != p[k] {
            return false;
        }
        k = k + 1;
    }
    true
}

fn lower_char(c: char) -> (r: char)
    ensures
        r == lower(c),
{
    if 'A' <= c && c <= 'Z' {
        let v: u32 = (c as u32) + 32;
        match core::char::from_u32(v) {
            Some(r) => r,
            None => c,
        }
    } else {
        c
    }
}

fn upper_char(c: char) -> (r: char)
    ensures
        r == upper(c),
{
    if 'a' <= c && c <= 'z' {
        let v: u32 = (c as u32) - 32;
        match core::char::from_u32(v) {
            Some(r) => r,
            None => c,
        }
    } else {
        c
    }
}

/// `s[lo..hi]` equals `p` ignoring ASCII case of `s`.
fn eq_ignore_case(s: &Vec<char>, lo: usize, hi: usize, p: &Vec<char>) -> (b: bool)
    requires
        lo <= hi <= s@.len(),
    ensures
        b == eq_lower(s@, lo as int, hi as int, p@),
{
    if hi - lo != p.len() {
        return false;
    }
    let mut k: usize = 0;
    while k < p.len()
        invariant
            hi - lo == p@.len(),
            lo <= hi <= s@.len(),
            k <= p@.len(),
            forall|j: int| 0 <= j < k ==> lower(s@[lo + j]) == p@[j],
        decreases p@.len() - k,
    {
        if lower_char(s[lo + k]) != p[k] {
            return false;
        }
        k = k + 1;
    }
    true
}

/// The characters of `s[lo..hi]` in ASCII upper case (`to_ascii_uppercase`).
pub fn upper_text(s: &Vec<char>, lo: usize, hi: usize) -> (r: Vec<char>)
    requires
        lo <= hi <= s@.len(),
    ensures
        r@ == s@.subrange(lo as int, hi as int).map_values(|c: char| upper(c)),
{
    let mut r: Vec<char> = Vec::new();
    let mut i = lo;
    while i < hi
        invariant
            lo <= i <= hi <= s@.len(),
            r@ == s@.subrange(lo as int, i as int).map_values(|c: char| upper(c)),
        decreases hi - i,
    {
        r.push(upper_char(s[i]));
        i = i + 1;
        assert(r@ =~= s@.subrange(lo as int, i as int).map_values(|c: char| upper(c)));
    }
    r
}

// ── numbers ────────────────────────────────────────────────────────────

/// Number of decimal digits at `s[i..hi]`.
pub open spec fn digits_from(s: Seq<char>, i: int, hi: int) -> int
    decreases hi - i,
{
    if i < hi && is_digit(s[i]) {
        1 + digits_from(s, i + 1, hi)
    } else {
        0
    }
}

/// `s[lo..hi]` is a decimal number: digits with an optional fraction (at least
/// one digit in all), then an optional exponent `e`/`E`, sign, digits.
pub open spec fn is_number(s: Seq<char>, lo: int, hi: int) -> bool {
    let a = digits_from(s, lo, hi);
    let i = lo + a;
    let (ok, j) = if i < hi && s[i] == '.' {
        let b = digits_from(s, i + 1, hi);
        (a + b >= 1, i + 1 + b)
    } else {
        (a >= 1, i)
    };
    ok && (j == hi || (j < hi && (s[j] == 'e' || s[j] == 'E') && {
        let k = if j + 1 < hi && (s[j + 1] == '+' || s[j + 1] == '-') {
            j + 2
        } else {
            j + 1
        };
        let d = digits_from(s, k, hi);
        d >= 1 && k + d == hi
    }))
}

/// `s[lo..hi]` is a floating-point literal as `str::parse::<f32>` accepts it:
/// an optional sign, then `inf`, `infinity`, `nan` (any case) or a decimal
/// number.
pub open spec fn is_float_lit(s: Seq<char>, lo: int, hi: int) -> bool {
    let b = if lo < hi && (s[lo] == '+' || s[lo] == '-') {
        lo + 1
    } else {
        lo
    };
    ||| eq_lower(s, b, hi, seq!['i', 'n', 'f'])
    ||| eq_lower(s, b, hi, seq!['i', 'n', 'f', 'i', 'n', 'i', 't', 'y'])
    ||| eq_lower(s, b, hi, seq!['n', 'a', 'n'])
    ||| is_number(s, b, hi)
}

fn count_digits(s: &Vec<char>, i: usize, hi: usize) -> (n: usize)
    requires
        i <= hi <= s@.len(),
    ensures
        n == digits_from(s@, i as int, hi as int),
        i + n <= hi,
{
    let mut k = i;
    while k < hi && '0' <= s[k] && s[k] <= '9'
        invariant
            i <= k <= hi <= s@.len(),
            digits_from(s@, i as int, hi as int) == (k - i) + digits_from(s@, k as int, hi as int),
        decreases hi - k,
    {
        k = k + 1;
    }
    k - i
}

fn number(s: &Vec<char>, lo: usize, hi: usize) -> (b: bool)
    requires
        lo <= hi <= s@.len(),
    ensures
        b == is_number(s@, lo as int, hi as int),
{
    let a = count_digits(s, lo, hi);
    let i = lo + a;
    let ok: bool;
    let j: usize;
    if i < hi && s[i] == '.' {
        let b = count_digits(s, i + 1, hi);
        ok = a + b >= 1;
        j = i + 1 + b;
    } else {
        ok = a >= 1;
        j = i;
    }
    if !ok {
        return false;
    }
    if j == hi {
        return true;
    }
    if !(s[j] == 'e' || s[j] == 'E') {
        return false;
    }
    let k = if hi - j > 1 && (s[j + 1] == '+' || s[j + 1] == '-') {
        j + 2
    } else {
        j + 1
    };
    let d = count_digits(s, k, hi);
    d >= 1 && k + d == hi
}

/// `s[lo..hi]` is a literal `str::parse::<f32>` accepts.
pub fn float_lit(s: &Vec<char>, lo: usize, hi: usize) -> (b: bool)
    requires
        lo <= hi <= s@.len(),
    ensures
        b == is_float_lit(s@, lo as int, hi as int),
{
    let b = if lo < hi && (s[lo] == '+' || s[lo] == '-') {
        lo + 1
    } else {
        lo
    };
    let inf = vec!['i', 'n', 'f'];
    let infinity = vec!['i', 'n', 'f', 'i', 'n', 'i', 't', 'y'];
    let nan = vec!['n', 'a', 'n'];
    assert(inf@ =~= seq!['i', 'n', 'f']);
    assert(infinity@ =~= seq!['i', 'n', 'f', 'i', 'n', 'i', 't', 'y']);
    assert(nan@ =~= seq!['n', 'a', 'n']);
    eq_ignore_case(s, b, hi, &inf) || eq_ignore_case(s, b, hi, &infinity) || eq_ignore_case(
        s,
        b,
        hi,
        &nan,
    ) || number(s, b, hi)
}

/// Value of the hex digits `s[lo..hi]`.
pub open spec fn hex_val(s: Seq<char>, lo: int, hi: int) -> int
    decreases hi - lo,
{
    if lo < hi {
        hex_val(s, lo, hi - 1) * 16 + hex_digit_val(s[hi - 1])
    } else {
        0
    }
}

/// `u32::from_str_radix(s[lo..hi], 16)`: an optional `+`, then at least one hex
/// digit and nothing else, with a value that fits in `u32`.
pub open spec fn hex_u32(s: Seq<char>, lo: int, hi: int) -> Option<u32> {
    let b = if lo < hi && s[lo] == '+' {
        lo + 1
    } else {
        lo
    };
    if b < hi && (forall|k: int| b <= k < hi ==> is_hex_digit(s[k])) && hex_val(s, b, hi)
        <= u32::MAX {
        Some(hex_val(s, b, hi) as u32)
    } else {
        None
    }
}

proof fn lemma_hex_val_nonneg(s: Seq<char>, lo: int, hi: int)
    requires
        forall|k: int| lo <= k < hi ==> is_hex_digit(s[k]),
    ensures
        hex_val(s, lo, hi) >= 0,
    decreases hi - lo,
{
    if lo < hi {
        lemma_hex_val_nonneg(s, lo, hi - 1);
    }
}

proof fn lemma_hex_val_mono(s: Seq<char>, lo: int, m: int, hi: int)
    requires
        lo <= m <= hi,
        forall|k: int| lo <= k < hi ==> is_hex_digit(s[k]),
    ensures
        hex_val(s, lo, m) <= hex_val(s, lo, hi),
    decreases hi - m,
{
    if m < hi {
        lemma_hex_val_mono(s, lo, m, hi - 1);
        lemma_hex_val_nonneg(s, lo, hi - 1);
    }
}

/// Parses `s[lo..hi]` as `u32::from_str_radix(.., 16)` does.
pub fn hex_u32_of(s: &Vec<char>, lo: usize, hi: usize) -> (r: Option<u32>)
    requires
        lo <= hi <= s@.len(),
    ensures
        r == hex_u32(s@, lo as int, hi as int),
{
    let b = if lo < hi && s[lo] == '+' {
        lo + 1
    } else {
        lo
    };
    if b >= hi {
        return None;
    }
    let mut k = b;
    while k < hi
        invariant
            b <= k <= hi <= s@.len(),
            b == (if lo < hi && s@[lo as int] == '+' { lo + 1 } else { lo as int }),
            forall|j: int| b <= j < k ==> is_hex_digit(s@[j]),
        decreases hi - k,
    {
        let c = s[k];
        if !(('0' <= c && c <= '9') || ('a' <= c && c <= 'f') || ('A' <= c && c <= 'F')) {
            assert(!is_hex_digit(s@[k as int]));

            return None;
        }
        k = k + 1;
    }
    let mut acc: u64 = 0;
    let mut k = b;
    while k < hi
        invariant
            b <= k <= hi <= s@.len(),
            b == (if lo < hi && s@[lo as int] == '+' { lo + 1 } else { lo as int }),
            forall|j: int| b <= j < hi ==> is_hex_digit(s@[j]),
            acc == hex_val(s@, b as int, k as int),
            acc <= u32::MAX,
        decreases hi - k,
    {
        let c = s[k];
        let d: u64 = if '0' <= c && c <= '9' {
            (c as u64) - ('0' as u64)
        } else if 'a' <= c && c <= 'f' {
            (c as u64) - ('a' as u64) + 10
        } else {
            (c as u64) - ('A' as u64) + 10
        };
        assert(d == hex_digit_val(s@[k as int]));
        acc = acc * 16 + d;
        k = k + 1;
        assert(acc == hex_val(s@, b as int, k as int));
        if acc > 0xffff_ffff {
            proof {
                lemma_hex_val_mono(s@, b as int, k as int, hi as int);
            }
            return None;
        }
    }
    Some(acc as u32)
}

// ── stroke lines ───────────────────────────────────────────────────────

/// One vertex of a stroke: the texts of its coordinates and, when it carries
/// one, of its bulge (`A` stripped).
#[derive(Clone, Copy, Debug, PartialEq, Eq)]
pub struct LffVertex {
    pub x: Span,
    pub y: Span,
    pub bulge: Option<Span>,
}

/// What one `;`-separated token of a stroke line gives.
pub enum Token {
    /// Blank, or without a comma: ignored.
    Skip,
    /// A coordinate that is not a number: the whole line is dropped.
    Bad,
    Vertex(LffVertex),
}

pub open spec fn spec_span(p: (int, int)) -> Span {
    (p.0 as usize, p.1 as usize)
}

/// The token `s[lo..e]`.
pub open spec fn token_of(s: Seq<char>, lo: int, e: int) -> Token {
    let t = trim(s, lo, e);
    if t.0 == t.1 {
        Token::Skip
    } else {
        let c1 = find_from(s, lo, e, ',');
        if c1 == e {
            Token::Skip
        } else {
            let c2 = find_from(s, c1 + 1, e, ',');
            let x = trim(s, lo, c1);
            let y = trim(s, c1 + 1, c2);
            if !is_float_lit(s, x.0, x.1) || !is_float_lit(s, y.0, y.1) {
                Token::Bad
            } else {
                let bulge = if c2 < e {
                    let c3 = find_from(s, c2 + 1, e, ',');
                    let p = trim(s, c2 + 1, c3);
                    if p.0 < p.1 && (s[p.0] == 'A' || s[p.0] == 'a') && is_float_lit(
                        s,
                        p.0 + 1,
                        p.1,
                    ) {
                        Some(spec_span((p.0 + 1, p.1)))
                    } else {
                        None
                    }
                } else {
                    None
                };
                Token::Vertex(LffVertex { x: spec_span(x), y: spec_span(y), bulge })
            }
        }
    }
}

/// Vertices of the stroke line `s[lo..hi]`, or `None` when a coordinate is not
/// a number.
pub open spec fn vertices_from(s: Seq<char>, lo: int, hi: int) -> Option<Seq<LffVertex>>
    decreases hi - lo,
{
    if lo > hi {
        Some(Seq::empty())
    } else {
        let e = find_from(s, lo, hi, ';');
        let rest = if lo <= e < hi {
            vertices_from(s, e + 1, hi)
        } else {
            Some(Seq::empty())
        };
        match token_of(s, lo, e) {
            Token::Skip => rest,
            Token::Bad => None,
            Token::Vertex(v) => match rest {
                Some(r) => Some(seq![v] + r),
                None => None,
            },
        }
    }
}

pub open spec fn prepend(a: Seq<LffVertex>, o: Option<Seq<LffVertex>>) -> Option<Seq<LffVertex>> {
    match o {
        Some(r) => Some(a + r),
        None => None,
    }
}

fn token(s: &Vec<char>, lo: usize, e: usize) -> (r: Token)
    requires
        lo <= e <= s@.len(),
    ensures
        r == token_of(s@, lo as int, e as int),
{
    let t = trim_span(s, lo, e);
    if t.0 == t.1 {
        return Token::Skip;
    }
    let c1 = find_char(s, lo, e, ',');
    if c1 == e {
        return Token::Skip;
    }
    let c2 = find_char(s, c1 + 1, e, ',');
    let x = trim_span(s, lo, c1);
    let y = trim_span(s, c1 + 1, c2);
    if !float_lit(s, x.0, x.1) || !float_lit(s, y.0, y.1) {
        return Token::Bad;
    }
    let bulge = if c2 < e {
        let c3 = find_char(s, c2 + 1, e, ',');
        let p = trim_span(s, c2 + 1, c3);
        if p.0 < p.1 && (s[p.0] == 'A' || s[p.0] == 'a') && float_lit(s, p.0 + 1, p.1) {
            Some((p.0 + 1, p.1))
        } else {
            None
        }
    } else {
        None
    };
    Token::Vertex(LffVertex { x, y, bulge })
}

/// Appends the vertices of the stroke line `s[lo..hi]` to `verts`; false, with
/// `verts` unchanged, when a coordinate is not a number.
fn stroke_vertices(s: &Vec<char>, lo: usize, hi: usize, verts: &mut Vec<LffVertex>) -> (ok: bool)
    requires
        lo <= hi <= s@.len(),
    ensures
        ok == (vertices_from(s@, lo as int, hi as int) is Some),
        ok ==> final(verts)@ == old(verts)@ + vertices_from(s@, lo as int, hi as int)->0,
        !ok ==> final(verts)@ == old(verts)@,
{
    let start = verts.len();
    let ghost v0 = verts@;
    let mut p = lo;
    loop
        invariant
            lo <= p <= hi <= s@.len(),
            start == v0.len(),
            v0 == old(verts)@,
            verts@.len() >= start,
            verts@.subrange(0, start as int) == v0,
            vertices_from(s@, lo as int, hi as int) == prepend(
                verts@.subrange(start as int, verts@.len() as int),
                vertices_from(s@, p as int, hi as int),
            ),
        decreases hi - p,
    {
        let e = find_char(s, p, hi, ';');
        let ghost added = verts@.subrange(start as int, verts@.len() as int);
        let ghost rest = if e < hi {
            vertices_from(s@, e + 1, hi as int)
        } else {
            Some(Seq::<LffVertex>::empty())
        };
        match token(s, p, e) {
            Token::Skip => {},
            Token::Bad => {
                verts.truncate(start);
                assert(verts@ =~= v0);
                return false;
            },
            Token::Vertex(v) => {
                verts.push(v);
                assert(verts@.subrange(0, start as int) =~= v0);
                assert(verts@.subrange(start as int, verts@.len() as int) =~= added.push(v));
                assert(added.push(v) =~= added + seq![v]);
                proof {
                    if rest is Some {
                        let r = rest->0;
                        assert(added + (seq![v] + r) =~= added.push(v) + r);
                    }
                }
            },
        }
        if e >= hi {
            assert(rest == Some(Seq::<LffVertex>::empty()));
            let ghost a2 = verts@.subrange(start as int, verts@.len() as int);
            assert(a2 + Seq::<LffVertex>::empty() =~= a2);
            assert(verts@ =~= v0 + a2);
            return true;
        }
        p = e + 1;
    }
}

// ── blocks and headers ─────────────────────────────────────────────────

/// What a block is stored under: a glyph's character, or a shape's label
/// (compared in ASCII upper case).
#[derive(Clone, Copy, Debug, PartialEq, Eq)]
pub enum BlockKey {
    Glyph(char),
    Shape(Span),
}

/// A block: its key, its strokes (a range of `LffFile::strokes`) and the glyphs
/// it includes (a range of `LffFile::refs`).
#[derive(Clone, Copy, Debug, PartialEq, Eq)]
pub struct LffBlock {
    pub key: BlockKey,
    pub strokes: Span,
    pub refs: Span,
}

/// A parsed font file. Every span indexes `text`.
pub struct LffFile {
    pub text: Vec<char>,
    /// `# Name:` value.
    pub name: Option<Span>,
    /// `# LetterSpacing:` value (a valid number).
    pub letter_spacing: Option<Span>,
    /// `# WordSpacing:` value (a valid number).
    pub word_spacing: Option<Span>,
    /// `# LineSpacingFactor:` value (a valid number).
    pub line_spacing: Option<Span>,
    /// Vertices of all strokes, stroke after stroke.
    pub vertices: Vec<LffVertex>,
    /// Each stroke as a range of `vertices`.
    pub strokes: Vec<Span>,
    /// Included glyphs of all blocks, block after block.
    pub refs: Vec<char>,
    /// Blocks in file order; a later block replaces an earlier one of the same key.
    pub blocks: Vec<LffBlock>,
}

/// Parser state after some lines.
pub struct LffState {
    pub name: Option<Span>,
    pub letter_spacing: Option<Span>,
    pub word_spacing: Option<Span>,
    pub line_spacing: Option<Span>,
    pub vertices: Seq<LffVertex>,
    pub strokes: Seq<Span>,
    pub refs: Seq<char>,
    pub blocks: Seq<LffBlock>,
    /// Key of the open block, if any.
    pub cur: Option<BlockKey>,
    /// Where the open block's strokes and refs begin.
    pub stroke_start: int,
    pub ref_start: int,
}

pub open spec fn name_key() -> Seq<char> {
    seq!['N', 'a', 'm', 'e', ':']
}

pub open spec fn letter_key() -> Seq<char> {
    seq!['L', 'e', 't', 't', 'e', 'r', 'S', 'p', 'a', 'c', 'i', 'n', 'g', ':']
}

pub open spec fn word_key() -> Seq<char> {
    seq!['W', 'o', 'r', 'd', 'S', 'p', 'a', 'c', 'i', 'n', 'g', ':']
}

pub open spec fn line_key() -> Seq<char> {
    seq!['L', 'i', 'n', 'e', 'S', 'p', 'a', 'c', 'i', 'n', 'g', 'F', 'a', 'c', 't', 'o', 'r', ':']
}

/// A code point `char::from_u32` accepts.
pub open spec fn valid_char(v: u32) -> bool {
    v <= 0x10FFFF && !(0xD800 <= v && v <= 0xDFFF)
}

/// Ends the open block, storing it when it has a key.
pub open spec fn flush(st: LffState) -> LffState {
    let blocks = match st.cur {
        Some(k) => st.blocks.push(
            LffBlock {
                key: k,
                strokes: (st.stroke_start as usize, st.strokes.len() as usize),
                refs: (st.ref_start as usize, st.refs.len() as usize),
            },
        ),
        None => st.blocks,
    };
    LffState {
        blocks,
        cur: None,
        stroke_start: st.strokes.len() as int,
        ref_start: st.refs.len() as int,
        ..st
    }
}

/// A header line `# ...` with `s[a..b]` after the `#`.
pub open spec fn header_step(s: Seq<char>, a: int, b: int, st: LffState) -> LffState {
    let r = trim(s, a, b);
    if has_prefix(s, r.0, r.1, name_key()) {
        LffState { name: Some(spec_span(trim(s, r.0 + 5, r.1))), ..st }
    } else if has_prefix(s, r.0, r.1, letter_key()) {
        let v = trim(s, r.0 + 14, r.1);
        if is_float_lit(s, v.0, v.1) {
            LffState { letter_spacing: Some(spec_span(v)), ..st }
        } else {
            st
        }
    } else if has_prefix(s, r.0, r.1, word_key()) {
        let v = trim(s, r.0 + 12, r.1);
        if is_float_lit(s, v.0, v.1) {
            LffState { word_spacing: Some(spec_span(v)), ..st }
        } else {
            st
        }
    } else if has_prefix(s, r.0, r.1, line_key()) {
        let v = trim(s, r.0 + 18, r.1);
        if is_float_lit(s, v.0, v.1) {
            LffState { line_spacing: Some(spec_span(v)), ..st }
        } else {
            st
        }
    } else {
        st
    }
}

/// A block line `[...] ...` spanning `s[a..b]`.
pub open spec fn block_step(s: Seq<char>, a: int, b: int, st: LffState) -> LffState {
    let st1 = flush(st);
    let end = find_from(s, a, b, ']');
    if end == b {
        st1
    } else {
        let hex = trim(s, a + 1, end);
        let label = trim(s, end + 1, b);
        if label.1 - label.0 > 1 {
            LffState { cur: Some(BlockKey::Shape(spec_span(label))), ..st1 }
        } else {
            match hex_u32(s, hex.0, hex.1) {
                Some(v) => if valid_char(v) {
                    LffState { cur: Some(BlockKey::Glyph(v as char)), ..st1 }
                } else {
                    st1
                },
                None => st1,
            }
        }
    }
}

/// `s[a..b]` is `C` or `c` followed by at least one hex digit and nothing else.
pub open spec fn is_ref_line(s: Seq<char>, a: int, b: int) -> bool {
    &&& a + 1 < b
    &&& (s[a] == 'C' || s[a] == 'c')
    &&& forall|k: int| a + 1 <= k < b ==> is_hex_digit(s[k])
}

/// One trimmed line `s[a..b]`.
#[verifier::opaque]
pub open spec fn step_line(s: Seq<char>, a: int, b: int, st: LffState) -> LffState {
    if a >= b {
        st
    } else if s[a] == '#' {
        header_step(s, a + 1, b, st)
    } else if s[a] == '[' {
        block_step(s, a, b, st)
    } else if st.cur is None {
        st
    } else if is_ref_line(s, a, b) {
        match hex_u32(s, a + 1, b) {
            Some(v) => if valid_char(v) {
                LffState { refs: st.refs.push(v as char), ..st }
            } else {
                st
            },
            None => st,
        }
    } else {
        match vertices_from(s, a, b) {
            Some(v) => if v.len() >= 2 {
                LffState {
                    vertices: st.vertices + v,
                    strokes: st.strokes.push(
                        (st.vertices.len() as usize, (st.vertices.len() + v.len()) as usize),
                    ),
                    ..st
                }
            } else {
                st
            },
            None => st,
        }
    }
}

/// The lines of `s[p..]` (split at `\n`, each trimmed) applied to `st`.
pub open spec fn parse_from(s: Seq<char>, p: int, st: LffState) -> LffState
    decreases s.len() - p,
{
    if p < 0 || p > s.len() {
        st
    } else {
        let e = find_from(s, p, s.len() as int, '\n');
        let t = trim(s, p, e);
        let st2 = step_line(s, t.0, t.1, st);
        if p <= e < s.len() {
            parse_from(s, e + 1, st2)
        } else {
            st2
        }
    }
}

pub open spec fn initial_state() -> LffState {
    LffState {
        name: None,
        letter_spacing: None,
        word_spacing: None,
        line_spacing: None,
        vertices: Seq::empty(),
        strokes: Seq::empty(),
        refs: Seq::empty(),
        blocks: Seq::empty(),
        cur: None,
        stroke_start: 0,
        ref_start: 0,
    }
}

/// The parse of a whole file.
pub open spec fn spec_parse_lff(s: Seq<char>) -> LffState {
    flush(parse_from(s, 0, initial_state()))
}

impl LffFile {
    /// The parse result as a parser state with no block open.
    pub open spec fn state(&self) -> LffState {
        LffState {
            name: self.name,
            letter_spacing: self.letter_spacing,
            word_spacing: self.word_spacing,
            line_spacing: self.line_spacing,
            vertices: self.vertices@,
            strokes: self.strokes@,
            refs: self.refs@,
            blocks: self.blocks@,
            cur: None,
            stroke_start: self.strokes@.len() as int,
            ref_start: self.refs@.len() as int,
        }
    }
}

struct Parser {
    name: Option<Span>,
    letter_spacing: Option<Span>,
    word_spacing: Option<Span>,
    line_spacing: Option<Span>,
    vertices: Vec<LffVertex>,
    strokes: Vec<Span>,
    refs: Vec<char>,
    blocks: Vec<LffBlock>,
    cur: Option<BlockKey>,
    stroke_start: usize,
    ref_start: usize,
}

impl Parser {
    spec fn state(&self) -> LffState {
        LffState {
            name: self.name,
            letter_spacing: self.letter_spacing,
            word_spacing: self.word_spacing,
            line_spacing: self.line_spacing,
            vertices: self.vertices@,
            strokes: self.strokes@,
            refs: self.refs@,
            blocks: self.blocks@,
            cur: self.cur,
            stroke_start: self.stroke_start as int,
            ref_start: self.ref_start as int,
        }
    }

    spec fn inv(&self) -> bool {
        &&& self.stroke_start <= self.strokes@.len()
        &&& self.ref_start <= self.refs@.len()
    }

    fn flush(&mut self)
        requires
            old(self).inv(),
        ensures
            final(self).inv(),
            final(self).state() == flush(old(self).state()),
    {
        match self.cur {
            Some(k) => {
                self.blocks.push(
                    LffBlock {
                        key: k,
                        strokes: (self.stroke_start, self.strokes.len()),
                        refs: (self.ref_start, self.refs.len()),
                    },
                );
            },
            None => {},
        }
        self.cur = None;
        self.stroke_start = self.strokes.len();
        self.ref_start = self.refs.len();
    }

    fn header(&mut self, s: &Vec<char>, a: usize, b: usize)
        requires
            a <= b <= s@.len(),
        ensures
            final(self).state() == header_step(s@, a as int, b as int, old(self).state()),
            final(self).stroke_start == old(self).stroke_start,
            final(self).ref_start == old(self).ref_start,
            final(self).strokes@ == old(self).strokes@,
            final(self).refs@ == old(self).refs@,
    {
        let r = trim_span(s, a, b);
        let name = vec!['N', 'a', 'm', 'e', ':'];
        let letter = vec!['L', 'e', 't', 't', 'e', 'r', 'S', 'p', 'a', 'c', 'i', 'n', 'g', ':'];
        let word = vec!['W', 'o', 'r', 'd', 'S', 'p', 'a', 'c', 'i', 'n', 'g', ':'];
        let line = vec![
            'L', 'i', 'n', 'e', 'S', 'p', 'a', 'c', 'i', 'n', 'g', 'F', 'a', 'c', 't', 'o', 'r', ':',
        ];
        assert(name@ =~= name_key());
        assert(letter@ =~= letter_key());
        assert(word@ =~= word_key());
        assert(line@ =~= line_key());
        if starts_with(s, r.0, r.1, &name) {
            self.name = Some(trim_span(s, r.0 + 5, r.1));
        } else if starts_with(s, r.0, r.1, &letter) {
            let v = trim_span(s, r.0 + 14, r.1);
            if float_lit(s, v.0, v.1) {
                self.letter_spacing = Some(v);
            }
        } else if starts_with(s, r.0, r.1, &word) {
            let v = trim_span(s, r.0 + 12, r.1);
            if float_lit(s, v.0, v.1) {
                self.word_spacing = Some(v);
            }
        } else if starts_with(s, r.0, r.1, &line) {
            let v = trim_span(s, r.0 + 18, r.1);
            if float_lit(s, v.0, v.1) {
                self.line_spacing = Some(v);
            }
        }
    }

    fn block(&mut self, s: &Vec<char>, a: usize, b: usize)
        requires
            old(self).inv(),
            a < b <= s@.len(),
            s@[a as int] == '[',
        ensures
            final(self).inv(),
            final(self).state() == block_step(s@, a as int, b as int, old(self).state()),
    {
        self.flush();
        let end = find_char(s, a, b, ']');
        proof {
            lemma_find_from(s@, a as int, b as int, ']');
        }
        if end == b {
            return;
        }
        let hex = trim_span(s, a + 1, end);
        let label = trim_span(s, end + 1, b);
        if label.1 - label.0 > 1 {
            self.cur = Some(BlockKey::Shape(label));
        } else {
            match hex_u32_of(s, hex.0, hex.1) {
                Some(v) => {
                    match core::char::from_u32(v) {
                        Some(c) => {
                            self.cur = Some(BlockKey::Glyph(c));
                        },
                        None => {},
                    }
                },
                None => {},
            }
        }
    }

    fn line(&mut self, s: &Vec<char>, a: usize, b: usize)
        requires
            old(self).inv(),
            a <= b <= s@.len(),
        ensures
            final(self).inv(),
            final(self).state() == step_line(s@, a as int, b as int, old(self).state()),
    {
        reveal(step_line);
        if a >= b {
            return;
        }
        if s[a] == '#' {
            self.header(s, a + 1, b);
            return;
        }
        if s[a] == '[' {
            self.block(s, a, b);
            return;
        }
        if self.cur.is_none() {
            return;
        }
        if b - a > 1 && (s[a] == 'C' || s[a] == 'c') {
            let mut k = a + 1;
            while k < b && is_hex_char(s[k])
                invariant
                    a + 1 <= k <= b <= s@.len(),
                    forall|j: int| a + 1 <= j < k ==> is_hex_digit(s@[j]),
                decreases b - k,
            {
                k = k + 1;
            }
            if k == b {
                match hex_u32_of(s, a + 1, b) {
                    Some(v) => {
                        match core::char::from_u32(v) {
                            Some(c) => {
                                self.refs.push(c);
                            },
                            None => {},
                        }
                    },
                    None => {},
                }
                return;
            }
            assert(!is_hex_digit(s@[k as int]));
        }
        let n0 = self.vertices.len();
        if stroke_vertices(s, a, b, &mut self.vertices) {
            let n1 = self.vertices.len();
            if n1 - n0 >= 2 {
                self.strokes.push((n0, n1));
            } else {
                self.vertices.truncate(n0);
                assert(self.vertices@ =~= old(self).vertices@);
            }
        }
    }
}

fn is_hex_char(c: char) -> (b: bool)
    ensures
        b == is_hex_digit(c),
{
    ('0' <= c && c <= '9') || ('a' <= c && c <= 'f') || ('A' <= c && c <= 'F')
}

/// Parses a font file.
pub fn parse_lff(src: &str) -> (f: LffFile)
    requires
        src@.len() <= usize::MAX / 8,
    ensures
        f.text@ == src@,
        f.state() == spec_parse_lff(src@),
        state_wf(f.state(), src@.len() as int),
{
    let s = str_chars(src);
    let n = s.len();
    let mut p = Parser {
        name: None,
        letter_spacing: None,
        word_spacing: None,
        line_spacing: None,
        vertices: Vec::new(),
        strokes: Vec::new(),
        refs: Vec::new(),
        blocks: Vec::new(),
        cur: None,
        stroke_start: 0,
        ref_start: 0,
    };
    assert(p.state() =~= initial_state());
    let mut pos: usize = 0;
    loop
        invariant_except_break
            parse_from(s@, pos as int, p.state()) == parse_from(s@, 0, initial_state()),
            total(p.state()) <= pos + 1,
        invariant
            n == s@.len(),
            n <= usize::MAX / 8,
            pos <= n,
            p.inv(),
            state_wf(p.state(), n as int),
            total(p.state()) <= n + 2,
        ensures
            p.state() == parse_from(s@, 0, initial_state()),
        decreases n - pos,
    {
        let e = find_char(&s, pos, n, '\n');
        let t = trim_span(&s, pos, e);
        proof {
            lemma_step_wf(s@, t.0 as int, t.1 as int, p.state());
            lemma_step_total(s@, t.0 as int, t.1 as int, p.state());
        }
        p.line(&s, t.0, t.1);
        if e >= n {
            break;
        }
        pos = e + 1;
    }
    proof {
        lemma_flush_wf(p.state(), n as int);
    }
    p.flush();
    LffFile {
        text: s,
        name: p.name,
        letter_spacing: p.letter_spacing,
        word_spacing: p.word_spacing,
        line_spacing: p.line_spacing,
        vertices: p.vertices,
        strokes: p.strokes,
        refs: p.refs,
        blocks: p.blocks,
    }
}

// ── glyph table and included glyphs ────────────────────────────────────

/// A glyph: its character, its strokes (indices into `LffFile::strokes`) and
/// the glyphs it still includes.
pub struct GlyphEntry {
    pub ch: char,
    pub strokes: Vec<usize>,
    pub refs: Vec<char>,
}

pub struct GlyphView {
    pub ch: char,
    pub strokes: Seq<usize>,
    pub refs: Seq<char>,
}

pub open spec fn gview(e: GlyphEntry) -> GlyphView {
    GlyphView { ch: e.ch, strokes: e.strokes@, refs: e.refs@ }
}

pub open spec fn table_view(t: Seq<GlyphEntry>) -> Seq<GlyphView> {
    t.map_values(|e: GlyphEntry| gview(e))
}

/// Position of the glyph of `c`, or -1.
pub open spec fn find_glyph(t: Seq<GlyphView>, c: char) -> int
    decreases t.len(),
{
    if t.len() == 0 {
        -1
    } else if t.last().ch == c {
        t.len() - 1
    } else {
        find_glyph(t.drop_last(), c)
    }
}

/// Characters of the table are distinct.
pub open spec fn unique_chars(t: Seq<GlyphView>) -> bool {
    forall|i: int, j: int| 0 <= i < t.len() && 0 <= j < t.len() && t[i].ch == t[j].ch ==> i == j
}

proof fn lemma_find_glyph(t: Seq<GlyphView>, c: char)
    ensures
        -1 <= find_glyph(t, c) < t.len(),
        find_glyph(t, c) >= 0 ==> t[find_glyph(t, c)].ch == c,
        find_glyph(t, c) < 0 ==> forall|i: int| 0 <= i < t.len() ==> t[i].ch != c,
    decreases t.len(),
{
    if t.len() > 0 && t.last().ch != c {
        lemma_find_glyph(t.drop_last(), c);
        assert forall|i: int| 0 <= i < t.len() - 1 implies t[i] == t.drop_last()[i] by {}
    }
}

proof fn lemma_find_glyph_at(t: Seq<GlyphView>, i: int)
    requires
        unique_chars(t),
        0 <= i < t.len(),
    ensures
        find_glyph(t, t[i].ch) == i,
{
    lemma_find_glyph(t, t[i].ch);
}

/// Glyph `r` can be included now: it exists and includes nothing itself.
pub open spec fn includable(t: Seq<GlyphView>, r: char) -> bool {
    let j = find_glyph(t, r);
    j >= 0 && t[j].refs.len() == 0
}

/// Strokes the references `refs` bring in.
pub open spec fn added(t: Seq<GlyphView>, refs: Seq<char>) -> Seq<usize>
    decreases refs.len(),
{
    if refs.len() == 0 {
        Seq::empty()
    } else {
        let rest = added(t, refs.drop_last());
        if includable(t, refs.last()) {
            rest + t[find_glyph(t, refs.last())].strokes
        } else {
            rest
        }
    }
}

/// References that cannot be included yet.
pub open spec fn remaining(t: Seq<GlyphView>, refs: Seq<char>) -> Seq<char>
    decreases refs.len(),
{
    if refs.len() == 0 {
        Seq::empty()
    } else {
        let rest = remaining(t, refs.drop_last());
        if includable(t, refs.last()) {
            rest
        } else {
            rest.push(refs.last())
        }
    }
}

/// Resolves the references of glyph `k` against the table as it is.
pub open spec fn resolve_at(t: Seq<GlyphView>, k: int) -> Seq<GlyphView> {
    if t[k].refs.len() == 0 {
        t
    } else {
        t.update(
            k,
            GlyphView {
                ch: t[k].ch,
                strokes: t[k].strokes + added(t, t[k].refs),
                refs: remaining(t, t[k].refs),
            },
        )
    }
}

/// One pass: the glyphs at `order[i..]` resolved one after another.
pub open spec fn run_pass(t: Seq<GlyphView>, order: Seq<usize>, i: int) -> Seq<GlyphView>
    decreases order.len() - i,
{
    if i < 0 || i >= order.len() {
        t
    } else {
        run_pass(resolve_at(t, order[i] as int), order, i + 1)
    }
}

pub open spec fn has_refs(t: Seq<GlyphView>) -> bool {
    exists|k: int| 0 <= k < t.len() && t[k].refs.len() > 0
}

/// Number of passes made over the table.
pub const RESOLVE_PASSES: usize = 4;

/// Up to `passes` passes, stopping once no glyph includes anything.
pub open spec fn resolve_all(t: Seq<GlyphView>, order: Seq<usize>, passes: nat) -> Seq<GlyphView>
    decreases passes,
{
    if passes == 0 || !has_refs(t) {
        t
    } else {
        resolve_all(run_pass(t, order, 0), order, (passes - 1) as nat)
    }
}

/// `order` lists every table position exactly once.
pub open spec fn is_order(order: Seq<usize>, n: nat) -> bool {
    &&& order.len() == n
    &&& order.no_duplicates()
    &&& forall|i: int| 0 <= i < order.len() ==> order[i] < n
}

proof fn lemma_resolve_at_shape(t: Seq<GlyphView>, k: int)
    requires
        0 <= k < t.len(),
    ensures
        resolve_at(t, k).len() == t.len(),
        forall|i: int| 0 <= i < t.len() ==> #[trigger] resolve_at(t, k)[i].ch == t[i].ch,
{
}

proof fn lemma_run_pass_shape(t: Seq<GlyphView>, order: Seq<usize>, i: int)
    requires
        forall|j: int| 0 <= j < order.len() ==> order[j] < t.len(),
    ensures
        run_pass(t, order, i).len() == t.len(),
        forall|x: int| 0 <= x < t.len() ==> #[trigger] run_pass(t, order, i)[x].ch == t[x].ch,
    decreases order.len() - i,
{
    if 0 <= i < order.len() {
        lemma_resolve_at_shape(t, order[i] as int);
        let t2 = resolve_at(t, order[i] as int);
        lemma_run_pass_shape(t2, order, i + 1);
    }
}

/// Resolves glyph `k` in place.
fn resolve_one(t: &mut Vec<GlyphEntry>, index: &GlyphIndex, k: usize) -> (had_refs: bool)
    requires
        k < old(t)@.len(),
        index_wf(*index, table_view(old(t)@)),
        unique_chars(table_view(old(t)@)),
    ensures
        table_view(final(t)@) == resolve_at(table_view(old(t)@), k as int),
        had_refs == (old(t)@[k as int].refs@.len() > 0),
{
    let ghost tv = table_view(t@);
    let nrefs = t[k].refs.len();
    if nrefs == 0 {
        return false;
    }
    let mut add: Vec<usize> = Vec::new();
    let mut rem: Vec<char> = Vec::new();
    let mut j: usize = 0;
    while j < nrefs
        invariant
            tv == table_view(t@),
            k < t@.len(),
            nrefs == t@[k as int].refs@.len(),
            j <= nrefs,
            index_wf(*index, tv),
            unique_chars(tv),
            add@ == added(tv, tv[k as int].refs.take(j as int)),
            rem@ == remaining(tv, tv[k as int].refs.take(j as int)),
        decreases nrefs - j,
    {
        let r = t[k].refs[j];
        let ghost refs = tv[k as int].refs;
        proof {
            assert(refs.take(j + 1).drop_last() =~= refs.take(j as int));
            assert(refs.take(j + 1).last() == r);
        }
        match glyph_index_get(index, r as u32) {
            Some(g) => {
                proof {
                    lemma_index_find(*index, tv, r);
                }
                if t[g].refs.len() == 0 {
                    let ns = t[g].strokes.len();
                    let ghost add0 = add@;
                    let mut q: usize = 0;
                    while q < ns
                        invariant
                            tv == table_view(t@),
                            g < t@.len(),
                            ns == t@[g as int].strokes@.len(),
                            q <= ns,
                            add@ == add0 + tv[g as int].strokes.take(q as int),
                        decreases ns - q,
                    {
                        add.push(t[g].strokes[q]);
                        q = q + 1;
                        assert(add@ =~= add0 + tv[g as int].strokes.take(q as int));
                    }
                    assert(tv[g as int].strokes.take(ns as int) =~= tv[g as int].strokes);
                } else {
                    rem.push(r);
                }
            },
            None => {
                proof {
                    lemma_index_find(*index, tv, r);
                }
                rem.push(r);
            },
        }
        j = j + 1;
    }
    proof {
        assert(tv[k as int].refs.take(nrefs as int) =~= tv[k as int].refs);
    }
    let ghost t0 = t@;
    let mut q: usize = 0;
    let na = add.len();
    while q < na
        invariant
            k < t@.len(),
            t@.len() == t0.len(),
            na == add@.len(),
            q <= na,
            forall|i: int| 0 <= i < t0.len() && i != k ==> #[trigger] t@[i] == t0[i],
            t@[k as int].ch == t0[k as int].ch,
            t@[k as int].refs@ == t0[k as int].refs@,
            t@[k as int].strokes@ == t0[k as int].strokes@ + add@.take(q as int),
        decreases na - q,
    {
        t[k].strokes.push(add[q]);
        q = q + 1;
        assert(t@[k as int].strokes@ =~= t0[k as int].strokes@ + add@.take(q as int));
    }
    t[k].refs = rem;
    proof {
        assert(add@.take(na as int) =~= add@);
        assert(table_view(t@) =~= resolve_at(tv, k as int));
    }
    true
}

// ── outside collection: the glyph index ────────────────────────────────

/// `rustc_hash::FxHashMap` from a code point to a table position.
pub type GlyphIndex = HashMap<u32, usize, FxBuildHasher>;

/// What the glyph index holds.
pub uninterp spec fn glyph_index_entries(m: GlyphIndex) -> Map<u32, usize>;

/// `FxHashMap::default()`: no entries.
#[verifier::external_body]
fn glyph_index_new() -> (m: GlyphIndex)
    ensures
        glyph_index_entries(m).dom() == Set::<u32>::empty(),
{
    HashMap::default()
}

/// `HashMap::insert`: maps `k` to `v`, replacing any previous value.
#[verifier::external_body]
fn glyph_index_insert(m: &mut GlyphIndex, k: u32, v: usize)
    ensures
        glyph_index_entries(*final(m)) == glyph_index_entries(*old(m)).insert(k, v),
{
    m.insert(k, v);
}

/// `HashMap::get`: the value stored for `k`.
#[verifier::external_body]
fn glyph_index_get(m: &GlyphIndex, k: u32) -> (r: Option<usize>)
    ensures
        r == (if glyph_index_entries(*m).contains_key(k) {
            Some(glyph_index_entries(*m)[k])
        } else {
            None
        }),
{
    m.get(&k).copied()
}

/// `HashMap::keys`: every key once, in the map's own iteration order, which
/// depends on the hash function and on the order of insertion; no contract
/// fixes that order.
#[verifier::external_body]
fn glyph_index_keys(m: &GlyphIndex) -> (r: Vec<u32>)
    ensures
        r@.no_duplicates(),
        r@.to_set() == glyph_index_entries(*m).dom(),
{
    m.keys().copied().collect()
}

/// The index maps exactly the table's characters to their positions.
pub open spec fn index_wf(m: GlyphIndex, t: Seq<GlyphView>) -> bool {
    let e = glyph_index_entries(m);
    &&& e.dom().finite()
    &&& forall|i: int| 0 <= i < t.len() ==> #[trigger] e.contains_key(t[i].ch as u32) && e[t[i].ch as u32] == i
    &&& forall|k: u32| #[trigger] e.contains_key(k) ==> e[k] < t.len() && t[e[k] as int].ch as u32 == k
}

proof fn lemma_index_find(m: GlyphIndex, t: Seq<GlyphView>, c: char)
    requires
        index_wf(m, t),
        unique_chars(t),
    ensures
        glyph_index_entries(m).contains_key(c as u32) ==> find_glyph(t, c) == glyph_index_entries(m)[c as u32],
        !glyph_index_entries(m).contains_key(c as u32) ==> find_glyph(t, c) == -1,
{
    lemma_find_glyph(t, c);
    let e = glyph_index_entries(m);
    if e.contains_key(c as u32) {
        let i = e[c as u32] as int;
        assert(t[i].ch as u32 == c as u32);
        assert(t[i].ch == c);
        lemma_find_glyph_at(t, i);
    } else {
        if find_glyph(t, c) >= 0 {
            let i = find_glyph(t, c);
            assert(e.contains_key(t[i].ch as u32));
        }
    }
}

proof fn lemma_index_wf_keep(m: GlyphIndex, t: Seq<GlyphView>, u: Seq<GlyphView>)
    requires
        index_wf(m, t),
        unique_chars(t),
        u.len() == t.len(),
        forall|x: int| 0 <= x < t.len() ==> #[trigger] u[x].ch == t[x].ch,
    ensures
        index_wf(m, u),
        unique_chars(u),
{
    assert forall|i: int, j: int| 0 <= i < u.len() && 0 <= j < u.len() && u[i].ch == u[j].ch implies i == j by {
        assert(t[i].ch == u[i].ch && t[j].ch == u[j].ch);
    }
    let e = glyph_index_entries(m);
    assert forall|i: int| 0 <= i < u.len() implies #[trigger] e.contains_key(u[i].ch as u32) && e[u[i].ch as u32] == i by {
        assert(t[i].ch == u[i].ch);
    }
    assert forall|k: u32| #[trigger] e.contains_key(k) implies e[k] < u.len() && u[e[k] as int].ch as u32 == k by {
        assert(t[e[k] as int].ch == u[e[k] as int].ch);
    }
}

fn any_refs(t: &Vec<GlyphEntry>) -> (b: bool)
    ensures
        b == has_refs(table_view(t@)),
{
    let mut i: usize = 0;
    while i < t.len()
        invariant
            i <= t@.len(),
            forall|k: int| 0 <= k < i ==> t@[k].refs@.len() == 0,
        decreases t@.len() - i,
    {
        if t[i].refs.len() > 0 {
            assert(table_view(t@)[i as int].refs.len() > 0);
            return true;
        }
        i = i + 1;
    }
    assert forall|k: int| 0 <= k < table_view(t@).len() implies table_view(t@)[k].refs.len() == 0 by {
        assert(t@[k].refs@.len() == 0);
    }
    false
}

/// Resolves included glyphs: up to `RESOLVE_PASSES` passes over the table in
/// the walk order `order`, each folding into a glyph the strokes of the glyphs it
/// includes that include nothing themselves.
pub fn resolve_refs(t: &mut Vec<GlyphEntry>, index: &GlyphIndex, order: &Vec<usize>)
    requires
        index_wf(*index, table_view(old(t)@)),
        unique_chars(table_view(old(t)@)),
        is_order(order@, old(t)@.len()),
    ensures
        table_view(final(t)@) == resolve_all(table_view(old(t)@), order@, RESOLVE_PASSES as nat),
{
    let ghost tv0 = table_view(t@);
    let ghost n = t@.len();
    let mut pass: usize = 0;
    while pass < RESOLVE_PASSES
        invariant_except_break
            resolve_all(table_view(t@), order@, (RESOLVE_PASSES - pass) as nat) == resolve_all(
                tv0,
                order@,
                RESOLVE_PASSES as nat,
            ),
        invariant
            pass <= RESOLVE_PASSES,
            t@.len() == n,
            index_wf(*index, table_view(t@)),
            unique_chars(table_view(t@)),
            is_order(order@, n),
        ensures
            table_view(t@) == resolve_all(tv0, order@, RESOLVE_PASSES as nat),
        decreases RESOLVE_PASSES - pass,
    {
        if !any_refs(t) {
            break;
        }
        let ghost start = table_view(t@);
        let mut i: usize = 0;
        while i < order.len()
            invariant
                i <= order@.len(),
                t@.len() == n,
                is_order(order@, n),
                index_wf(*index, table_view(t@)),
                unique_chars(table_view(t@)),
                run_pass(table_view(t@), order@, i as int) == run_pass(start, order@, 0),
            decreases order@.len() - i,
        {
            let ghost before = table_view(t@);
            let _ = resolve_one(t, index, order[i]);
            proof {
                lemma_resolve_at_shape(before, order@[i as int] as int);
                lemma_index_wf_keep(*index, before, table_view(t@));
            }
            i = i + 1;
        }
        pass = pass + 1;
    }
}

// ── well-formed parse results ──────────────────────────────────────────

pub open spec fn span_in(sp: Span, n: int) -> bool {
    sp.0 <= sp.1 <= n
}

pub open spec fn vertex_in(v: LffVertex, n: int) -> bool {
    &&& span_in(v.x, n)
    &&& span_in(v.y, n)
    &&& (v.bulge is Some ==> span_in(v.bulge->0, n))
}

/// Every range and span of a parser state lies inside what it indexes; `n` is
/// the length of the text.
pub open spec fn state_wf(st: LffState, n: int) -> bool {
    &&& 0 <= st.stroke_start <= st.strokes.len()
    &&& 0 <= st.ref_start <= st.refs.len()
    &&& st.strokes.len() <= usize::MAX
    &&& st.refs.len() <= usize::MAX
    &&& st.vertices.len() <= usize::MAX
    &&& forall|i: int|
        0 <= i < st.blocks.len() ==> {
            let b = #[trigger] st.blocks[i];
            &&& span_in(b.strokes, st.strokes.len() as int)
            &&& span_in(b.refs, st.refs.len() as int)
            &&& (b.key is Shape ==> span_in(b.key->Shape_0, n))
        }
    &&& forall|i: int| 0 <= i < st.strokes.len() ==> span_in(#[trigger] st.strokes[i], st.vertices.len() as int)
    &&& forall|i: int| 0 <= i < st.vertices.len() ==> vertex_in(#[trigger] st.vertices[i], n)
    &&& (st.cur is Some && st.cur->0 is Shape ==> span_in(st.cur->0->Shape_0, n))
}

proof fn lemma_trim_in(s: Seq<char>, lo: int, hi: int)
    requires
        lo <= hi,
    ensures
        lo <= trim(s, lo, hi).0 <= trim(s, lo, hi).1 <= hi,
{
    lemma_skip_ws(s, lo, hi);
    lemma_drop_ws(s, skip_ws(s, lo, hi), hi);
}

proof fn lemma_token_in(s: Seq<char>, lo: int, e: int)
    requires
        0 <= lo <= e <= s.len(),
        s.len() <= usize::MAX,
    ensures
        token_of(s, lo, e) matches Token::Vertex(v) ==> vertex_in(v, s.len() as int),
{
    lemma_trim_in(s, lo, e);
    lemma_find_from(s, lo, e, ',');
    let c1 = find_from(s, lo, e, ',');
    if c1 < e {
        lemma_find_from(s, c1 + 1, e, ',');
        let c2 = find_from(s, c1 + 1, e, ',');
        lemma_trim_in(s, lo, c1);
        lemma_trim_in(s, c1 + 1, c2);
        if c2 < e {
            lemma_find_from(s, c2 + 1, e, ',');
            let c3 = find_from(s, c2 + 1, e, ',');
            lemma_trim_in(s, c2 + 1, c3);
        }
    }
}

proof fn lemma_vertices_in(s: Seq<char>, lo: int, hi: int)
    requires
        0 <= lo,
        hi <= s.len(),
        s.len() <= usize::MAX,
    ensures
        vertices_from(s, lo, hi) is Some ==> forall|i: int|
            0 <= i < vertices_from(s, lo, hi)->0.len() ==> vertex_in(
                #[trigger] vertices_from(s, lo, hi)->0[i],
                s.len() as int,
            ),
    decreases hi - lo,
{
    if lo <= hi {
        lemma_find_from(s, lo, hi, ';');
        let e = find_from(s, lo, hi, ';');
        if e < hi {
            lemma_vertices_in(s, e + 1, hi);
        }
        lemma_token_in(s, lo, e);
        let rest = if lo <= e < hi {
            vertices_from(s, e + 1, hi)
        } else {
            Some(Seq::<LffVertex>::empty())
        };
        if let Token::Vertex(v) = token_of(s, lo, e) {
            if rest is Some {
                let all = seq![v] + rest->0;
                assert forall|i: int| 0 <= i < all.len() implies vertex_in(#[trigger] all[i], s.len() as int) by {
                    if i > 0 {
                        assert(all[i] == rest->0[i - 1]);
                    }
                }
            }
        }
    }
}

proof fn lemma_flush_wf(st: LffState, n: int)
    requires
        state_wf(st, n),
        st.blocks.len() < usize::MAX,
    ensures
        state_wf(flush(st), n),
{
    let f = flush(st);
    assert forall|i: int| 0 <= i < f.blocks.len() implies {
        let b = #[trigger] f.blocks[i];
        &&& span_in(b.strokes, f.strokes.len() as int)
        &&& span_in(b.refs, f.refs.len() as int)
        &&& (b.key is Shape ==> span_in(b.key->Shape_0, n))
    } by {
        if i < st.blocks.len() {
            assert(f.blocks[i] == st.blocks[i]);
        }
    }
}

proof fn lemma_header_wf(s: Seq<char>, a: int, b: int, st: LffState)
    requires
        state_wf(st, s.len() as int),
        0 <= a <= b <= s.len(),
        s.len() <= usize::MAX,
    ensures
        state_wf(header_step(s, a, b, st), s.len() as int),
{
    let r = trim(s, a, b);
    lemma_trim_in(s, a, b);
    if has_prefix(s, r.0, r.1, name_key()) {
        lemma_trim_in(s, r.0 + 5, r.1);
    } else if has_prefix(s, r.0, r.1, letter_key()) {
        lemma_trim_in(s, r.0 + 14, r.1);
    } else if has_prefix(s, r.0, r.1, word_key()) {
        lemma_trim_in(s, r.0 + 12, r.1);
    } else if has_prefix(s, r.0, r.1, line_key()) {
        lemma_trim_in(s, r.0 + 18, r.1);
    }
}

proof fn lemma_block_wf(s: Seq<char>, a: int, b: int, st: LffState)
    requires
        state_wf(st, s.len() as int),
        0 <= a <= b <= s.len(),
        s.len() <= usize::MAX,
        st.blocks.len() < usize::MAX,
    ensures
        state_wf(block_step(s, a, b, st), s.len() as int),
{
    lemma_flush_wf(st, s.len() as int);
    lemma_find_from(s, a, b, ']');
    let end = find_from(s, a, b, ']');
    if end < b {
        lemma_trim_in(s, end + 1, b);
    }
}

proof fn lemma_stroke_wf(s: Seq<char>, a: int, b: int, st: LffState)
    requires
        state_wf(st, s.len() as int),
        0 <= a <= b <= s.len(),
        s.len() <= usize::MAX,
        st.strokes.len() < usize::MAX,
        st.vertices.len() + s.len() <= usize::MAX,
        vertices_from(s, a, b) is Some,
    ensures
        ({
            let v = vertices_from(s, a, b)->0;
            let st2 = LffState {
                vertices: st.vertices + v,
                strokes: st.strokes.push(
                    (st.vertices.len() as usize, (st.vertices.len() + v.len()) as usize),
                ),
                ..st
            };
            state_wf(st2, s.len() as int)
        }),
{
    let n = s.len() as int;
    let v = vertices_from(s, a, b)->0;
    lemma_vertices_in(s, a, b);
    lemma_vertices_len(s, a, b);
    let st2 = LffState {
        vertices: st.vertices + v,
        strokes: st.strokes.push((st.vertices.len() as usize, (st.vertices.len() + v.len()) as usize)),
        ..st
    };
    assert forall|i: int| 0 <= i < st2.vertices.len() implies vertex_in(#[trigger] st2.vertices[i], n) by {
        if i < st.vertices.len() {
            assert(st2.vertices[i] == st.vertices[i]);
        } else {
            assert(st2.vertices[i] == v[i - st.vertices.len()]);
        }
    }
    assert forall|i: int| 0 <= i < st2.strokes.len() implies span_in(#[trigger] st2.strokes[i], st2.vertices.len() as int) by {
        if i < st.strokes.len() {
            assert(st2.strokes[i] == st.strokes[i]);
        }
    }
    assert forall|i: int| 0 <= i < st2.blocks.len() implies {
        let bb = #[trigger] st2.blocks[i];
        &&& span_in(bb.strokes, st2.strokes.len() as int)
        &&& span_in(bb.refs, st2.refs.len() as int)
        &&& (bb.key is Shape ==> span_in(bb.key->Shape_0, n))
    } by {
        assert(st2.blocks[i] == st.blocks[i]);
    }
}

proof fn lemma_step_wf(s: Seq<char>, a: int, b: int, st: LffState)
    requires
        state_wf(st, s.len() as int),
        0 <= a <= b <= s.len(),
        s.len() <= usize::MAX,
        st.blocks.len() < usize::MAX,
        st.strokes.len() < usize::MAX,
        st.refs.len() < usize::MAX,
        st.vertices.len() + s.len() <= usize::MAX,
    ensures
        state_wf(step_line(s, a, b, st), s.len() as int),
{
    reveal(step_line);
    if a >= b {
    } else if s[a] == '#' {
        lemma_header_wf(s, a + 1, b, st);
    } else if s[a] == '[' {
        lemma_block_wf(s, a, b, st);
    } else if st.cur is None {
    } else if is_ref_line(s, a, b) {
    } else if vertices_from(s, a, b) is Some {
        lemma_stroke_wf(s, a, b, st);
    }
}

/// A stroke line has no more vertices than characters.
proof fn lemma_vertices_len(s: Seq<char>, lo: int, hi: int)
    requires
        0 <= lo,
        hi <= s.len(),
    ensures
        vertices_from(s, lo, hi) is Some ==> vertices_from(s, lo, hi)->0.len() <= if hi >= lo {
            hi - lo
        } else {
            0
        },
    decreases hi - lo,
{
    if lo <= hi {
        lemma_find_from(s, lo, hi, ';');
        let e = find_from(s, lo, hi, ';');
        if e < hi {
            lemma_vertices_len(s, e + 1, hi);
        }
        lemma_find_from(s, lo, e, ',');
    }
}

/// Number of items a parser state holds.
pub open spec fn total(st: LffState) -> int {
    (st.blocks.len() + st.strokes.len() + st.refs.len() + st.vertices.len()) as int
}

/// A line of `b - a` characters adds at most `b - a + 1` items.
proof fn lemma_step_total(s: Seq<char>, a: int, b: int, st: LffState)
    requires
        0 <= a <= b <= s.len(),
    ensures
        total(step_line(s, a, b, st)) <= total(st) + (b - a) + 1,
        step_line(s, a, b, st).blocks.len() >= st.blocks.len(),
{
    reveal(step_line);
    if a >= b {
    } else if s[a] == '#' {
    } else if s[a] == '[' {
    } else if st.cur is None {
    } else if is_ref_line(s, a, b) {
    } else if vertices_from(s, a, b) is Some {
        lemma_vertices_len(s, a, b);
    }
}

// ── fonts ──────────────────────────────────────────────────────────────

/// A named shape: its label in ASCII upper case and its strokes.
pub struct ShapeEntry {
    pub name: Vec<char>,
    pub strokes: Vec<usize>,
}

pub struct ShapeView {
    pub name: Seq<char>,
    pub strokes: Seq<usize>,
}

pub open spec fn sview(e: ShapeEntry) -> ShapeView {
    ShapeView { name: e.name@, strokes: e.strokes@ }
}

pub open spec fn shapes_view(t: Seq<ShapeEntry>) -> Seq<ShapeView> {
    t.map_values(|e: ShapeEntry| sview(e))
}

pub open spec fn upper_seq(s: Seq<char>) -> Seq<char> {
    s.map_values(|c: char| upper(c))
}

/// The strokes `b` holds, as indices into the stroke list.
pub open spec fn block_strokes(b: LffBlock) -> Seq<usize> {
    Seq::new((b.strokes.1 - b.strokes.0) as nat, |i: int| (b.strokes.0 + i) as usize)
}

/// Glyph table of the blocks: one glyph per character, a later block replacing
/// an earlier one in place.
pub open spec fn build_table(blocks: Seq<LffBlock>, refs: Seq<char>) -> Seq<GlyphView>
    decreases blocks.len(),
{
    if blocks.len() == 0 {
        Seq::empty()
    } else {
        let t = build_table(blocks.drop_last(), refs);
        let b = blocks.last();
        match b.key {
            BlockKey::Glyph(c) => {
                let g = GlyphView {
                    ch: c,
                    strokes: block_strokes(b),
                    refs: refs.subrange(b.refs.0 as int, b.refs.1 as int),
                };
                let i = find_glyph(t, c);
                if i >= 0 {
                    t.update(i, g)
                } else {
                    t.push(g)
                }
            },
            BlockKey::Shape(_) => t,
        }
    }
}

/// Position of the shape named `name`, or -1.
pub open spec fn find_shape(t: Seq<ShapeView>, name: Seq<char>) -> int
    decreases t.len(),
{
    if t.len() == 0 {
        -1
    } else if t.last().name == name {
        t.len() - 1
    } else {
        find_shape(t.drop_last(), name)
    }
}

/// Shape table of the blocks: one shape per upper-cased label, a later block
/// replacing an earlier one in place. Shapes include no other glyphs.
pub open spec fn build_shapes(text: Seq<char>, blocks: Seq<LffBlock>) -> Seq<ShapeView>
    decreases blocks.len(),
{
    if blocks.len() == 0 {
        Seq::empty()
    } else {
        let t = build_shapes(text, blocks.drop_last());
        let b = blocks.last();
        match b.key {
            BlockKey::Shape(sp) => {
                let name = upper_seq(text.subrange(sp.0 as int, sp.1 as int));
                let g = ShapeView { name, strokes: block_strokes(b) };
                let i = find_shape(t, name);
                if i >= 0 {
                    t.update(i, g)
                } else {
                    t.push(g)
                }
            },
            BlockKey::Glyph(_) => t,
        }
    }
}

proof fn lemma_find_shape(t: Seq<ShapeView>, name: Seq<char>)
    ensures
        -1 <= find_shape(t, name) < t.len(),
        find_shape(t, name) >= 0 ==> t[find_shape(t, name)].name == name,
        find_shape(t, name) < 0 ==> forall|i: int| 0 <= i < t.len() ==> t[i].name != name,
    decreases t.len(),
{
    if t.len() > 0 && t.last().name != name {
        lemma_find_shape(t.drop_last(), name);
        assert forall|i: int| 0 <= i < t.len() - 1 implies t[i] == t.drop_last()[i] by {}
    }
}

/// A font with its glyph table resolved.
pub struct LffFont {
    pub file: LffFile,
    pub glyphs: Vec<GlyphEntry>,
    pub shapes: Vec<ShapeEntry>,
    /// Code point to position in `glyphs`.
    pub index: GlyphIndex,
}

fn same_chars(a: &Vec<char>, b: &Vec<char>) -> (r: bool)
    ensures
        r == (a@ == b@),
{
    if a.len() != b.len() {
        return false;
    }
    let mut i: usize = 0;
    while i < a.len()
        invariant
            a@.len() == b@.len(),
            i <= a@.len(),
            forall|k: int| 0 <= k < i ==> a@[k] == b@[k],
        decreases a@.len() - i,
    {
        if a[i] != b[i] {
            return false;
        }
        i = i + 1;
    }
    assert(a@ =~= b@);
    true
}

fn range_vec(lo: usize, hi: usize) -> (r: Vec<usize>)
    requires
        lo <= hi,
    ensures
        r@ == Seq::new((hi - lo) as nat, |i: int| (lo + i) as usize),
{
    let mut r: Vec<usize> = Vec::new();
    let mut k = lo;
    while k < hi
        invariant
            lo <= k <= hi,
            r@ == Seq::new((k - lo) as nat, |i: int| (lo + i) as usize),
        decreases hi - k,
    {
        r.push(k);
        k = k + 1;
        assert(r@ =~= Seq::new((k - lo) as nat, |i: int| (lo + i) as usize));
    }
    r
}

fn copy_refs(refs: &Vec<char>, lo: usize, hi: usize) -> (r: Vec<char>)
    requires
        lo <= hi <= refs@.len(),
    ensures
        r@ == refs@.subrange(lo as int, hi as int),
{
    let mut r: Vec<char> = Vec::new();
    let mut k = lo;
    while k < hi
        invariant
            lo <= k <= hi <= refs@.len(),
            r@ == refs@.subrange(lo as int, k as int),
        decreases hi - k,
    {
        r.push(refs[k]);
        k = k + 1;
        assert(r@ =~= refs@.subrange(lo as int, k as int));
    }
    r
}

/// Walk order of the glyph index, as table positions.
fn walk_order(index: &GlyphIndex, t: &Vec<GlyphEntry>) -> (order: Vec<usize>)
    requires
        index_wf(*index, table_view(t@)),
        unique_chars(table_view(t@)),
    ensures
        is_order(order@, t@.len()),
{
    let ghost tv = table_view(t@);
    let keys = glyph_index_keys(index);
    let ghost e = glyph_index_entries(*index);
    let mut order: Vec<usize> = Vec::new();
    let mut i: usize = 0;
    while i < keys.len()
        invariant
            i <= keys@.len(),
            keys@.no_duplicates(),
            keys@.to_set() == e.dom(),
            e == glyph_index_entries(*index),
            index_wf(*index, tv),
            tv.len() == t@.len(),
            order@.len() == i,
            forall|j: int| 0 <= j < i ==> order@[j] == e[keys@[j]] && order@[j] < tv.len(),
        decreases keys@.len() - i,
    {
        assert(keys@.to_set().contains(keys@[i as int]));
        match glyph_index_get(index, keys[i]) {
            Some(pos) => {
                order.push(pos);
            },
            None => {
                assert(false);
            },
        }
        i = i + 1;
    }
    proof {
        // distinct keys name distinct positions
        assert forall|a: int, b: int| 0 <= a < order@.len() && 0 <= b < order@.len() && a != b implies order@[a]
            != order@[b] by {
            assert(e.contains_key(keys@[a]) && e.contains_key(keys@[b]));
            assert(tv[e[keys@[a]] as int].ch as u32 == keys@[a]);
            assert(tv[e[keys@[b]] as int].ch as u32 == keys@[b]);
        }
        // every position is listed
        assert forall|x: usize| x < tv.len() implies #[trigger] order@.contains(x) by {
            let k = tv[x as int].ch as u32;
            assert(e.contains_key(k));
            assert(keys@.to_set().contains(k));
            let j = keys@.index_of(k);
            assert(order@[j] == x);
        }
        // a duplicate-free list of positions below n that holds each of them has length n
        let os = order@.to_set();
        let full = Set::new(|x: usize| x < tv.len());
        assert(os =~= full) by {
            assert forall|x: usize| full.contains(x) implies os.contains(x) by {
                assert(order@.contains(x));
            }
        }
        order@.unique_seq_to_set();
        let ints = vstd::set_lib::set_int_range(0, tv.len() as int);
        vstd::set_lib::lemma_int_range(0, tv.len() as int);
        assert(t@.len() == t.len());
        let f = |i: int| i as usize;
        assert(ints.map(f) =~= full) by {
            assert forall|x: usize| full.contains(x) implies ints.map(f).contains(x) by {
                assert(ints.contains(x as int) && f(x as int) == x);
            }
        }
        assert(vstd::relations::injective_on(f, ints));
        vstd::set_lib::lemma_map_size(ints, full, f);
    }
    order
}

/// Position of the shape named `name` in `t` (the last one with that name).
fn shape_pos(t: &Vec<ShapeEntry>, name: &Vec<char>) -> (r: Option<usize>)
    ensures
        r is Some <==> find_shape(shapes_view(t@), name@) >= 0,
        r is Some ==> r->0 == find_shape(shapes_view(t@), name@) && r->0 < t@.len(),
{
    let ghost tv = shapes_view(t@);
    let mut i = t.len();
    proof {
        assert(tv.take(i as int) =~= tv);
        lemma_find_shape(tv, name@);
    }
    while i > 0
        invariant
            i <= t@.len(),
            tv == shapes_view(t@),
            find_shape(tv, name@) == find_shape(tv.take(i as int), name@),
        decreases i,
    {
        assert(tv.take(i as int).drop_last() =~= tv.take(i - 1));
        assert(tv.take(i as int).last() == tv[i - 1]);
        if same_chars(&t[i - 1].name, name) {
            return Some(i - 1);
        }
        i = i - 1;
    }
    assert(tv.take(0) =~= Seq::<ShapeView>::empty());
    None
}

impl LffFont {
    /// The glyph index maps each table character to its position, and no
    /// character occurs twice.
    pub open spec fn wf(&self) -> bool {
        &&& index_wf(self.index, table_view(self.glyphs@))
        &&& unique_chars(table_view(self.glyphs@))
    }

    pub open spec fn glyph_table(&self) -> Seq<GlyphView> {
        table_view(self.glyphs@)
    }

    pub open spec fn shape_table(&self) -> Seq<ShapeView> {
        shapes_view(self.shapes@)
    }

    /// The glyph of `c`.
    pub fn glyph(&self, c: char) -> (r: Option<&GlyphEntry>)
        requires
            self.wf(),
        ensures
            r is Some <==> find_glyph(self.glyph_table(), c) >= 0,
            r is Some ==> gview(*r->0) == self.glyph_table()[find_glyph(self.glyph_table(), c)],
    {
        proof {
            lemma_index_find(self.index, table_view(self.glyphs@), c);
        }
        match glyph_index_get(&self.index, c as u32) {
            Some(i) => Some(&self.glyphs[i]),
            None => None,
        }
    }

    /// The shape labelled `name`, compared in ASCII upper case.
    pub fn shape(&self, name: &str) -> (r: Option<&ShapeEntry>)
        ensures
            r is Some <==> find_shape(self.shape_table(), upper_seq(name@)) >= 0,
            r is Some ==> sview(*r->0) == self.shape_table()[find_shape(
                self.shape_table(),
                upper_seq(name@),
            )],
    {
        let chars = str_chars(name);
        let key = upper_text(&chars, 0, chars.len());
        assert(chars@.subrange(0, chars@.len() as int) =~= chars@);
        match shape_pos(&self.shapes, &key) {
            Some(i) => Some(&self.shapes[i]),
            None => None,
        }
    }
}

/// Builds the glyph and shape tables of a parsed file, then resolves included
/// glyphs in the walk order of the glyph index.
pub fn build_font(file: LffFile) -> (font: LffFont)
    requires
        state_wf(file.state(), file.text@.len() as int),
    ensures
        font.wf(),
        font.file.text@ == file.text@,
        font.file.state() == file.state(),
        font.shape_table() == build_shapes(file.text@, file.blocks@),
        exists|order: Seq<usize>|
            is_order(order, build_table(file.blocks@, file.refs@).len()) && font.glyph_table()
                == resolve_all(build_table(file.blocks@, file.refs@), order, RESOLVE_PASSES as nat),
{
    let ghost blocks = file.blocks@;
    let ghost refs = file.refs@;
    let ghost text = file.text@;
    let mut table: Vec<GlyphEntry> = Vec::new();
    let mut shapes: Vec<ShapeEntry> = Vec::new();
    let mut index = glyph_index_new();
    proof {
        assert(table_view(table@) =~= Seq::<GlyphView>::empty());
        assert(blocks.take(0) =~= Seq::<LffBlock>::empty());
        assert(shapes_view(shapes@) =~= Seq::<ShapeView>::empty());
    }
    let mut i: usize = 0;
    while i < file.blocks.len()
        invariant
            blocks == file.blocks@,
            refs == file.refs@,
            text == file.text@,
            state_wf(file.state(), text.len() as int),
            i <= blocks.len(),
            table_view(table@) == build_table(blocks.take(i as int), refs),
            shapes_view(shapes@) == build_shapes(text, blocks.take(i as int)),
            index_wf(index, table_view(table@)),
            unique_chars(table_view(table@)),
        decreases blocks.len() - i,
    {
        let b = file.blocks[i];
        proof {
            assert(blocks.take(i + 1).drop_last() =~= blocks.take(i as int));
            assert(blocks.take(i + 1).last() == b);
            assert(span_in(b.strokes, file.strokes@.len() as int));
        }
        let ghost tv = table_view(table@);
        match b.key {
            BlockKey::Glyph(c) => {
                let strokes = range_vec(b.strokes.0, b.strokes.1);
                let rs = copy_refs(&file.refs, b.refs.0, b.refs.1);
                let entry = GlyphEntry { ch: c, strokes, refs: rs };
                proof {
                    lemma_index_find(index, tv, c);
                }
                match glyph_index_get(&index, c as u32) {
                    Some(pos) => {
                        table.set(pos, entry);
                        glyph_index_insert(&mut index, c as u32, pos);
                        proof {
                            assert(table_view(table@) =~= tv.update(pos as int, gview(entry)));
                            let nt = table_view(table@);
                            assert forall|x: int, y: int|
                                0 <= x < nt.len() && 0 <= y < nt.len() && nt[x].ch == nt[y].ch implies x == y by {
                                assert(nt[x].ch == tv[x].ch && nt[y].ch == tv[y].ch);
                            }
                            let e = glyph_index_entries(index);
                            assert(e =~= glyph_index_entries(index));
                            assert forall|x: int| 0 <= x < nt.len() implies #[trigger] e.contains_key(nt[x].ch as u32)
                                && e[nt[x].ch as u32] == x by {
                                assert(nt[x].ch == tv[x].ch);
                            }
                            assert forall|k: u32| #[trigger] e.contains_key(k) implies e[k] < nt.len()
                                && nt[e[k] as int].ch as u32 == k by {
                                assert(nt[e[k] as int].ch == tv[e[k] as int].ch);
                            }
                        }
                    },
                    None => {
                        let pos = table.len();
                        let ghost e_old = glyph_index_entries(index);
                        table.push(entry);
                        glyph_index_insert(&mut index, c as u32, pos);
                        proof {
                            assert(glyph_index_entries(index) == e_old.insert(c as u32, pos));
                            assert(table_view(table@) =~= tv.push(gview(entry)));
                            let nt = table_view(table@);
                            assert forall|x: int, y: int|
                                0 <= x < nt.len() && 0 <= y < nt.len() && nt[x].ch == nt[y].ch implies x == y by {
                                if x < tv.len() && y < tv.len() {
                                    assert(nt[x].ch == tv[x].ch && nt[y].ch == tv[y].ch);
                                } else if x < tv.len() {
                                    assert(tv[x].ch != c);
                                } else if y < tv.len() {
                                    assert(tv[y].ch != c);
                                }
                            }
                            let e0 = glyph_index_entries(index);
                            assert forall|x: int| 0 <= x < nt.len() implies #[trigger] e0.contains_key(nt[x].ch as u32)
                                && e0[nt[x].ch as u32] == x by {
                                if x < tv.len() {
                                    assert(nt[x].ch == tv[x].ch);
                                    assert(tv[x].ch != c);
                                    assert(tv[x].ch as u32 != c as u32);
                                    assert(e_old.contains_key(tv[x].ch as u32) && e_old[tv[x].ch as u32] == x);
                                }
                            }
                            assert forall|k: u32| #[trigger] e0.contains_key(k) implies e0[k] < nt.len()
                                && nt[e0[k] as int].ch as u32 == k by {
                                if k != c as u32 {
                                    assert(nt[e0[k] as int].ch == tv[e0[k] as int].ch);
                                }
                            }
                        }
                    },
                }
            },
            BlockKey::Shape(sp) => {
                let name = upper_text(&file.text, sp.0, sp.1);
                let strokes = range_vec(b.strokes.0, b.strokes.1);
                let entry = ShapeEntry { name, strokes };
                let ghost sv = shapes_view(shapes@);
                match shape_pos(&shapes, &entry.name) {
                    Some(pos) => {
                        shapes.set(pos, entry);
                        assert(shapes_view(shapes@) =~= sv.update(pos as int, sview(entry)));
                    },
                    None => {
                        shapes.push(entry);
                        assert(shapes_view(shapes@) =~= sv.push(sview(entry)));
                    },
                }
            },
        }
        i = i + 1;
    }
    proof {
        assert(blocks.take(blocks.len() as int) =~= blocks);
    }
    let order = walk_order(&index, &table);
    let ghost built = table_view(table@);
    resolve_refs(&mut table, &index, &order);
    proof {
        lemma_resolve_all_shape(built, order@, RESOLVE_PASSES as nat);
        lemma_index_wf_keep(index, built, table_view(table@));
    }
    LffFont { file, glyphs: table, shapes, index }
}

proof fn lemma_resolve_all_shape(t: Seq<GlyphView>, order: Seq<usize>, passes: nat)
    requires
        forall|j: int| 0 <= j < order.len() ==> order[j] < t.len(),
    ensures
        resolve_all(t, order, passes).len() == t.len(),
        forall|x: int| 0 <= x < t.len() ==> #[trigger] resolve_all(t, order, passes)[x].ch == t[x].ch,
    decreases passes,
{
    if passes > 0 && has_refs(t) {
        lemma_run_pass_shape(t, order, 0);
        lemma_resolve_all_shape(run_pass(t, order, 0), order, (passes - 1) as nat);
    }
}

/// Parses a font file and builds its resolved tables.
pub fn parse_font(src: &str) -> (font: LffFont)
    requires
        src@.len() <= usize::MAX / 8,
    ensures
        font.wf(),
        font.file.text@ == src@,
        font.file.state() == spec_parse_lff(src@),
        font.shape_table() == build_shapes(src@, spec_parse_lff(src@).blocks),
        exists|order: Seq<usize>|
            is_order(order, build_table(spec_parse_lff(src@).blocks, spec_parse_lff(src@).refs).len())
                && font.glyph_table() == resolve_all(
                build_table(spec_parse_lff(src@).blocks, spec_parse_lff(src@).refs),
                order,
                RESOLVE_PASSES as nat,
            ),
{
    let file = parse_lff(src);
    build_font(file)
}

// ── laws ───────────────────────────────────────────────────────────────

/// Every coordinate of `v` is a number, and so is its bulge when it has one.
pub open spec fn vertex_numeric(s: Seq<char>, v: LffVertex) -> bool {
    &&& is_float_lit(s, v.x.0 as int, v.x.1 as int)
    &&& is_float_lit(s, v.y.0 as int, v.y.1 as int)
    &&& (v.bulge is Some ==> is_float_lit(s, (v.bulge->0).0 as int, (v.bulge->0).1 as int))
}

pub open spec fn all_numeric(s: Seq<char>, vs: Seq<LffVertex>) -> bool {
    forall|i: int| 0 <= i < vs.len() ==> vertex_numeric(s, #[trigger] vs[i])
}

proof fn lemma_token_numeric(s: Seq<char>, lo: int, e: int)
    requires
        0 <= lo <= e <= s.len(),
        s.len() <= usize::MAX,
    ensures
        token_of(s, lo, e) matches Token::Vertex(v) ==> vertex_numeric(s, v),
{
    lemma_trim_in(s, lo, e);
    lemma_find_from(s, lo, e, ',');
    let c1 = find_from(s, lo, e, ',');
    if c1 < e {
        lemma_find_from(s, c1 + 1, e, ',');
        let c2 = find_from(s, c1 + 1, e, ',');
        lemma_trim_in(s, lo, c1);
        lemma_trim_in(s, c1 + 1, c2);
        if c2 < e {
            lemma_find_from(s, c2 + 1, e, ',');
            let c3 = find_from(s, c2 + 1, e, ',');
            lemma_trim_in(s, c2 + 1, c3);
        }
    }
}

proof fn lemma_vertices_numeric(s: Seq<char>, lo: int, hi: int)
    requires
        0 <= lo,
        hi <= s.len(),
        s.len() <= usize::MAX,
    ensures
        vertices_from(s, lo, hi) is Some ==> all_numeric(s, vertices_from(s, lo, hi)->0),
    decreases hi - lo,
{
    if lo <= hi {
        lemma_find_from(s, lo, hi, ';');
        let e = find_from(s, lo, hi, ';');
        if e < hi {
            lemma_vertices_numeric(s, e + 1, hi);
        }
        lemma_token_numeric(s, lo, e);
        let rest = if lo <= e < hi {
            vertices_from(s, e + 1, hi)
        } else {
            Some(Seq::<LffVertex>::empty())
        };
        if let Token::Vertex(v) = token_of(s, lo, e) {
            if rest is Some {
                let all = seq![v] + rest->0;
                assert forall|i: int| 0 <= i < all.len() implies vertex_numeric(s, #[trigger] all[i]) by {
                    if i > 0 {
                        assert(all[i] == rest->0[i - 1]);
                    }
                }
            }
        }
    }
}

proof fn lemma_step_numeric(s: Seq<char>, a: int, b: int, st: LffState)
    requires
        all_numeric(s, st.vertices),
        0 <= a <= b <= s.len(),
        s.len() <= usize::MAX,
    ensures
        all_numeric(s, step_line(s, a, b, st).vertices),
{
    reveal(step_line);
    if a < b && s[a] != '#' && s[a] != '[' && st.cur is Some && !is_ref_line(s, a, b) {
        lemma_vertices_numeric(s, a, b);
        if let Some(v) = vertices_from(s, a, b) {
            let all = st.vertices + v;
            assert forall|i: int| 0 <= i < all.len() implies vertex_numeric(s, #[trigger] all[i]) by {
                if i < st.vertices.len() {
                    assert(all[i] == st.vertices[i]);
                } else {
                    assert(all[i] == v[i - st.vertices.len()]);
                }
            }
        }
    }
    if a < b && s[a] == '[' {
        assert(block_step(s, a, b, st).vertices == st.vertices);
    }
    if a < b && s[a] == '#' {
        assert(header_step(s, a + 1, b, st).vertices == st.vertices);
    }
}

proof fn lemma_parse_numeric(s: Seq<char>, p: int, st: LffState)
    requires
        all_numeric(s, st.vertices),
        s.len() <= usize::MAX,
    ensures
        all_numeric(s, parse_from(s, p, st).vertices),
    decreases s.len() - p,
{
    if 0 <= p <= s.len() {
        lemma_find_from(s, p, s.len() as int, '\n');
        let e = find_from(s, p, s.len() as int, '\n');
        let t = trim(s, p, e);
        lemma_trim_in(s, p, e);
        lemma_step_numeric(s, t.0, t.1, st);
        if e < s.len() {
            lemma_parse_numeric(s, e + 1, step_line(s, t.0, t.1, st));
        }
    }
}

/// Every vertex a font file yields has numbers for its coordinates and bulge,
/// so converting them cannot fail.
pub proof fn law_vertices_are_numbers(s: Seq<char>)
    requires
        s.len() <= usize::MAX,
    ensures
        all_numeric(s, spec_parse_lff(s).vertices),
{
    lemma_parse_numeric(s, 0, initial_state());
}

/// `a` is a prefix of `b`.
pub open spec fn is_prefix(a: Seq<usize>, b: Seq<usize>) -> bool {
    a.len() <= b.len() && b.take(a.len() as int) == a
}

proof fn lemma_prefix_trans(a: Seq<usize>, b: Seq<usize>, c: Seq<usize>)
    requires
        is_prefix(a, b),
        is_prefix(b, c),
    ensures
        is_prefix(a, c),
{
    assert(c.take(a.len() as int) =~= b.take(a.len() as int));
}

proof fn lemma_run_pass_keeps(t: Seq<GlyphView>, order: Seq<usize>, i: int)
    requires
        forall|j: int| 0 <= j < order.len() ==> order[j] < t.len(),
    ensures
        run_pass(t, order, i).len() == t.len(),
        forall|x: int| 0 <= x < t.len() ==> is_prefix(t[x].strokes, #[trigger] run_pass(t, order, i)[x].strokes),
    decreases order.len() - i,
{
    if 0 <= i < order.len() {
        let k = order[i] as int;
        let t2 = resolve_at(t, k);
        lemma_resolve_at_shape(t, k);
        assert forall|x: int| 0 <= x < t.len() implies is_prefix(t[x].strokes, #[trigger] t2[x].strokes) by {
            if x == k && t[k].refs.len() > 0 {
                assert((t[k].strokes + added(t, t[k].refs)).take(t[k].strokes.len() as int) =~= t[k].strokes);
            } else {
                assert(t2[x].strokes.take(t[x].strokes.len() as int) =~= t[x].strokes);
            }
        }
        lemma_run_pass_keeps(t2, order, i + 1);
        assert forall|x: int| 0 <= x < t.len() implies is_prefix(t[x].strokes, #[trigger] run_pass(t, order, i)[x].strokes) by {
            lemma_prefix_trans(t[x].strokes, t2[x].strokes, run_pass(t2, order, i + 1)[x].strokes);
        }
    } else {
        assert forall|x: int| 0 <= x < t.len() implies is_prefix(t[x].strokes, #[trigger] run_pass(t, order, i)[x].strokes) by {
            assert(t[x].strokes.take(t[x].strokes.len() as int) =~= t[x].strokes);
        }
    }
}

/// Resolving included glyphs never drops a glyph's own strokes: they stay
/// first, and each glyph keeps its character.
pub proof fn law_resolve_keeps_own_strokes(t: Seq<GlyphView>, order: Seq<usize>, passes: nat)
    requires
        is_order(order, t.len()),
    ensures
        resolve_all(t, order, passes).len() == t.len(),
        forall|x: int| 0 <= x < t.len() ==> #[trigger] resolve_all(t, order, passes)[x].ch == t[x].ch,
        forall|x: int|
            0 <= x < t.len() ==> is_prefix(t[x].strokes, #[trigger] resolve_all(t, order, passes)[x].strokes),
    decreases passes,
{
    lemma_resolve_all_shape(t, order, passes);
    if passes > 0 && has_refs(t) {
        let t2 = run_pass(t, order, 0);
        lemma_run_pass_keeps(t, order, 0);
        law_resolve_keeps_own_strokes(t2, order, (passes - 1) as nat);
        assert forall|x: int| 0 <= x < t.len() implies is_prefix(t[x].strokes, #[trigger] resolve_all(t, order, passes)[x].strokes) by {
            lemma_prefix_trans(t[x].strokes, t2[x].strokes, resolve_all(t2, order, (passes - 1) as nat)[x].strokes);
        }
    } else {
        assert forall|x: int| 0 <= x < t.len() implies is_prefix(t[x].strokes, #[trigger] resolve_all(t, order, passes)[x].strokes) by {
            assert(t[x].strokes.take(t[x].strokes.len() as int) =~= t[x].strokes);
        }
    }
}

} // verus!
