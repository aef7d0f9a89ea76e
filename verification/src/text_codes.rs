//! Control codes of single-line text. A text run is read into a stream of
//! layout operations: glyphs to draw, spaces, blank advances, and the starts
//! and ends of underline, overline and strike-through segments. Placing the
//! operations (advances, transforms) is left to the renderer.
//!
//! Codes: `\L` / `\l` start / end underline, `\O` / `\o` overline, `\K` / `\k`
//! strike-through; `%%d` degree sign, `%%p` plus-minus, `%%c` diameter, `%%%`
//! a percent sign, `%%u` / `%%o` toggle underline / overline, `%%nnn` the
//! character with decimal code `nnn`. `%%` before one or two digits only
//! advances by a blank; `%%` before anything else is dropped.

use vstd::prelude::*;
use vstd::std_specs::iter::IteratorSpec;

verus! {

broadcast use vstd::string::group_string_axioms;

/// The three decoration lines.
#[derive(Clone, Copy, Debug, PartialEq, Eq, Structural)]
pub enum LineKind {
    Under,
    Over,
    Strike,
}

/// One layout operation.
#[derive(Clone, Copy, Debug, PartialEq, Eq, Structural)]
pub enum TextOp {
    /// Draw this character's glyph and advance past it.
    Glyph(char),
    /// A space: advance by the font's word spacing.
    Space,
    /// Advance by a blank glyph's width without drawing.
    Blank,
    /// A decoration line starts at the current position.
    Open(LineKind),
    /// The open decoration line ends at the current position.
    Close(LineKind),
}

/// Which decoration lines are open.
#[derive(Clone, Copy, Debug, PartialEq, Eq, Structural)]
pub struct OpenLines {
    pub under: bool,
    pub over: bool,
    pub strike: bool,
}

pub open spec fn is_open(st: OpenLines, k: LineKind) -> bool {
    match k {
        LineKind::Under => st.under,
        LineKind::Over => st.over,
        LineKind::Strike => st.strike,
    }
}

pub open spec fn set_open(st: OpenLines, k: LineKind, v: bool) -> OpenLines {
    match k {
        LineKind::Under => OpenLines { under: v, ..st },
        LineKind::Over => OpenLines { over: v, ..st },
        LineKind::Strike => OpenLines { strike: v, ..st },
    }
}

/// Starting line `k`: opens it unless it is open already.
pub open spec fn start_ops(st: OpenLines, k: LineKind) -> Seq<TextOp> {
    if is_open(st, k) {
        Seq::empty()
    } else {
        seq![TextOp::Open(k)]
    }
}

/// Ending line `k`: closes it when it is open.
pub open spec fn end_ops(st: OpenLines, k: LineKind) -> Seq<TextOp> {
    if is_open(st, k) {
        seq![TextOp::Close(k)]
    } else {
        Seq::empty()
    }
}

/// Toggling line `k`: closes it when open, opens it otherwise.
pub open spec fn toggle_ops(st: OpenLines, k: LineKind) -> Seq<TextOp> {
    if is_open(st, k) {
        seq![TextOp::Close(k)]
    } else {
        seq![TextOp::Open(k)]
    }
}

/// The line a `\` code starts or ends, with `true` for a start.
pub open spec fn backslash_code(c: char) -> Option<(LineKind, bool)> {
    if c == 'L' {
        Some((LineKind::Under, true))
    } else if c == 'l' {
        Some((LineKind::Under, false))
    } else if c == 'O' {
        Some((LineKind::Over, true))
    } else if c == 'o' {
        Some((LineKind::Over, false))
    } else if c == 'K' {
        Some((LineKind::Strike, true))
    } else if c == 'k' {
        Some((LineKind::Strike, false))
    } else {
        None
    }
}

pub open spec fn is_digit(c: char) -> bool {
    '0' <= c && c <= '9'
}

/// ASCII lower case of `c`.
pub open spec fn lower(c: char) -> char {
    if 'A' <= c && c <= 'Z' {
        ((c as u32) + 32) as char
    } else {
        c
    }
}

/// Number of ASCII digits (at most three) at `s[j..]`.
pub open spec fn digit_run(s: Seq<char>, j: int) -> int {
    if j < s.len() && is_digit(s[j]) {
        if j + 1 < s.len() && is_digit(s[j + 1]) {
            if j + 2 < s.len() && is_digit(s[j + 2]) {
                3
            } else {
                2
            }
        } else {
            1
        }
    } else {
        0
    }
}

pub open spec fn digit_val(c: char) -> int {
    c as int - '0' as int
}

/// A character as drawn: a space advances, anything else is a glyph.
pub open spec fn char_ops(c: char) -> Seq<TextOp> {
    if c == ' ' {
        seq![TextOp::Space]
    } else {
        seq![TextOp::Glyph(c)]
    }
}

/// A code point `char::from_u32` accepts.
pub open spec fn valid_char(v: u32) -> bool {
    v <= 0x10FFFF && !(0xD800 <= v && v <= 0xDFFF)
}

/// Lines still open at the end of the run are closed: underline, overline,
/// strike-through, in that order.
pub open spec fn close_all(st: OpenLines) -> Seq<TextOp> {
    end_ops(st, LineKind::Under) + end_ops(st, LineKind::Over) + end_ops(st, LineKind::Strike)
}

/// The operations for `s[i..]` when the lines in `st` are open.
pub open spec fn scan_from(s: Seq<char>, i: int, st: OpenLines) -> Seq<TextOp>
    decreases s.len() - i,
{
    if i < 0 || i >= s.len() {
        close_all(st)
    } else {
        let ch = s[i];
        if ch == '\\' && i + 1 < s.len() && backslash_code(s[i + 1]) is Some {
            let (k, start) = backslash_code(s[i + 1])->0;
            if start {
                start_ops(st, k) + scan_from(s, i + 2, set_open(st, k, true))
            } else {
                end_ops(st, k) + scan_from(s, i + 2, set_open(st, k, false))
            }
        } else if ch == '%' && i + 1 < s.len() && s[i + 1] == '%' {
            let j = i + 2;
            if j >= s.len() {
                scan_from(s, j, st)
            } else {
                let c = lower(s[j]);
                if c == 'd' {
                    char_ops('\u{b0}') + scan_from(s, j + 1, st)
                } else if c == 'p' {
                    char_ops('\u{b1}') + scan_from(s, j + 1, st)
                } else if c == 'c' {
                    char_ops('\u{2300}') + scan_from(s, j + 1, st)
                } else if c == '%' {
                    char_ops('%') + scan_from(s, j + 1, st)
                } else if c == 'u' {
                    toggle_ops(st, LineKind::Under) + scan_from(
                        s,
                        j + 1,
                        set_open(st, LineKind::Under, !st.under),
                    )
                } else if c == 'o' {
                    toggle_ops(st, LineKind::Over) + scan_from(
                        s,
                        j + 1,
                        set_open(st, LineKind::Over, !st.over),
                    )
                } else if is_digit(c) {
                    let n = digit_run(s, j);
                    if n == 3 {
                        let v = 100 * digit_val(s[j]) + 10 * digit_val(s[j + 1]) + digit_val(
                            s[j + 2],
                        );
                        if valid_char(v as u32) {
                            char_ops(v as char) + scan_from(s, j + 3, st)
                        } else {
                            scan_from(s, j + 3, st)
                        }
                    } else {
                        seq![TextOp::Blank] + scan_from(s, j + n, st)
                    }
                } else {
                    scan_from(s, j, st)
                }
            }
        } else {
            char_ops(ch) + scan_from(s, i + 1, st)
        }
    }
}

pub open spec fn no_lines() -> OpenLines {
    OpenLines { under: false, over: false, strike: false }
}

/// The layout operations of a whole text run.
pub open spec fn spec_text_ops(s: Seq<char>) -> Seq<TextOp> {
    scan_from(s, 0, no_lines())
}

// ── std functions used on characters ───────────────────────────────────

/// `char::from_u32`: the character with code `v`, or `None` when `v` is not a
/// Unicode scalar value (above U+10FFFF or a surrogate).
pub assume_specification[ core::char::from_u32 ](i: u32) -> (r: Option<char>)
    ensures
        r == (if valid_char(i) {
            Some(i as char)
        } else {
            None
        }),
;

/// The characters of `s`, in order.
pub fn str_chars(s: &str) -> (v: Vec<char>)
    ensures
        v@ == s@,
{
    let mut v: Vec<char> = Vec::new();
    let mut it = s.chars();
    loop
        invariant
            v@ + it.remaining() == s@,
            it.obeys_prophetic_iter_laws(),
            it.decrease() is Some,
        decreases it.decrease()->0,
    {
        let ghost before = it.remaining();
        match it.next() {
            Some(c) => {
                proof {
                    assert(before.len() > 0);
                    assert(v@.push(c) + it.remaining() =~= v@ + before);
                }
                v.push(c);
            },
            None => {
                assert(v@ + it.remaining() == s@);
                assert(it.remaining().len() == 0);
                assert(v@ =~= s@);
                return v;
            },
        }
    }
}

fn lower_char(c: char) -> (r: char)
    ensures
        r == lower(c),
{
    if 'A' <= c && c <= 'Z' {
        let v: u32 = (c as u32) + 32;
        match core::char::from_u32(v) {
            Some(r) => r,
            None => c,
        }
    } else {
        c
    }
}

fn push_char(out: &mut Vec<TextOp>, c: char)
    ensures
        final(out)@ == old(out)@ + char_ops(c),
{
    if c == ' ' {
        out.push(TextOp::Space);
    } else {
        out.push(TextOp::Glyph(c));
    }
    assert(final(out)@ =~= old(out)@ + char_ops(c));
}

fn line_open(st: OpenLines, k: LineKind) -> (b: bool)
    ensures
        b == is_open(st, k),
{
    match k {
        LineKind::Under => st.under,
        LineKind::Over => st.over,
        LineKind::Strike => st.strike,
    }
}

fn with_line(st: OpenLines, k: LineKind, v: bool) -> (r: OpenLines)
    ensures
        r == set_open(st, k, v),
{
    match k {
        LineKind::Under => OpenLines { under: v, ..st },
        LineKind::Over => OpenLines { over: v, ..st },
        LineKind::Strike => OpenLines { strike: v, ..st },
    }
}

fn push_end(out: &mut Vec<TextOp>, st: OpenLines, k: LineKind)
    ensures
        final(out)@ == old(out)@ + end_ops(st, k),
{
    if line_open(st, k) {
        out.push(TextOp::Close(k));
    }
    assert(final(out)@ =~= old(out)@ + end_ops(st, k));
}

/// Handles `%%` at `s[j - 2..j]`: returns where reading goes on and the open
/// lines after it.
fn step_percent(s: &Vec<char>, j: usize, st: OpenLines, out: &mut Vec<TextOp>) -> (r: (
    usize,
    OpenLines,
))
    requires
        2 <= j <= s@.len(),
        s@[j - 2] == '%',
        s@[j - 1] == '%',
    ensures
        j <= r.0 <= s@.len(),
        old(out)@ + scan_from(s@, j - 2, st) == final(out)@ + scan_from(s@, r.0 as int, r.1),
{
    let ghost out0 = out@;
    let ghost i = j - 2;
    let n = s.len();
    assert(backslash_code('%') is None);
    if j >= n {
        return (j, st);
    }
    let c = lower_char(s[j]);
    if c == 'd' {
        push_char(out, '\u{b0}');
        (j + 1, st)
    } else if c == 'p' {
        push_char(out, '\u{b1}');
        (j + 1, st)
    } else if c == 'c' {
        push_char(out, '\u{2300}');
        (j + 1, st)
    } else if c == '%' {
        push_char(out, '%');
        (j + 1, st)
    } else if c == 'u' {
        if st.under {
            out.push(TextOp::Close(LineKind::Under));
        } else {
            out.push(TextOp::Open(LineKind::Under));
        }
        assert(out@ =~= out0 + toggle_ops(st, LineKind::Under));
        (j + 1, OpenLines { under: !st.under, ..st })
    } else if c == 'o' {
        if st.over {
            out.push(TextOp::Close(LineKind::Over));
        } else {
            out.push(TextOp::Open(LineKind::Over));
        }
        assert(out@ =~= out0 + toggle_ops(st, LineKind::Over));
        (j + 1, OpenLines { over: !st.over, ..st })
    } else if '0' <= c && c <= '9' {
        let two = n - j > 1 && '0' <= s[j + 1] && s[j + 1] <= '9';
        let three = two && n - j > 2 && '0' <= s[j + 2] && s[j + 2] <= '9';
        if three {
            let d0: u32 = (s[j] as u32) - ('0' as u32);
            let d1: u32 = (s[j + 1] as u32) - ('0' as u32);
            let d2: u32 = (s[j + 2] as u32) - ('0' as u32);
            let v: u32 = 100 * d0 + 10 * d1 + d2;
            assert(v == 100 * digit_val(s@[j as int]) + 10 * digit_val(s@[j + 1]) + digit_val(
                s@[j + 2],
            ));
            match core::char::from_u32(v) {
                Some(r) => push_char(out, r),
                None => {},
            }
            (j + 3, st)
        } else {
            out.push(TextOp::Blank);
            assert(out@ =~= out0 + seq![TextOp::Blank]);
            if two {
                (j + 2, st)
            } else {
                (j + 1, st)
            }
        }
    } else {
        (j, st)
    }
}

/// Reads the operations at `s[i]`: returns where reading goes on and the open
/// lines after it.
fn step(s: &Vec<char>, i: usize, st: OpenLines, out: &mut Vec<TextOp>) -> (r: (usize, OpenLines))
    requires
        i < s@.len(),
    ensures
        i < r.0 <= s@.len(),
        old(out)@ + scan_from(s@, i as int, st) == final(out)@ + scan_from(s@, r.0 as int, r.1),
{
    let ghost out0 = out@;
    let n = s.len();
    let ch = s[i];
    let code = if ch == '\\' && n - i > 1 {
        let c = s[i + 1];
        if c == 'L' {
            Some((LineKind::Under, true))
        } else if c == 'l' {
            Some((LineKind::Under, false))
        } else if c == 'O' {
            Some((LineKind::Over, true))
        } else if c == 'o' {
            Some((LineKind::Over, false))
        } else if c == 'K' {
            Some((LineKind::Strike, true))
        } else if c == 'k' {
            Some((LineKind::Strike, false))
        } else {
            None
        }
    } else {
        None
    };
    match code {
        Some((k, start)) => {
            assert(code == backslash_code(s@[i + 1]));
            if start {
                if !line_open(st, k) {
                    out.push(TextOp::Open(k));
                }
                assert(out@ =~= out0 + start_ops(st, k));
            } else {
                push_end(out, st, k);
            }
            (i + 2, with_line(st, k, start))
        },
        None => {
            if ch == '%' && n - i > 1 && s[i + 1] == '%' {
                step_percent(s, i + 2, st, out)
            } else {
                push_char(out, ch);
                (i + 1, st)
            }
        },
    }
}

/// Reads the control codes of a text run into layout operations.
pub fn text_ops(text: &str) -> (ops: Vec<TextOp>)
    ensures
        ops@ == spec_text_ops(text@),
{
    let s = str_chars(text);
    let n = s.len();
    let mut out: Vec<TextOp> = Vec::new();
    let mut st = OpenLines { under: false, over: false, strike: false };
    let mut i: usize = 0;
    while i < n
        invariant
            n == s@.len(),
            i <= n,
            out@ + scan_from(s@, i as int, st) == spec_text_ops(s@),
        decreases n - i,
    {
        let r = step(&s, i, st, &mut out);
        i = r.0;
        st = r.1;
    }
    let ghost before = out@;
    push_end(&mut out, st, LineKind::Under);
    push_end(&mut out, st, LineKind::Over);
    push_end(&mut out, st, LineKind::Strike);
    proof {
        assert(out@ =~= before + close_all(st));
    }
    out
}

// ── laws ───────────────────────────────────────────────────────────────

/// Reading `ops` with line `k` open (or not) as given: every `Open(k)` comes
/// while `k` is closed, every `Close(k)` while it is open, and `k` is closed at
/// the end.
pub open spec fn balanced(ops: Seq<TextOp>, k: LineKind, open: bool) -> bool
    decreases ops.len(),
{
    if ops.len() == 0 {
        !open
    } else if ops[0] == TextOp::Open(k) {
        !open && balanced(ops.drop_first(), k, true)
    } else if ops[0] == TextOp::Close(k) {
        open && balanced(ops.drop_first(), k, false)
    } else {
        balanced(ops.drop_first(), k, open)
    }
}

proof fn lemma_balanced_concat(a: Seq<TextOp>, b: Seq<TextOp>, k: LineKind, open: bool, mid: bool)
    requires
        balanced_to(a, k, open, mid),
        balanced(b, k, mid),
    ensures
        balanced(a + b, k, open),
    decreases a.len(),
{
    if a.len() > 0 {
        assert((a + b).drop_first() =~= a.drop_first() + b);
        let next = if a[0] == TextOp::Open(k) {
            true
        } else if a[0] == TextOp::Close(k) {
            false
        } else {
            open
        };
        lemma_balanced_concat(a.drop_first(), b, k, next, mid);
    } else {
        assert(a + b =~= b);
    }
}

/// Like `balanced`, but `k` ends in state `last` instead of closed.
pub open spec fn balanced_to(ops: Seq<TextOp>, k: LineKind, open: bool, last: bool) -> bool
    decreases ops.len(),
{
    if ops.len() == 0 {
        open == last
    } else if ops[0] == TextOp::Open(k) {
        !open && balanced_to(ops.drop_first(), k, true, last)
    } else if ops[0] == TextOp::Close(k) {
        open && balanced_to(ops.drop_first(), k, false, last)
    } else {
        balanced_to(ops.drop_first(), k, open, last)
    }
}

proof fn lemma_char_ops_neutral(c: char, k: LineKind, open: bool)
    ensures
        balanced_to(char_ops(c), k, open, open),
        char_ops(c).len() == 1,
{
    let op = if c == ' ' { TextOp::Space } else { TextOp::Glyph(c) };
    assert(char_ops(c) == seq![op]);
    assert(seq![op].drop_first() =~= Seq::<TextOp>::empty());
    reveal_with_fuel(balanced_to, 2);
}

proof fn lemma_scan_balanced(s: Seq<char>, i: int, st: OpenLines, k: LineKind)
    ensures
        balanced(scan_from(s, i, st), k, is_open(st, k)),
    decreases s.len() - i,
{
    let u = LineKind::Under;
    let o = LineKind::Over;
    let t = LineKind::Strike;
    if i < 0 || i >= s.len() {
        let e1 = end_ops(st, u);
        let e2 = end_ops(st, o);
        let e3 = end_ops(st, t);
        let after1 = if k == u { false } else { is_open(st, k) };
        let after2 = if k == o { false } else { after1 };
        assert(balanced_to(e1, k, is_open(st, k), after1)) by {
            reveal_with_fuel(balanced_to, 2);
        }
        assert(balanced_to(e2, k, after1, after2)) by {
            reveal_with_fuel(balanced_to, 2);
        }
        assert(balanced(e3, k, after2)) by {
            reveal_with_fuel(balanced, 2);
        }
        lemma_balanced_concat(e2, e3, k, after1, after2);
        lemma_balanced_concat(e1, e2 + e3, k, is_open(st, k), after1);
        assert(close_all(st) =~= e1 + (e2 + e3));
    } else {
        let ch = s[i];
        if ch == '\\' && i + 1 < s.len() && backslash_code(s[i + 1]) is Some {
            let (kk, start) = backslash_code(s[i + 1])->0;
            let st2 = set_open(st, kk, start);
            lemma_scan_balanced(s, i + 2, st2, k);
            let ops = if start { start_ops(st, kk) } else { end_ops(st, kk) };
            assert(balanced_to(ops, k, is_open(st, k), is_open(st2, k))) by {
                reveal_with_fuel(balanced_to, 2);
            }
            lemma_balanced_concat(ops, scan_from(s, i + 2, st2), k, is_open(st, k), is_open(st2, k));
        } else if ch == '%' && i + 1 < s.len() && s[i + 1] == '%' {
            let j = i + 2;
            if j >= s.len() {
                lemma_scan_balanced(s, j, st, k);
            } else {
                let c = lower(s[j]);
                if c == 'u' || c == 'o' {
                    let kk = if c == 'u' { u } else { o };
                    let st2 = set_open(st, kk, !is_open(st, kk));
                    assert(set_open(st, u, !st.under) == st2 || c != 'u');
                    lemma_scan_balanced(s, j + 1, st2, k);
                    let ops = toggle_ops(st, kk);
                    assert(balanced_to(ops, k, is_open(st, k), is_open(st2, k))) by {
                        reveal_with_fuel(balanced_to, 2);
                    }
                    lemma_balanced_concat(ops, scan_from(s, j + 1, st2), k, is_open(st, k), is_open(st2, k));
                } else {
                    let n = digit_run(s, j);
                    let next = if c == 'd' || c == 'p' || c == 'c' || c == '%' {
                        j + 1
                    } else if is_digit(c) {
                        if n == 3 { j + 3 } else { j + n }
                    } else {
                        j
                    };
                    lemma_scan_balanced(s, next, st, k);
                    let rest = scan_from(s, next, st);
                    if c == 'd' || c == 'p' || c == 'c' || c == '%' || (is_digit(c) && n == 3) {
                        let v = 100 * digit_val(s[j]) + 10 * digit_val(s[j + 1]) + digit_val(s[j + 2]);
                        let g = if c == 'd' {
                            '\u{b0}'
                        } else if c == 'p' {
                            '\u{b1}'
                        } else if c == 'c' {
                            '\u{2300}'
                        } else if c == '%' {
                            '%'
                        } else {
                            v as char
                        };
                        if is_digit(c) && n == 3 && !valid_char(v as u32) {
                        } else {
                            lemma_char_ops_neutral(g, k, is_open(st, k));
                            lemma_balanced_concat(char_ops(g), rest, k, is_open(st, k), is_open(st, k));
                        }
                    } else if is_digit(c) {
                        assert(balanced_to(seq![TextOp::Blank], k, is_open(st, k), is_open(st, k))) by {
                            reveal_with_fuel(balanced_to, 2);
                        }
                        lemma_balanced_concat(seq![TextOp::Blank], rest, k, is_open(st, k), is_open(st, k));
                    }
                }
            }
        } else {
            lemma_scan_balanced(s, i + 1, st, k);
            lemma_char_ops_neutral(ch, k, is_open(st, k));
            lemma_balanced_concat(char_ops(ch), scan_from(s, i + 1, st), k, is_open(st, k), is_open(st, k));
        }
    }
}

/// Every decoration line of a run is opened before it is closed, and every line
/// still open at the end of the run is closed there.
pub proof fn law_lines_balanced(s: Seq<char>, k: LineKind)
    ensures
        balanced(spec_text_ops(s), k, false),
{
    lemma_scan_balanced(s, 0, no_lines(), k);
}

/// Text without `\` or `%` is drawn character by character: a space for each
/// space, a glyph for every other character.
pub proof fn law_plain_text(s: Seq<char>)
    requires
        forall|x: int| 0 <= x < s.len() ==> s[x] != '\\' && s[x] != '%',
    ensures
        spec_text_ops(s).len() == s.len(),
        forall|x: int|
            0 <= x < s.len() ==> seq![#[trigger] spec_text_ops(s)[x]] == char_ops(s[x]),
{
    lemma_plain_from(s, 0);
    assert forall|x: int| 0 <= x < s.len() implies seq![#[trigger] spec_text_ops(s)[x]] == char_ops(
        s[x],
    ) by {
        assert(spec_text_ops(s)[x] == scan_from(s, 0, no_lines())[x - 0]);
    }
}

proof fn lemma_plain_from(s: Seq<char>, i: int)
    requires
        0 <= i <= s.len(),
        forall|x: int| 0 <= x < s.len() ==> s[x] != '\\' && s[x] != '%',
    ensures
        scan_from(s, i, no_lines()).len() == s.len() - i,
        forall|x: int|
            i <= x < s.len() ==> seq![#[trigger] scan_from(s, i, no_lines())[x - i]] == char_ops(s[x]),
    decreases s.len() - i,
{
    if i < s.len() {
        lemma_plain_from(s, i + 1);
        let rest = scan_from(s, i + 1, no_lines());
        let all = scan_from(s, i, no_lines());
        assert(all == char_ops(s[i]) + rest);
        lemma_char_ops_neutral(s[i], LineKind::Under, false);
        assert forall|x: int| i <= x < s.len() implies seq![#[trigger] all[x - i]] == char_ops(s[x]) by {
            if x == i {
                assert(all[0] == char_ops(s[i])[0]);
                assert(seq![all[0]] =~= char_ops(s[i]));
            } else {
                assert(all[x - i] == rest[x - (i + 1)]);
            }
        }
    } else {
        assert(close_all(no_lines()) =~= Seq::<TextOp>::empty());
    }
}

/// The operations of text without control codes: a space for each space, a
/// glyph for every other character.
pub open spec fn plain_ops(a: Seq<char>) -> Seq<TextOp>
    decreases a.len(),
{
    if a.len() == 0 {
        Seq::empty()
    } else {
        plain_ops(a.drop_last()) + char_ops(a.last())
    }
}

pub open spec fn is_plain(a: Seq<char>) -> bool {
    forall|x: int| 0 <= x < a.len() ==> a[x] != '\\' && a[x] != '%'
}

proof fn lemma_scan_plain(s: Seq<char>, i: int, j: int, st: OpenLines)
    requires
        0 <= i <= j <= s.len(),
        forall|x: int| i <= x < j ==> s[x] != '\\' && s[x] != '%',
    ensures
        scan_from(s, i, st) == plain_ops(s.subrange(i, j)) + scan_from(s, j, st),
    decreases j - i,
{
    if i < j {
        lemma_scan_plain(s, i, j - 1, st);
        assert(s.subrange(i, j).drop_last() =~= s.subrange(i, j - 1));
        assert(s.subrange(i, j).last() == s[j - 1]);
        assert(scan_from(s, j - 1, st) == char_ops(s[j - 1]) + scan_from(s, j, st));
        assert(plain_ops(s.subrange(i, j - 1)) + (char_ops(s[j - 1]) + scan_from(s, j, st)) =~= (plain_ops(
            s.subrange(i, j - 1),
        ) + char_ops(s[j - 1])) + scan_from(s, j, st));
    } else {
        assert(s.subrange(i, j).len() == 0);
        assert(plain_ops(s.subrange(i, j)) + scan_from(s, j, st) =~= scan_from(s, j, st));
    }
}

/// `\K` starts a strike-through and `\k` ends it where it stands: in
/// `\K<a>\k<b>` with `a` and `b` free of control codes, the strike-through
/// covers exactly the characters of `a`, and those of `b` follow it.
pub proof fn law_strike_ends_at_k(a: Seq<char>, b: Seq<char>)
    requires
        is_plain(a),
        is_plain(b),
    ensures
        spec_text_ops(seq!['\\', 'K'] + a + seq!['\\', 'k'] + b) == seq![TextOp::Open(LineKind::Strike)]
            + plain_ops(a) + seq![TextOp::Close(LineKind::Strike)] + plain_ops(b),
{
    let s = seq!['\\', 'K'] + a + seq!['\\', 'k'] + b;
    let na = a.len() as int;
    let n = s.len() as int;
    let on = set_open(no_lines(), LineKind::Strike, true);
    assert(s[0] == '\\' && s[1] == 'K');
    assert(s.subrange(2, 2 + na) =~= a);
    assert forall|x: int| 2 <= x < 2 + na implies s[x] != '\\' && s[x] != '%' by {
        assert(s[x] == a[x - 2]);
    }
    lemma_scan_plain(s, 2, 2 + na, on);
    assert(s[2 + na] == '\\' && s[3 + na] == 'k');
    assert(set_open(on, LineKind::Strike, false) == no_lines());
    assert(s.subrange(4 + na, n) =~= b);
    assert forall|x: int| 4 + na <= x < n implies s[x] != '\\' && s[x] != '%' by {
        assert(s[x] == b[x - 4 - na]);
    }
    lemma_scan_plain(s, 4 + na, n, no_lines());
    assert(close_all(no_lines()) =~= Seq::<TextOp>::empty());
    assert(scan_from(s, 0, no_lines()) =~= seq![TextOp::Open(LineKind::Strike)] + plain_ops(a) + seq![
        TextOp::Close(LineKind::Strike),
    ] + plain_ops(b));
}

} // verus!
