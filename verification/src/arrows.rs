//! Dimension arrowheads: which arrowhead a dimension draws, decided from the
//! name of the arrow block it references.

use vstd::prelude::*;
use crate::lff::{trim, upper, is_ws, skip_ws, drop_ws, trim_span, upper_text};
use crate::paper::BlockRecordInfo;
use crate::text_codes::str_chars;

verus! {

/// The shape of a dimension arrowhead. Sizes are relative to the dimension's
/// arrow size: `small` halves it; an open arrow's opening is given as half its
/// angle, in tenths of a degree.
#[derive(Clone, Copy, Debug, PartialEq, Eq, Structural)]
pub enum ArrowStyle {
    NoArrow,
    Triangle { filled: bool, small: bool },
    Tick,
    Open { half_angle_tenths: u16 },
    Dot { filled: bool, small: bool },
    Origin,
    Square { filled: bool },
    Datum { filled: bool },
}

/// First position of `s[lo..hi]` that is not `_`, or `hi`.
pub open spec fn skip_underscores(s: Seq<char>, lo: int, hi: int) -> int
    decreases hi - lo,
{
    if lo < hi && s[lo] == '_' {
        skip_underscores(s, lo + 1, hi)
    } else {
        lo
    }
}

/// The lookup key of an arrow block name: white space trimmed, leading `_`
/// removed, ASCII upper case.
pub open spec fn arrow_key(name: Seq<char>) -> Seq<char> {
    let t = trim(name, 0, name.len() as int);
    let c = skip_underscores(name, t.0, t.1);
    name.subrange(c, t.1).map_values(|ch: char| upper(ch))
}

pub open spec fn filled_triangle() -> ArrowStyle {
    ArrowStyle::Triangle { filled: true, small: false }
}

/// The arrowhead that the key `k` names; an unknown key names the filled
/// triangle.
pub open spec fn style_of_key(k: Seq<char>) -> ArrowStyle {
    if k.len() == 0 || k == "CLOSEDFILLED"@ {
        filled_triangle()
    } else if k == "CLOSED"@ || k == "CLOSEDBLANK"@ {
        ArrowStyle::Triangle { filled: false, small: false }
    } else if k == "SMALL"@ {
        ArrowStyle::Triangle { filled: true, small: true }
    } else if k == "OPEN"@ {
        ArrowStyle::Open { half_angle_tenths: 95 }
    } else if k == "OPEN30"@ {
        ArrowStyle::Open { half_angle_tenths: 150 }
    } else if k == "OPEN90"@ {
        ArrowStyle::Open { half_angle_tenths: 450 }
    } else if k == "DOT"@ {
        ArrowStyle::Dot { filled: true, small: false }
    } else if k == "DOTSMALL"@ {
        ArrowStyle::Dot { filled: true, small: true }
    } else if k == "DOTBLANK"@ {
        ArrowStyle::Dot { filled: false, small: false }
    } else if k == "DOTSMALLBLANK"@ {
        ArrowStyle::Dot { filled: false, small: true }
    } else if k == "ORIGIN"@ || k == "ORIGIN2"@ || k == "ORIGININDICATOR"@ || k
        == "ORIGININDICATOR2"@ {
        ArrowStyle::Origin
    } else if k == "OBLIQUE"@ || k == "ARCHTICK"@ {
        ArrowStyle::Tick
    } else if k == "BOXFILLED"@ {
        ArrowStyle::Square { filled: true }
    } else if k == "BOXBLANK"@ || k == "BOX"@ {
        ArrowStyle::Square { filled: false }
    } else if k == "DATUMFILLED"@ || k == "DATUMTRIANGLEFILLED"@ {
        ArrowStyle::Datum { filled: true }
    } else if k == "DATUMBLANK"@ || k == "DATUMTRIANGLE"@ {
        ArrowStyle::Datum { filled: false }
    } else if k == "NONE"@ {
        ArrowStyle::NoArrow
    } else {
        filled_triangle()
    }
}

/// The arrowhead for an arrow block of the given name; no name gives the
/// filled triangle.
pub open spec fn spec_arrow_style(name: Option<Seq<char>>) -> ArrowStyle {
    match name {
        Some(n) => style_of_key(arrow_key(n)),
        None => filled_triangle(),
    }
}

fn key_is(k: &Vec<char>, lit: &str) -> (b: bool)
    ensures
        b == (k@ == lit@),
{
    let p = str_chars(lit);
    if k.len() != p.len() {
        return false;
    }
    let mut i: usize = 0;
    while i < k.len()
        invariant
            p@ == lit@,
            k@.len() == p@.len(),
            i <= k@.len(),
            forall|j: int| 0 <= j < i ==> k@[j] == p@[j],
        decreases k@.len() - i,
    {
        if k[i] != p[i] {
            return false;
        }
        i = i + 1;
    }
    assert(k@ =~= p@);
    true
}

/// The lookup key of an arrow block name (see `arrow_key`).
pub fn arrow_block_key(name: &str) -> (k: Vec<char>)
    ensures
        k@ == arrow_key(name@),
{
    let s = str_chars(name);
    let t = trim_span(&s, 0, s.len());
    let mut c = t.0;
    while c < t.1 && s[c] == '_'
        invariant
            t.0 <= c <= t.1 <= s@.len(),
            skip_underscores(s@, c as int, t.1 as int) == skip_underscores(
                s@,
                t.0 as int,
                t.1 as int,
            ),
        decreases t.1 - c,
    {
        c = c + 1;
    }
    upper_text(&s, c, t.1)
}

fn style_of_key_exec(k: &Vec<char>) -> (r: ArrowStyle)
    ensures
        r == style_of_key(k@),
{
    if k.len() == 0 || key_is(k, "CLOSEDFILLED") {
        ArrowStyle::Triangle { filled: true, small: false }
    } else if key_is(k, "CLOSED") || key_is(k, "CLOSEDBLANK") {
        ArrowStyle::Triangle { filled: false, small: false }
    } else if key_is(k, "SMALL") {
        ArrowStyle::Triangle { filled: true, small: true }
    } else if key_is(k, "OPEN") {
        ArrowStyle::Open { half_angle_tenths: 95 }
    } else if key_is(k, "OPEN30") {
        ArrowStyle::Open { half_angle_tenths: 150 }
    } else if key_is(k, "OPEN90") {
        ArrowStyle::Open { half_angle_tenths: 450 }
    } else if key_is(k, "DOT") {
        ArrowStyle::Dot { filled: true, small: false }
    } else if key_is(k, "DOTSMALL") {
        ArrowStyle::Dot { filled: true, small: true }
    } else if key_is(k, "DOTBLANK") {
        ArrowStyle::Dot { filled: false, small: false }
    } else if key_is(k, "DOTSMALLBLANK") {
        ArrowStyle::Dot { filled: false, small: true }
    } else if key_is(k, "ORIGIN") || key_is(k, "ORIGIN2") || key_is(k, "ORIGININDICATOR")
        || key_is(k, "ORIGININDICATOR2") {
        ArrowStyle::Origin
    } else if key_is(k, "OBLIQUE") || key_is(k, "ARCHTICK") {
        ArrowStyle::Tick
    } else if key_is(k, "BOXFILLED") {
        ArrowStyle::Square { filled: true }
    } else if key_is(k, "BOXBLANK") || key_is(k, "BOX") {
        ArrowStyle::Square { filled: false }
    } else if key_is(k, "DATUMFILLED") || key_is(k, "DATUMTRIANGLEFILLED") {
        ArrowStyle::Datum { filled: true }
    } else if key_is(k, "DATUMBLANK") || key_is(k, "DATUMTRIANGLE") {
        ArrowStyle::Datum { filled: false }
    } else if key_is(k, "NONE") {
        ArrowStyle::NoArrow
    } else {
        ArrowStyle::Triangle { filled: true, small: false }
    }
}

/// The arrowhead drawn for an arrow block named `name` (none: the default
/// arrow).
pub fn arrow_style_from_block_name(name: Option<&str>) -> (r: ArrowStyle)
    ensures
        r == spec_arrow_style(
            match name {
                Some(n) => Some(n@),
                None => None,
            },
        ),
{
    match name {
        Some(n) => {
            let k = arrow_block_key(n);
            style_of_key_exec(&k)
        },
        None => ArrowStyle::Triangle { filled: true, small: false },
    }
}

// ── laws ───────────────────────────────────────────────────────────────

pub proof fn lemma_upper_char(c: char)
    ensures
        is_ws(upper(c)) == is_ws(c),
        (upper(c) == '_') == (c == '_'),
        upper(upper(c)) == upper(c),
{
}

proof fn lemma_upper_spans(s: Seq<char>, t: Seq<char>, lo: int, hi: int)
    requires
        t == s.map_values(|c: char| upper(c)),
        0 <= lo <= hi <= s.len(),
    ensures
        skip_ws(t, lo, hi) == skip_ws(s, lo, hi),
        drop_ws(t, lo, hi) == drop_ws(s, lo, hi),
        skip_underscores(t, lo, hi) == skip_underscores(s, lo, hi),
    decreases hi - lo,
{
    if lo < hi {
        lemma_upper_char(s[lo]);
        lemma_upper_char(s[hi - 1]);
        lemma_upper_spans(s, t, lo + 1, hi);
        lemma_upper_spans(s, t, lo, hi - 1);
    }
}

/// Arrow block names are matched without regard to ASCII case.
pub proof fn law_arrow_ignores_case(name: Seq<char>)
    ensures
        spec_arrow_style(Some(name.map_values(|c: char| upper(c)))) == spec_arrow_style(
            Some(name),
        ),
{
    let t = name.map_values(|c: char| upper(c));
    lemma_upper_spans(name, t, 0, name.len() as int);
    let a = skip_ws(name, 0, name.len() as int);
    lemma_skip_ws_bounds(name, 0, name.len() as int);
    lemma_upper_spans(name, t, a, name.len() as int);
    let b = drop_ws(name, a, name.len() as int);
    lemma_drop_ws_bounds(name, a, name.len() as int);
    lemma_upper_spans(name, t, a, b);
    let c = skip_underscores(name, a, b);
    lemma_skip_underscores_bounds(name, a, b);
    let kt = t.subrange(c, b).map_values(|ch: char| upper(ch));
    let kn = name.subrange(c, b).map_values(|ch: char| upper(ch));
    assert forall|j: int| 0 <= j < b - c implies #[trigger] kt[j] == kn[j] by {
        lemma_upper_char(name[c + j]);
    }
    assert(kt =~= kn);
}

proof fn lemma_shift_spans(s: Seq<char>, u: Seq<char>, lo: int, hi: int)
    requires
        u == seq!['_'] + s,
        0 <= lo <= hi <= s.len(),
    ensures
        skip_ws(u, lo + 1, hi + 1) == skip_ws(s, lo, hi) + 1,
        drop_ws(u, lo + 1, hi + 1) == drop_ws(s, lo, hi) + 1,
        skip_underscores(u, lo + 1, hi + 1) == skip_underscores(s, lo, hi) + 1,
    decreases hi - lo,
{
    if lo < hi {
        assert(u[lo + 1] == s[lo]);
        assert(u[hi] == s[hi - 1]);
        lemma_shift_spans(s, u, lo + 1, hi);
        lemma_shift_spans(s, u, lo, hi - 1);
    }
}

proof fn lemma_drop_ws_past_underscore(u: Seq<char>, k: int)
    requires
        1 <= k <= u.len(),
        u[0] == '_',
    ensures
        drop_ws(u, 0, k) == drop_ws(u, 1, k),
    decreases k,
{
    if k > 1 {
        lemma_drop_ws_past_underscore(u, k - 1);
    }
}

/// A leading `_` of an arrow block name is ignored, as in `_OPEN`, where the
/// name does not begin with white space.
pub proof fn law_arrow_ignores_underscore_prefix(name: Seq<char>)
    requires
        name.len() == 0 || !is_ws(name[0]),
    ensures
        spec_arrow_style(Some(seq!['_'] + name)) == spec_arrow_style(Some(name)),
{
    let u = seq!['_'] + name;
    let n = name.len() as int;
    assert(u[0] == '_');
    assert(skip_ws(u, 0, n + 1) == 0);
    assert(skip_ws(name, 0, n) == 0);
    let b = drop_ws(name, 0, n);
    lemma_drop_ws_bounds(name, 0, n);
    lemma_shift_spans(name, u, 0, n);
    lemma_drop_ws_past_underscore(u, n + 1);
    assert(drop_ws(u, 0, n + 1) == b + 1);
    lemma_shift_spans(name, u, 0, b);
    let c = skip_underscores(name, 0, b);
    lemma_skip_underscores_bounds(name, 0, b);
    assert(skip_underscores(u, 0, b + 1) == c + 1);
    assert(u.subrange(c + 1, b + 1) =~= name.subrange(c, b));
}

proof fn lemma_skip_ws_bounds(s: Seq<char>, lo: int, hi: int)
    requires
        lo <= hi,
    ensures
        lo <= skip_ws(s, lo, hi) <= hi,
    decreases hi - lo,
{
    if lo < hi {
        lemma_skip_ws_bounds(s, lo + 1, hi);
    }
}

proof fn lemma_drop_ws_bounds(s: Seq<char>, lo: int, hi: int)
    requires
        lo <= hi,
    ensures
        lo <= drop_ws(s, lo, hi) <= hi,
    decreases hi - lo,
{
    if lo < hi {
        lemma_drop_ws_bounds(s, lo, hi - 1);
    }
}

proof fn lemma_skip_underscores_bounds(s: Seq<char>, lo: int, hi: int)
    requires
        lo <= hi,
    ensures
        lo <= skip_underscores(s, lo, hi) <= hi,
    decreases hi - lo,
{
    if lo < hi {
        lemma_skip_underscores_bounds(s, lo + 1, hi);
    }
}

/// Position of the first record at or after `i` whose handle is `h`, or -1.
pub open spec fn record_from(rs: Seq<BlockRecordInfo>, h: u64, i: int) -> int
    decreases rs.len() - i,
{
    if i < 0 || i >= rs.len() {
        -1
    } else if rs[i].handle == h {
        i
    } else {
        record_from(rs, h, i + 1)
    }
}

/// The arrowhead for the arrow block with handle `h` (0: none; a handle that
/// no record has: the default arrow).
pub open spec fn spec_arrow_for_block(rs: Seq<BlockRecordInfo>, h: u64) -> ArrowStyle {
    let p = record_from(rs, h, 0);
    if h == 0 || p < 0 {
        filled_triangle()
    } else {
        spec_arrow_style(Some(rs[p].name@))
    }
}

/// The arrowhead a dimension draws for its arrow block handle `handle`, looked
/// up among the drawing's block records.
pub fn arrow_style_for_block(records: &Vec<BlockRecordInfo>, handle: u64) -> (r: ArrowStyle)
    ensures
        r == spec_arrow_for_block(records@, handle),
{
    if handle == 0 {
        return ArrowStyle::Triangle { filled: true, small: false };
    }
    let mut i: usize = 0;
    while i < records.len()
        invariant
            handle != 0,
            i <= records@.len(),
            record_from(records@, handle, i as int) == record_from(records@, handle, 0),
        decreases records@.len() - i,
    {
        if records[i].handle == handle {
            let n = records[i].name.as_str();
            return arrow_style_from_block_name(Some(n));
        }
        i = i + 1;
    }
    ArrowStyle::Triangle { filled: true, small: false }
}

} // verus!
