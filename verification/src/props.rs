//! Property texts of entities, as shown in the property grid and compared by
//! quick select, and entity handles carried in wire names.

use vstd::prelude::*;
use crate::text_codes::str_chars;

verus! {

/// `String::push`: appends `ch` to the end of the string.
pub assume_specification[ String::push ](s: &mut String, ch: char)
    ensures
        final(s)@ == old(s)@.push(ch),
;

/// An entity color.
#[derive(Clone, Copy, Debug, PartialEq, Eq, Structural)]
pub enum ColorValue {
    ByLayer,
    /// No color.
    NoColor,
    ByBlock,
    /// Color index 1..255.
    Index(u8),
    Rgb { r: u8, g: u8, b: u8 },
}

/// A line weight.
#[derive(Clone, Copy, Debug, PartialEq, Eq, Structural)]
pub enum LineWeightValue {
    ByLayer,
    ByBlock,
    Default,
    /// Hundredths of a millimetre.
    Value(i16),
}

pub open spec fn digit_char(d: int) -> char {
    ('0' as int + d) as char
}

/// Decimal digits of `n`, without leading zeros.
pub open spec fn dec(n: nat) -> Seq<char>
    decreases n,
{
    if n < 10 {
        seq![digit_char(n as int)]
    } else {
        dec(n / 10).push(digit_char((n % 10) as int))
    }
}

/// Appends the decimal digits of `n`.
pub fn push_decimal(s: &mut String, n: u64)
    ensures
        final(s)@ == old(s)@ + dec(n as nat),
    decreases n,
{
    if n >= 10 {
        push_decimal(s, n / 10);
    }
    let d: u8 = (n % 10) as u8;
    let c = (48u8 + d) as char;
    assert(c == digit_char((n % 10) as int));
    s.push(c);
    assert(final(s)@ =~= old(s)@ + dec(n as nat));
}

pub(crate) fn push_str(s: &mut String, t: &str)
    ensures
        final(s)@ == old(s)@ + t@,
{
    let cs = str_chars(t);
    let mut i: usize = 0;
    let ghost s0 = s@;
    while i < cs.len()
        invariant
            i <= cs@.len(),
            cs@ == t@,
            s@ == s0 + cs@.take(i as int),
        decreases cs@.len() - i,
    {
        s.push(cs[i]);
        i = i + 1;
        assert(s@ =~= s0 + cs@.take(i as int));
    }
    assert(cs@.take(cs@.len() as int) =~= cs@);
}

/// Text of a color: `ByLayer`, `ByBlock`, `None`, the index, or `r,g,b`.
pub open spec fn spec_format_color(c: ColorValue) -> Seq<char> {
    match c {
        ColorValue::ByLayer => "ByLayer"@,
        ColorValue::ByBlock => "ByBlock"@,
        ColorValue::NoColor => "None"@,
        ColorValue::Index(i) => dec(i as nat),
        ColorValue::Rgb { r, g, b } => dec(r as nat) + seq![','] + dec(g as nat) + seq![','] + dec(
            b as nat,
        ),
    }
}

pub fn format_color(c: ColorValue) -> (s: String)
    ensures
        s@ == spec_format_color(c),
{
    let mut s = String::new();
    match c {
        ColorValue::ByLayer => push_str(&mut s, "ByLayer"),
        ColorValue::ByBlock => push_str(&mut s, "ByBlock"),
        ColorValue::NoColor => push_str(&mut s, "None"),
        ColorValue::Index(i) => push_decimal(&mut s, i as u64),
        ColorValue::Rgb { r, g, b } => {
            push_decimal(&mut s, r as u64);
            s.push(',');
            push_decimal(&mut s, g as u64);
            s.push(',');
            push_decimal(&mut s, b as u64);
        },
    }
    assert(s@ =~= spec_format_color(c));
    s
}

/// Two-digit text of `n < 100`.
pub open spec fn two_digits(n: int) -> Seq<char> {
    seq![digit_char(n / 10), digit_char(n % 10)]
}

/// `v` hundredths of a millimetre with two decimals and `mm`, as `{:.2}mm`
/// prints `v / 100`.
pub open spec fn spec_format_weight_value(v: int) -> Seq<char> {
    let a = if v < 0 { -v } else { v };
    (if v < 0 { seq!['-'] } else { Seq::empty() }) + dec((a / 100) as nat) + seq!['.'] + two_digits(
        a % 100,
    ) + seq!['m', 'm']
}

/// Text of a line weight: `ByLayer`, `ByBlock`, `Default`, or millimetres.
pub open spec fn spec_format_lineweight(w: LineWeightValue) -> Seq<char> {
    match w {
        LineWeightValue::ByLayer => "ByLayer"@,
        LineWeightValue::ByBlock => "ByBlock"@,
        LineWeightValue::Default => "Default"@,
        LineWeightValue::Value(v) => spec_format_weight_value(v as int),
    }
}

pub fn format_lineweight(w: LineWeightValue) -> (s: String)
    ensures
        s@ == spec_format_lineweight(w),
{
    let mut s = String::new();
    match w {
        LineWeightValue::ByLayer => push_str(&mut s, "ByLayer"),
        LineWeightValue::ByBlock => push_str(&mut s, "ByBlock"),
        LineWeightValue::Default => push_str(&mut s, "Default"),
        LineWeightValue::Value(v) => {
            let a: u32 = if v < 0 {
                (-(v as i32)) as u32
            } else {
                v as u32
            };
            if v < 0 {
                s.push('-');
            }
            push_decimal(&mut s, (a / 100) as u64);
            s.push('.');
            let f = a % 100;
            let d1 = (48u8 + (f / 10) as u8) as char;
            let d2 = (48u8 + (f % 10) as u8) as char;
            assert(d1 == digit_char((f / 10) as int));
            assert(d2 == digit_char((f % 10) as int));
            s.push(d1);
            s.push(d2);
            s.push('m');
            s.push('m');
        },
    }
    assert(s@ =~= spec_format_lineweight(w));
    s
}

// ── property values for quick select ───────────────────────────────────

/// The value of a property-grid row.
#[derive(Clone, Debug, PartialEq, Eq)]
pub enum PropValue {
    ReadOnly(String),
    EditText(String),
    LayerChoice(String),
    Choice { selected: String },
    ColorChoice(ColorValue),
    LwChoice(LineWeightValue),
    LinetypeChoice(String),
    HatchPatternChoice(String),
    BoolToggle { value: bool },
    ColorVaries,
    LwVaries,
}

/// A property-grid row of an entity: field key, label and value.
#[derive(Clone, Debug, PartialEq, Eq)]
pub struct PropRow {
    pub field: String,
    pub label: String,
    pub value: PropValue,
}

/// The properties every entity has.
#[derive(Clone, Debug, PartialEq, Eq)]
pub struct CommonProps {
    pub layer: String,
    pub color: ColorValue,
    pub linetype: String,
    pub lineweight: LineWeightValue,
}

/// Text a row value compares by in quick select; none for a value that varies.
pub open spec fn prop_text(v: PropValue) -> Option<Seq<char>> {
    match v {
        PropValue::ReadOnly(s) => Some(s@),
        PropValue::EditText(s) => Some(s@),
        PropValue::LayerChoice(s) => Some(s@),
        PropValue::Choice { selected } => Some(selected@),
        PropValue::ColorChoice(c) => Some(spec_format_color(c)),
        PropValue::LwChoice(w) => Some(spec_format_lineweight(w)),
        PropValue::LinetypeChoice(s) => Some(s@),
        PropValue::HatchPatternChoice(s) => Some(s@),
        PropValue::BoolToggle { value } => Some(if value { "true"@ } else { "false"@ }),
        PropValue::ColorVaries => None,
        PropValue::LwVaries => None,
    }
}

/// Position of the first row at or after `i` with field `f`, or -1.
pub open spec fn row_from(rows: Seq<PropRow>, f: Seq<char>, i: int) -> int
    decreases rows.len() - i,
{
    if i < 0 || i >= rows.len() {
        -1
    } else if rows[i].field@ == f {
        i
    } else {
        row_from(rows, f, i + 1)
    }
}

/// The value an entity has for quick-select field `f`: the common fields
/// `layer`, `color`, `linetype`, `lineweight` directly, any other from the
/// first row of that field among the entity's property rows.
pub open spec fn spec_property_value(c: CommonProps, rows: Option<Seq<PropRow>>, f: Seq<char>) -> Option<
    Seq<char>,
> {
    if f == "layer"@ {
        Some(c.layer@)
    } else if f == "color"@ {
        Some(spec_format_color(c.color))
    } else if f == "linetype"@ {
        Some(c.linetype@)
    } else if f == "lineweight"@ {
        Some(spec_format_lineweight(c.lineweight))
    } else {
        match rows {
            None => None,
            Some(rs) => {
                let p = row_from(rs, f, 0);
                if p < 0 {
                    None
                } else {
                    prop_text(rs[p].value)
                }
            },
        }
    }
}

pub open spec fn rows_view(rows: Option<&Vec<PropRow>>) -> Option<Seq<PropRow>> {
    match rows {
        Some(v) => Some(v@),
        None => None,
    }
}

fn prop_text_exec(v: &PropValue) -> (r: Option<String>)
    ensures
        match r {
            Some(s) => prop_text(*v) == Some(s@),
            None => prop_text(*v) is None,
        },
{
    match v {
        PropValue::ReadOnly(s) => Some(s.clone()),
        PropValue::EditText(s) => Some(s.clone()),
        PropValue::LayerChoice(s) => Some(s.clone()),
        PropValue::Choice { selected } => Some(selected.clone()),
        PropValue::ColorChoice(c) => Some(format_color(*c)),
        PropValue::LwChoice(w) => Some(format_lineweight(*w)),
        PropValue::LinetypeChoice(s) => Some(s.clone()),
        PropValue::HatchPatternChoice(s) => Some(s.clone()),
        PropValue::BoolToggle { value } => {
            if *value {
                Some(String::from_str("true"))
            } else {
                Some(String::from_str("false"))
            }
        },
        PropValue::ColorVaries => None,
        PropValue::LwVaries => None,
    }
}

/// The text an entity with common properties `common` and property rows
/// `rows` (none when it has no property grid) has for quick-select field
/// `field`.
pub fn entity_property_value(common: &CommonProps, rows: Option<&Vec<PropRow>>, field: &str) -> (r: Option<
    String,
>)
    ensures
        match r {
            Some(s) => spec_property_value(*common, rows_view(rows), field@) == Some(s@),
            None => spec_property_value(*common, rows_view(rows), field@) is None,
        },
{
    if crate::selection::str_eq(field, "layer") {
        Some(common.layer.clone())
    } else if crate::selection::str_eq(field, "color") {
        Some(format_color(common.color))
    } else if crate::selection::str_eq(field, "linetype") {
        Some(common.linetype.clone())
    } else if crate::selection::str_eq(field, "lineweight") {
        Some(format_lineweight(common.lineweight))
    } else {
        match rows {
            None => None,
            Some(rs) => {
                let mut i: usize = 0;
                while i < rs.len()
                    invariant
                        i <= rs@.len(),
                        rows_view(rows) == Some(rs@),
                        field@ != "layer"@ && field@ != "color"@ && field@ != "linetype"@ && field@
                            != "lineweight"@,
                        row_from(rs@, field@, i as int) == row_from(rs@, field@, 0),
                    decreases rs@.len() - i,
                {
                    if crate::selection::str_eq(rs[i].field.as_str(), field) {
                        return prop_text_exec(&rs[i].value);
                    }
                    i = i + 1;
                }
                None
            },
        }
    }
}

/// Position of the first entity at or after `i` whose type name is `t`, or -1.
pub open spec fn kind_from(kinds: Seq<String>, t: Seq<char>, i: int) -> int
    decreases kinds.len() - i,
{
    if i < 0 || i >= kinds.len() {
        -1
    } else if kinds[i]@ == t {
        i
    } else {
        kind_from(kinds, t, i + 1)
    }
}

/// The first of the active layout's entities (given by type name, in order)
/// of type `t`: the sample whose rows quick select offers.
pub fn first_of_kind(kinds: &Vec<String>, t: &str) -> (r: Option<usize>)
    ensures
        r is Some <==> kind_from(kinds@, t@, 0) >= 0,
        r is Some ==> r->0 == kind_from(kinds@, t@, 0),
{
    let mut i: usize = 0;
    while i < kinds.len()
        invariant
            i <= kinds@.len(),
            kind_from(kinds@, t@, i as int) == kind_from(kinds@, t@, 0),
        decreases kinds@.len() - i,
    {
        if crate::selection::str_eq(kinds[i].as_str(), t) {
            return Some(i);
        }
        i = i + 1;
    }
    None
}

/// The `(field, label)` pairs every entity offers to quick select.
pub open spec fn common_fields() -> Seq<(Seq<char>, Seq<char>)> {
    seq![
        ("layer"@, "Layer"@),
        ("color"@, "Color"@),
        ("linetype"@, "Linetype"@),
        ("lineweight"@, "Lineweight"@),
    ]
}

pub open spec fn pairs_view(v: Seq<(String, String)>) -> Seq<(Seq<char>, Seq<char>)> {
    v.map_values(|p: (String, String)| (p.0@, p.1@))
}

pub open spec fn row_fields(rows: Seq<PropRow>) -> Seq<(Seq<char>, Seq<char>)> {
    rows.map_values(|r: PropRow| (r.field@, r.label@))
}

/// The properties quick select offers: the common ones, then the rows of the
/// sample entity of the chosen type, when there is one.
pub fn qselect_properties(sample_rows: Option<&Vec<PropRow>>) -> (out: Vec<(String, String)>)
    ensures
        pairs_view(out@) == match sample_rows {
            Some(rs) => common_fields() + row_fields(rs@),
            None => common_fields(),
        },
{
    let mut out: Vec<(String, String)> = Vec::new();
    out.push((String::from_str("layer"), String::from_str("Layer")));
    out.push((String::from_str("color"), String::from_str("Color")));
    out.push((String::from_str("linetype"), String::from_str("Linetype")));
    out.push((String::from_str("lineweight"), String::from_str("Lineweight")));
    assert(pairs_view(out@) =~= common_fields());
    match sample_rows {
        None => {},
        Some(rs) => {
            let mut i: usize = 0;
            while i < rs.len()
                invariant
                    i <= rs@.len(),
                    pairs_view(out@) == common_fields() + row_fields(rs@.take(i as int)),
                decreases rs@.len() - i,
            {
                let f = rs[i].field.clone();
                let l = rs[i].label.clone();
                assert(f@ == rs@[i as int].field@ && l@ == rs@[i as int].label@);
                let ghost before = pairs_view(out@);
                out.push((f, l));
                assert(pairs_view(out@) =~= before.push((rs@[i as int].field@, rs@[i as int].label@)));
                assert(row_fields(rs@.take(i + 1)) =~= row_fields(rs@.take(i as int)).push(
                    (rs@[i as int].field@, rs@[i as int].label@),
                ));
                assert(pairs_view(out@) =~= common_fields() + row_fields(rs@.take(i + 1)));
                i = i + 1;
            }
            assert(rs@.take(rs@.len() as int) =~= rs@);
        },
    }
    out
}

/// Every entity has a quick-select value for each common field.
pub proof fn law_common_fields_have_values(c: CommonProps, rows: Option<Seq<PropRow>>, k: int)
    requires
        0 <= k < common_fields().len(),
    ensures
        spec_property_value(c, rows, common_fields()[k].0) is Some,
{
}

// ── handles in wire names ──────────────────────────────────────────────

pub open spec fn is_dec_digit(c: char) -> bool {
    '0' <= c && c <= '9'
}

/// Value of the decimal digits `s[lo..hi]`.
pub open spec fn dec_val(s: Seq<char>, lo: int, hi: int) -> int
    decreases hi - lo,
{
    if lo < hi {
        dec_val(s, lo, hi - 1) * 10 + (s[hi - 1] as int - '0' as int)
    } else {
        0
    }
}

/// `str::parse::<u64>`: an optional `+`, then at least one decimal digit and
/// nothing else, with a value that fits in `u64`.
pub open spec fn parse_u64(s: Seq<char>) -> Option<u64> {
    let b: int = if s.len() > 0 && s[0] == '+' {
        1
    } else {
        0
    };
    if b < s.len() && (forall|k: int| b <= k < s.len() ==> is_dec_digit(s[k])) && dec_val(
        s,
        b,
        s.len() as int,
    ) <= u64::MAX {
        Some(dec_val(s, b, s.len() as int) as u64)
    } else {
        None
    }
}

proof fn lemma_dec_val_mono(s: Seq<char>, lo: int, m: int, hi: int)
    requires
        lo <= m <= hi,
        forall|k: int| lo <= k < hi ==> is_dec_digit(s[k]),
    ensures
        0 <= dec_val(s, lo, m) <= dec_val(s, lo, hi),
    decreases hi - m,
{
    if m < hi {
        lemma_dec_val_mono(s, lo, m, hi - 1);
    } else {
        lemma_dec_val_nonneg(s, lo, m);
    }
}

proof fn lemma_dec_val_nonneg(s: Seq<char>, lo: int, hi: int)
    requires
        forall|k: int| lo <= k < hi ==> is_dec_digit(s[k]),
    ensures
        dec_val(s, lo, hi) >= 0,
    decreases hi - lo,
{
    if lo < hi {
        lemma_dec_val_nonneg(s, lo, hi - 1);
    }
}

/// The entity handle a wire is named by: the name read as a decimal `u64`.
pub fn handle_from_wire_name(name: &str) -> (h: Option<u64>)
    ensures
        h == parse_u64(name@),
{
    let s = str_chars(name);
    let n = s.len();
    let b: usize = if n > 0 && s[0] == '+' {
        1
    } else {
        0
    };
    if b >= n {
        return None;
    }
    let mut k = b;
    while k < n
        invariant
            s@ == name@,
            n == s@.len(),
            b <= k <= n,
            b == (if s@.len() > 0 && s@[0] == '+' { 1int } else { 0int }),
            forall|j: int| b <= j < k ==> is_dec_digit(s@[j]),
        decreases n - k,
    {
        if !('0' <= s[k] && s[k] <= '9') {
            assert(!is_dec_digit(s@[k as int]));
            return None;
        }
        k = k + 1;
    }
    let mut acc: u64 = 0;
    let mut k = b;
    while k < n
        invariant
            s@ == name@,
            n == s@.len(),
            b <= k <= n,
            b == (if s@.len() > 0 && s@[0] == '+' { 1int } else { 0int }),
            forall|j: int| b <= j < n ==> is_dec_digit(s@[j]),
            acc == dec_val(s@, b as int, k as int),
        decreases n - k,
    {
        let d: u64 = (s[k] as u64) - ('0' as u64);
        match acc.checked_mul(10) {
            Some(m) => match m.checked_add(d) {
                Some(v) => {
                    acc = v;
                },
                None => {
                    proof {
                        lemma_dec_val_mono(s@, b as int, k + 1, n as int);
                    }
                    return None;
                },
            },
            None => {
                proof {
                    lemma_dec_val_mono(s@, b as int, k + 1, n as int);
                    lemma_dec_val_nonneg(s@, b as int, k as int);
                    assert(dec_val(s@, b as int, k + 1) >= acc * 10);
                }
                return None;
            },
        }
        k = k + 1;
    }
    Some(acc)
}

/// Name of the wire drawn for entity `handle`: its decimal value.
pub fn wire_name(handle: u64) -> (s: String)
    ensures
        s@ == dec(handle as nat),
{
    let mut s = String::new();
    push_decimal(&mut s, handle);
    assert(s@ =~= dec(handle as nat));
    s
}

proof fn lemma_dec_digits(n: nat)
    ensures
        dec(n).len() >= 1,
        forall|k: int| 0 <= k < dec(n).len() ==> is_dec_digit(#[trigger] dec(n)[k]),
        dec_val(dec(n), 0, dec(n).len() as int) == n,
        dec(n)[0] != '+',
    decreases n,
{
    if n >= 10 {
        lemma_dec_digits(n / 10);
        let p = dec(n / 10);
        let d = dec(n);
        assert(d == p.push(digit_char((n % 10) as int)));
        assert forall|k: int| 0 <= k < d.len() implies is_dec_digit(#[trigger] d[k]) by {
            if k < p.len() {
                assert(d[k] == p[k]);
            }
        }
        lemma_dec_val_prefix(d, p.len() as int);
        assert(d.take(p.len() as int) =~= p);
        assert(dec_val(d, 0, p.len() as int) == dec_val(p, 0, p.len() as int));
        assert(d[0] == p[0]);
        assert(d[d.len() - 1] as int - '0' as int == n % 10);
        assert(dec_val(d, 0, d.len() as int) == dec_val(d, 0, p.len() as int) * 10 + (d[d.len() - 1] as int - '0' as int));
        assert((n / 10) * 10 + n % 10 == n);
    } else {
        assert(dec(n)[0] as int - '0' as int == n);
        assert(dec(n).len() == 1);
        assert(dec_val(dec(n), 0, 1) == dec_val(dec(n), 0, 0) * 10 + (dec(n)[0] as int - '0' as int));
    }
}

/// `dec_val` of a prefix only reads the prefix.
proof fn lemma_dec_val_prefix(d: Seq<char>, m: int)
    requires
        0 <= m <= d.len(),
    ensures
        dec_val(d, 0, m) == dec_val(d.take(m), 0, m),
    decreases m,
{
    if m > 0 {
        lemma_dec_val_prefix(d, m - 1);
        lemma_dec_val_take(d, m - 1, m);
        assert(d.take(m)[m - 1] == d[m - 1]);
    }
}

proof fn lemma_dec_val_take(d: Seq<char>, m: int, t: int)
    requires
        0 <= m <= t <= d.len(),
    ensures
        dec_val(d.take(t), 0, m) == dec_val(d.take(m), 0, m),
    decreases m,
{
    if m > 0 {
        lemma_dec_val_take(d, m - 1, t);
        lemma_dec_val_take(d, m - 1, m);
        assert(d.take(t)[m - 1] == d[m - 1]);
        assert(d.take(m)[m - 1] == d[m - 1]);
    }
}

/// Reading a wire name gives back the handle it was made from.
pub proof fn law_wire_name_round_trip(handle: u64)
    ensures
        parse_u64(dec(handle as nat)) == Some(handle),
{
    lemma_dec_digits(handle as nat);
}

} // verus!
