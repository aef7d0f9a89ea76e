//! Paper layouts: the block record a layout draws from, and the labels of its
//! viewports.
//!
//! A layout's block record is found from the layout's own link when the file
//! set it; otherwise from the conventional block-record names (`*Model_Space`,
//! then `*Paper_Space`, `*Paper_Space0`, `*Paper_Space1`, … by tab order), and
//! as a last resort by position among the paper layouts.

use vstd::prelude::*;
use crate::layouts::{LayoutRec, LayoutView, layouts_view, first_named, first_named_exec, model_name};
use crate::props::{dec, push_decimal, push_str};
use crate::lff::{trim, trim_span};
use crate::selection::{eq_ignore_case, str_eq};
use crate::text_codes::str_chars;
use crate::render_mode::RenderMode;
use crate::ownership::BlockRecordRec;

verus! {

// ── ordering ───────────────────────────────────────────────────────────

/// `a` sorts at or before `b`, comparing characters left to right (the order
/// of `String`).
pub open spec fn seq_le(a: Seq<char>, b: Seq<char>) -> bool
    decreases a.len(),
{
    if a.len() == 0 {
        true
    } else if b.len() == 0 {
        false
    } else if a[0] < b[0] {
        true
    } else if a[0] > b[0] {
        false
    } else {
        seq_le(a.drop_first(), b.drop_first())
    }
}

/// `x` inserted into `s` after every element `y` with `le(y, x)`.
pub open spec fn insert_sorted<T>(s: Seq<T>, x: T, le: spec_fn(T, T) -> bool) -> Seq<T>
    decreases s.len(),
{
    if s.len() == 0 {
        seq![x]
    } else if le(s.last(), x) {
        s.push(x)
    } else {
        insert_sorted(s.drop_last(), x, le).push(s.last())
    }
}

/// Stable sort by the total preorder `le`.
pub open spec fn sort_by<T>(s: Seq<T>, le: spec_fn(T, T) -> bool) -> Seq<T>
    decreases s.len(),
{
    if s.len() == 0 {
        Seq::empty()
    } else {
        insert_sorted(sort_by(s.drop_last(), le), s.last(), le)
    }
}

pub proof fn lemma_seq_le_total(a: Seq<char>, b: Seq<char>)
    ensures
        seq_le(a, b) || seq_le(b, a),
    decreases a.len(),
{
    if a.len() > 0 && b.len() > 0 && a[0] == b[0] {
        lemma_seq_le_total(a.drop_first(), b.drop_first());
    }
}

pub proof fn lemma_seq_le_antisymmetric(a: Seq<char>, b: Seq<char>)
    requires
        seq_le(a, b),
        seq_le(b, a),
    ensures
        a == b,
    decreases a.len(),
{
    if a.len() > 0 {
        lemma_seq_le_antisymmetric(a.drop_first(), b.drop_first());
        assert(a =~= seq![a[0]] + a.drop_first());
        assert(b =~= seq![b[0]] + b.drop_first());
    } else {
        assert(b.len() == 0);
        assert(a =~= b);
    }
}

pub proof fn lemma_seq_le_transitive(a: Seq<char>, b: Seq<char>, c: Seq<char>)
    requires
        seq_le(a, b),
        seq_le(b, c),
    ensures
        seq_le(a, c),
    decreases a.len(),
{
    if a.len() > 0 && b.len() > 0 && c.len() > 0 && a[0] == b[0] && b[0] == c[0] {
        lemma_seq_le_transitive(a.drop_first(), b.drop_first(), c.drop_first());
    }
}

pub fn str_le(a: &str, b: &str) -> (r: bool)
    ensures
        r == seq_le(a@, b@),
{
    let x = str_chars(a);
    let y = str_chars(b);
    let mut i: usize = 0;
    assert(a@.skip(0) =~= a@);
    assert(b@.skip(0) =~= b@);
    while i < x.len() && i < y.len() && x[i] == y[i]
        invariant
            x@ == a@,
            y@ == b@,
            i <= x@.len(),
            i <= y@.len(),
            seq_le(a@, b@) == seq_le(a@.skip(i as int), b@.skip(i as int)),
        decreases x@.len() - i,
    {
        proof {
            assert(a@.skip(i as int).drop_first() =~= a@.skip(i + 1));
            assert(b@.skip(i as int).drop_first() =~= b@.skip(i + 1));
        }
        i = i + 1;
    }
    if i == x.len() {
        true
    } else if i == y.len() {
        false
    } else {
        x[i] < y[i]
    }
}

// ── block records ──────────────────────────────────────────────────────

/// A block record: its handle, its name, and the handle of the layout it
/// holds the entities of (0: none).
pub struct BlockRecordInfo {
    pub handle: u64,
    pub name: String,
    pub layout: u64,
}

pub open spec fn paper_prefix() -> Seq<char> {
    seq!['*', 'P', 'a', 'p', 'e', 'r', '_', 'S', 'p', 'a', 'c', 'e']
}

/// The name starts with `*Paper_Space`, ignoring ASCII case.
pub open spec fn is_paper_space(name: Seq<char>) -> bool {
    name.len() >= 12 && eq_ignore_case(name.take(12), paper_prefix())
}

fn paper_space_name(name: &String) -> (r: bool)
    ensures
        r == is_paper_space(name@),
{
    let cs = str_chars(name.as_str());
    if cs.len() < 12 {
        return false;
    }
    let mut head = String::new();
    let mut i: usize = 0;
    while i < 12
        invariant
            cs@ == name@,
            cs@.len() >= 12,
            i <= 12,
            head@ == cs@.take(i as int),
        decreases 12 - i,
    {
        head.push(cs[i]);
        i = i + 1;
        assert(head@ =~= cs@.take(i as int));
    }
    proof {
        reveal_strlit("*Paper_Space");
        assert("*Paper_Space"@ =~= paper_prefix());
    }
    crate::selection::eq_ignore_ascii_case(head.as_str(), "*Paper_Space")
}

pub open spec fn model_prefix() -> Seq<char> {
    seq!['*', 'M', 'o', 'd', 'e', 'l', '_', 'S', 'p', 'a', 'c', 'e']
}

/// The name is `*Model_Space`, ignoring ASCII case.
pub open spec fn is_model_space(name: Seq<char>) -> bool {
    eq_ignore_case(name, model_prefix())
}

/// A block the user defined: not model or paper space, and no layout's.
pub open spec fn is_custom_block(r: BlockRecordInfo) -> bool {
    !is_model_space(r.name@) && !is_paper_space(r.name@) && r.layout == 0
}

/// Names of the user-defined blocks among `rs`, in order.
pub open spec fn custom_names(rs: Seq<BlockRecordInfo>) -> Seq<Seq<char>>
    decreases rs.len(),
{
    if rs.len() == 0 {
        Seq::empty()
    } else {
        let p = custom_names(rs.drop_last());
        if is_custom_block(rs.last()) {
            p.push(rs.last().name@)
        } else {
            p
        }
    }
}

/// Names of the user-defined blocks of the drawing, in record order.
pub fn custom_block_names(records: &Vec<BlockRecordInfo>) -> (names: Vec<String>)
    ensures
        names@.map_values(|s: String| s@) == custom_names(records@),
{
    let mut names: Vec<String> = Vec::new();
    let mut i: usize = 0;
    while i < records.len()
        invariant
            i <= records@.len(),
            names@.map_values(|s: String| s@) == custom_names(records@.take(i as int)),
        decreases records@.len() - i,
    {
        proof {
            assert(records@.take(i + 1).drop_last() =~= records@.take(i as int));
        }
        let r = &records[i];
        proof {
            reveal_strlit("*Model_Space");
            assert("*Model_Space"@ =~= model_prefix());
        }
        let model = crate::selection::eq_ignore_ascii_case(r.name.as_str(), "*Model_Space");
        if !model && !paper_space_name(&r.name) && r.layout == 0 {
            let n = r.name.clone();
            names.push(n);
            assert(names@.map_values(|s: String| s@) =~= custom_names(records@.take(i as int)).push(
                records@[i as int].name@,
            ));
        }
        i = i + 1;
    }
    assert(records@.take(records@.len() as int) =~= records@);
    names
}

/// The key a symbol table (blocks, layers, line types) files a name under.
pub uninterp spec fn normalized_name(s: Seq<char>) -> Seq<char>;

/// `acadrust::tables::normalize_name`: the key a symbol table stores and looks
/// up a name under. Its result is named, not stated; it depends on the name
/// alone.
#[verifier::external_body]
pub(crate) fn normalize_name(s: &str) -> (r: String)
    ensures
        r@ == normalized_name(s@),
{
    acadrust::tables::normalize_name(s)
}

/// Position of the first record whose name matches `name` as the table
/// compares names, or -1.
pub open spec fn lookup_pos(rs: Seq<BlockRecordInfo>, name: Seq<char>) -> int
    decreases rs.len(),
{
    if rs.len() == 0 {
        -1
    } else if normalized_name(rs[0].name@) == normalized_name(name) {
        0
    } else {
        let r = lookup_pos(rs.drop_first(), name);
        if r < 0 {
            -1
        } else {
            r + 1
        }
    }
}

proof fn lemma_lookup_pos(rs: Seq<BlockRecordInfo>, name: Seq<char>)
    ensures
        -1 <= lookup_pos(rs, name) < rs.len(),
        forall|i: int|
            0 <= i < rs.len() && (lookup_pos(rs, name) < 0 || i < lookup_pos(rs, name)) ==> normalized_name(
                rs[i].name@,
            ) != normalized_name(name),
        lookup_pos(rs, name) >= 0 ==> normalized_name(rs[lookup_pos(rs, name)].name@) == normalized_name(name),
    decreases rs.len(),
{
    if rs.len() > 0 && normalized_name(rs[0].name@) != normalized_name(name) {
        lemma_lookup_pos(rs.drop_first(), name);
        assert forall|i: int| 1 <= i < rs.len() implies rs[i] == rs.drop_first()[i - 1] by {}
    }
}

pub open spec fn keys_view(keys: Seq<String>) -> Seq<Seq<char>> {
    keys.map_values(|k: String| k@)
}

/// Position of the first of `keys` at or after `i` that equals `k`, or -1.
pub open spec fn key_from(keys: Seq<Seq<char>>, k: Seq<char>, i: int) -> int
    decreases keys.len() - i,
{
    if i < 0 || i >= keys.len() {
        -1
    } else if keys[i] == k {
        i
    } else {
        key_from(keys, k, i + 1)
    }
}

pub proof fn lemma_key_from(keys: Seq<Seq<char>>, k: Seq<char>, i: int)
    requires
        0 <= i,
    ensures
        -1 <= key_from(keys, k, i) < keys.len(),
        key_from(keys, k, i) >= 0 ==> i <= key_from(keys, k, i) && keys[key_from(keys, k, i)] == k,
        forall|j: int|
            i <= j < keys.len() && (key_from(keys, k, i) < 0 || j < key_from(keys, k, i)) ==> keys[j] != k,
    decreases keys.len() - i,
{
    if i < keys.len() && keys[i] != k {
        lemma_key_from(keys, k, i + 1);
    }
}

/// Position of the first of `keys` equal to `key`: how a symbol table finds a
/// name, once every name is turned into its key.
pub fn first_key_match(keys: &Vec<String>, key: &String) -> (r: Option<usize>)
    ensures
        r is Some <==> key_from(keys_view(keys@), key@, 0) >= 0,
        r is Some ==> r->0 == key_from(keys_view(keys@), key@, 0),
{
    let ghost kv = keys_view(keys@);
    let mut i: usize = 0;
    while i < keys.len()
        invariant
            i <= keys@.len(),
            kv == keys_view(keys@),
            key_from(kv, key@, i as int) == key_from(kv, key@, 0),
        decreases keys@.len() - i,
    {
        if str_eq(keys[i].as_str(), key.as_str()) {
            assert(kv[i as int] == key@);
            return Some(i);
        }
        i = i + 1;
    }
    None
}

/// The table keys of `names`, in order.
pub fn table_keys(names: &Vec<&str>) -> (keys: Vec<String>)
    ensures
        keys_view(keys@).len() == names@.len(),
        forall|j: int| 0 <= j < names@.len() ==> #[trigger] keys_view(keys@)[j] == normalized_name(names@[j]@),
{
    let mut keys: Vec<String> = Vec::new();
    let mut i: usize = 0;
    while i < names.len()
        invariant
            i <= names@.len(),
            keys@.len() == i,
            forall|j: int| 0 <= j < i ==> #[trigger] keys@[j]@ == normalized_name(names@[j]@),
        decreases names@.len() - i,
    {
        let k = normalize_name(names[i]);
        keys.push(k);
        i = i + 1;
    }
    assert forall|j: int| 0 <= j < names@.len() implies #[trigger] keys_view(keys@)[j] == normalized_name(
        names@[j]@,
    ) by {
        assert(keys@[j]@ == normalized_name(names@[j]@));
    }
    keys
}

/// Handle of the record named `name` (as the table compares names).
fn lookup(rs: &Vec<BlockRecordInfo>, name: &String) -> (r: Option<u64>)
    ensures
        r == (if lookup_pos(rs@, name@) >= 0 {
            Some(rs@[lookup_pos(rs@, name@)].handle)
        } else {
            None
        }),
{
    let mut names: Vec<&str> = Vec::new();
    let mut i: usize = 0;
    while i < rs.len()
        invariant
            i <= rs@.len(),
            names@.len() == i,
            forall|j: int| 0 <= j < i ==> #[trigger] names@[j]@ == rs@[j].name@,
        decreases rs@.len() - i,
    {
        names.push(rs[i].name.as_str());
        i = i + 1;
    }
    let keys = table_keys(&names);
    let key = normalize_name(name.as_str());
    let ghost kv = keys_view(keys@);
    proof {
        lemma_lookup_pos(rs@, name@);
        lemma_key_from(kv, key@, 0);
        assert forall|j: int| 0 <= j < rs@.len() implies #[trigger] kv[j] == normalized_name(rs@[j].name@) by {
            assert(names@[j]@ == rs@[j].name@);
        }
        let a = lookup_pos(rs@, name@);
        let b = key_from(kv, key@, 0);
        if a >= 0 && b >= 0 {
            assert(kv[a] == key@);
            assert(normalized_name(rs@[b].name@) == normalized_name(name@));
        } else if a >= 0 {
            assert(kv[a] == key@);
        } else if b >= 0 {
            assert(normalized_name(rs@[b].name@) == normalized_name(name@));
        }
        assert(a == b);
    }
    match first_key_match(&keys, &key) {
        Some(i) => Some(rs[i].handle),
        None => None,
    }
}

/// Conventional block-record name of a layout: `*Model_Space` for `Model`,
/// `*Paper_Space` for tab order 1 or less, `*Paper_Space<n>` for tab order
/// `n + 2`.
pub open spec fn conventional_name(current: Seq<char>, tab: i16) -> Seq<char> {
    if current == model_name() {
        seq!['*', 'M', 'o', 'd', 'e', 'l', '_', 'S', 'p', 'a', 'c', 'e']
    } else if tab <= 1 {
        paper_prefix()
    } else {
        paper_prefix() + dec((tab - 2) as nat)
    }
}

/// Paper layouts as `(tab order, name)`, in the given order.
pub open spec fn paper_layouts(ls: Seq<LayoutView>) -> Seq<(i16, Seq<char>)>
    decreases ls.len(),
{
    if ls.len() == 0 {
        Seq::empty()
    } else {
        let rest = paper_layouts(ls.drop_last());
        if ls.last().name != model_name() {
            rest.push((ls.last().tab_order, ls.last().name))
        } else {
            rest
        }
    }
}

/// `(tab, name)` order: by tab order, then by name.
pub open spec fn tab_name_le(a: (i16, Seq<char>), b: (i16, Seq<char>)) -> bool {
    a.0 < b.0 || (a.0 == b.0 && seq_le(a.1, b.1))
}

/// Paper-space block records as `(name, handle)`, in table order.
pub open spec fn paper_records(rs: Seq<BlockRecordInfo>) -> Seq<(Seq<char>, u64)>
    decreases rs.len(),
{
    if rs.len() == 0 {
        Seq::empty()
    } else {
        let rest = paper_records(rs.drop_last());
        if is_paper_space(rs.last().name@) {
            rest.push((rs.last().name@, rs.last().handle))
        } else {
            rest
        }
    }
}

pub open spec fn name_le(a: (Seq<char>, u64), b: (Seq<char>, u64)) -> bool {
    seq_le(a.0, b.0)
}

/// First position of a pair named `n`, or -1.
pub open spec fn pos_named(ps: Seq<(i16, Seq<char>)>, n: Seq<char>) -> int
    decreases ps.len(),
{
    if ps.len() == 0 {
        -1
    } else if ps[0].1 == n {
        0
    } else {
        let r = pos_named(ps.drop_first(), n);
        if r < 0 {
            -1
        } else {
            r + 1
        }
    }
}

/// Block record handle of layout `current` (0 when none is found).
pub open spec fn spec_layout_block(ls: Seq<LayoutRec>, rs: Seq<BlockRecordInfo>, current: Seq<char>) -> u64 {
    let lv = layouts_view(ls);
    let li = first_named(lv, current);
    if li < 0 {
        0
    } else if lv[li].block_record != 0 {
        lv[li].block_record
    } else {
        let p = lookup_pos(rs, conventional_name(current, lv[li].tab_order));
        if p >= 0 {
            rs[p].handle
        } else if current != model_name() {
            let prs = sort_by(paper_records(rs), |a: (Seq<char>, u64), b: (Seq<char>, u64)| name_le(a, b));
            let pls = sort_by(
                paper_layouts(lv),
                |a: (i16, Seq<char>), b: (i16, Seq<char>)| tab_name_le(a, b),
            );
            let pos = pos_named(pls, current);
            if 0 <= pos < prs.len() {
                prs[pos].1
            } else {
                0
            }
        } else {
            let q = lookup_pos(rs, seq!['*', 'M', 'o', 'd', 'e', 'l', '_', 'S', 'p', 'a', 'c', 'e']);
            if q >= 0 {
                rs[q].handle
            } else {
                0
            }
        }
    }
}

proof fn lemma_insert_sorted_at<T>(s: Seq<T>, x: T, le: spec_fn(T, T) -> bool, j: int)
    requires
        0 <= j <= s.len(),
        j == 0 || le(s[j - 1], x),
        forall|k: int| j <= k < s.len() ==> !le(s[k], x),
    ensures
        insert_sorted(s, x, le) == s.take(j).push(x) + s.skip(j),
    decreases s.len(),
{
    if s.len() == 0 {
        assert(s.take(j).push(x) + s.skip(j) =~= seq![x]);
    } else if j == s.len() {
        assert(s.take(j).push(x) + s.skip(j) =~= s.push(x));
    } else {
        let d = s.drop_last();
        assert forall|k: int| j <= k < d.len() implies !le(d[k], x) by {
            assert(d[k] == s[k]);
        }
        if j > 0 {
            assert(d[j - 1] == s[j - 1]);
        }
        lemma_insert_sorted_at(d, x, le, j);
        assert(d.take(j).push(x) + d.skip(j) + seq![s.last()] =~= s.take(j).push(x) + s.skip(j));
        assert((d.take(j).push(x) + d.skip(j)).push(s.last()) =~= d.take(j).push(x) + d.skip(j) + seq![s.last()]);
    }
}

pub open spec fn recs_view(v: Seq<(String, u64)>) -> Seq<(Seq<char>, u64)> {
    v.map_values(|e: (String, u64)| (e.0@, e.1))
}

pub open spec fn tabs_view(v: Seq<(i16, String)>) -> Seq<(i16, Seq<char>)> {
    v.map_values(|e: (i16, String)| (e.0, e.1@))
}

/// Inserts `x` as `insert_sorted` does under `name_le`.
#[verifier::loop_isolation(false)]
fn insert_by_name(v: &mut Vec<(String, u64)>, x: (String, u64))
    ensures
        recs_view(final(v)@) == insert_sorted(
            recs_view(old(v)@),
            (x.0@, x.1),
            |a: (Seq<char>, u64), b: (Seq<char>, u64)| name_le(a, b),
        ),
{
    let ghost le = |a: (Seq<char>, u64), b: (Seq<char>, u64)| name_le(a, b);
    let ghost sv = recs_view(v@);
    let mut j = v.len();
    while j > 0 && !str_le(v[j - 1].0.as_str(), x.0.as_str())
        invariant
            j <= v@.len(),
            sv == recs_view(v@),
            forall|k: int| j <= k < sv.len() ==> !le(sv[k], (x.0@, x.1)),
        decreases j,
    {
        assert(sv[j - 1] == (v@[j - 1].0@, v@[j - 1].1));
        assert(!le(sv[j - 1], (x.0@, x.1)));
        j = j - 1;
    }
    proof {
        if j > 0 {
            assert(sv[j - 1] == (v@[j - 1].0@, v@[j - 1].1));
            assert(le(sv[j - 1], (x.0@, x.1)));
        }
        lemma_insert_sorted_at(sv, (x.0@, x.1), le, j as int);
    }
    v.insert(j, x);
    assert(recs_view(v@) =~= sv.take(j as int).push((x.0@, x.1)) + sv.skip(j as int));
}

/// Inserts `x` as `insert_sorted` does under `tab_name_le`.
#[verifier::loop_isolation(false)]
fn insert_by_tab_name(v: &mut Vec<(i16, String)>, x: (i16, String))
    ensures
        tabs_view(final(v)@) == insert_sorted(
            tabs_view(old(v)@),
            (x.0, x.1@),
            |a: (i16, Seq<char>), b: (i16, Seq<char>)| tab_name_le(a, b),
        ),
{
    let ghost le = |a: (i16, Seq<char>), b: (i16, Seq<char>)| tab_name_le(a, b);
    let ghost sv = tabs_view(v@);
    let mut j = v.len();
    while j > 0 && !(v[j - 1].0 < x.0 || (v[j - 1].0 == x.0 && str_le(v[j - 1].1.as_str(), x.1.as_str())))
        invariant
            j <= v@.len(),
            sv == tabs_view(v@),
            forall|k: int| j <= k < sv.len() ==> !le(sv[k], (x.0, x.1@)),
        decreases j,
    {
        assert(sv[j - 1] == (v@[j - 1].0, v@[j - 1].1@));
        assert(!le(sv[j - 1], (x.0, x.1@)));
        j = j - 1;
    }
    proof {
        if j > 0 {
            assert(sv[j - 1] == (v@[j - 1].0, v@[j - 1].1@));
            assert(le(sv[j - 1], (x.0, x.1@)));
        }
        lemma_insert_sorted_at(sv, (x.0, x.1@), le, j as int);
    }
    v.insert(j, x);
    assert(tabs_view(v@) =~= sv.take(j as int).push((x.0, x.1@)) + sv.skip(j as int));
}

/// Paper-space records sorted by name.
#[verifier::loop_isolation(false)]
fn sorted_paper_records(rs: &Vec<BlockRecordInfo>) -> (v: Vec<(String, u64)>)
    ensures
        recs_view(v@) == sort_by(paper_records(rs@), |a: (Seq<char>, u64), b: (Seq<char>, u64)| name_le(a, b)),
{
    let ghost le = |a: (Seq<char>, u64), b: (Seq<char>, u64)| name_le(a, b);
    let mut v: Vec<(String, u64)> = Vec::new();
    let mut i: usize = 0;
    proof {
        assert(rs@.take(0) =~= Seq::<BlockRecordInfo>::empty());
        assert(recs_view(v@) =~= Seq::<(Seq<char>, u64)>::empty());
    }
    while i < rs.len()
        invariant
            i <= rs@.len(),
            recs_view(v@) == sort_by(paper_records(rs@.take(i as int)), le),
        decreases rs@.len() - i,
    {
        proof {
            assert(rs@.take(i + 1).drop_last() =~= rs@.take(i as int));
            assert(rs@.take(i + 1).last() == rs@[i as int]);
        }
        let ghost pr = paper_records(rs@.take(i as int));
        let ghost y = (rs@[i as int].name@, rs@[i as int].handle);
        if paper_space_name(&rs[i].name) {
            let nm = rs[i].name.clone();
            insert_by_name(&mut v, (nm, rs[i].handle));
            proof {
                assert(paper_records(rs@.take(i + 1)) == pr.push(y));
                assert(pr.push(y).drop_last() =~= pr);
                assert(sort_by(pr.push(y), le) == insert_sorted(sort_by(pr, le), y, le));
            }
        } else {
            assert(paper_records(rs@.take(i + 1)) == pr);
        }
        i = i + 1;
    }
    assert(rs@.take(rs@.len() as int) =~= rs@);
    v
}

/// Paper layouts sorted by tab order, then name.
#[verifier::loop_isolation(false)]
fn sorted_paper_layouts(ls: &Vec<LayoutRec>) -> (v: Vec<(i16, String)>)
    ensures
        tabs_view(v@) == sort_by(
            paper_layouts(layouts_view(ls@)),
            |a: (i16, Seq<char>), b: (i16, Seq<char>)| tab_name_le(a, b),
        ),
{
    let ghost le = |a: (i16, Seq<char>), b: (i16, Seq<char>)| tab_name_le(a, b);
    let ghost lv = layouts_view(ls@);
    let mut v: Vec<(i16, String)> = Vec::new();
    let mut i: usize = 0;
    proof {
        assert(lv.take(0) =~= Seq::<LayoutView>::empty());
        assert(tabs_view(v@) =~= Seq::<(i16, Seq<char>)>::empty());
    }
    while i < ls.len()
        invariant
            i <= ls@.len(),
            lv == layouts_view(ls@),
            tabs_view(v@) == sort_by(paper_layouts(lv.take(i as int)), le),
        decreases ls@.len() - i,
    {
        proof {
            assert(lv.take(i + 1).drop_last() =~= lv.take(i as int));
            assert(lv.take(i + 1).last() == lv[i as int]);
            reveal_strlit("Model");
            assert("Model"@ =~= model_name());
        }
        let ghost pl = paper_layouts(lv.take(i as int));
        let ghost y = (lv[i as int].tab_order, lv[i as int].name);
        if !str_eq(ls[i].name.as_str(), "Model") {
            let nm = ls[i].name.clone();
            insert_by_tab_name(&mut v, (ls[i].tab_order, nm));
            proof {
                assert(paper_layouts(lv.take(i + 1)) == pl.push(y));
                assert(pl.push(y).drop_last() =~= pl);
                assert(sort_by(pl.push(y), le) == insert_sorted(sort_by(pl, le), y, le));
            }
        } else {
            assert(paper_layouts(lv.take(i + 1)) == pl);
        }
        i = i + 1;
    }
    assert(lv.take(lv.len() as int) =~= lv);
    v
}

proof fn lemma_pos_named(ps: Seq<(i16, Seq<char>)>, n: Seq<char>)
    ensures
        -1 <= pos_named(ps, n) < ps.len(),
        pos_named(ps, n) >= 0 ==> ps[pos_named(ps, n)].1 == n,
        forall|i: int| 0 <= i < ps.len() && (pos_named(ps, n) < 0 || i < pos_named(ps, n)) ==> ps[i].1 != n,
    decreases ps.len(),
{
    if ps.len() > 0 && ps[0].1 != n {
        lemma_pos_named(ps.drop_first(), n);
        assert forall|i: int| 1 <= i < ps.len() implies ps[i] == ps.drop_first()[i - 1] by {}
    }
}

fn conventional_block_name(current: &str, tab: i16) -> (s: String)
    ensures
        s@ == conventional_name(current@, tab),
{
    proof {
        reveal_strlit("Model");
        assert("Model"@ =~= model_name());
        reveal_strlit("*Model_Space");
        reveal_strlit("*Paper_Space");
        assert("*Paper_Space"@ =~= paper_prefix());
    }
    if str_eq(current, "Model") {
        let s = String::from_str("*Model_Space");
        assert(s@ =~= seq!['*', 'M', 'o', 'd', 'e', 'l', '_', 'S', 'p', 'a', 'c', 'e']);
        s
    } else if tab <= 1 {
        String::from_str("*Paper_Space")
    } else {
        let mut s = String::from_str("*Paper_Space");
        push_decimal(&mut s, (tab - 2) as u64);
        s
    }
}

/// The block record layout `current` draws from: the layout's own link when
/// set; else the record with the conventional name; else, for a paper layout,
/// the paper-space record at the layout's position among the paper layouts
/// (records sorted by name, layouts by tab order then name); 0 when none.
#[verifier::loop_isolation(false)]
pub fn current_layout_block_handle(
    layouts: &Vec<LayoutRec>,
    records: &Vec<BlockRecordInfo>,
    current: &str,
) -> (h: u64)
    ensures
        h == spec_layout_block(layouts@, records@, current@),
{
    let ghost lv = layouts_view(layouts@);
    let li = match first_named_exec(layouts, current) {
        Some(i) => i,
        None => {
            return 0;
        },
    };
    if layouts[li].block_record != 0 {
        return layouts[li].block_record;
    }
    let br_name = conventional_block_name(current, layouts[li].tab_order);
    match lookup(records, &br_name) {
        Some(h) => {
            return h;
        },
        None => {},
    }
    proof {
        reveal_strlit("Model");
        assert("Model"@ =~= model_name());
    }
    if !str_eq(current, "Model") {
        let prs = sorted_paper_records(records);
        let pls = sorted_paper_layouts(layouts);
        let ghost plv = tabs_view(pls@);
        proof {
            lemma_pos_named(plv, current@);
        }
        let mut k: usize = 0;
        while k < pls.len()
            invariant
                k <= pls@.len(),
                plv == tabs_view(pls@),
                forall|j: int| 0 <= j < k ==> plv[j].1 != current@,
                -1 <= pos_named(plv, current@) < plv.len(),
                pos_named(plv, current@) >= 0 ==> plv[pos_named(plv, current@)].1 == current@,
                forall|j: int|
                    0 <= j < plv.len() && (pos_named(plv, current@) < 0 || j < pos_named(plv, current@))
                        ==> plv[j].1 != current@,
            decreases pls@.len() - k,
        {
            if str_eq(pls[k].1.as_str(), current) {
                assert(plv[k as int].1 == pls@[k as int].1@);
                assert(pos_named(plv, current@) == k);
                if k < prs.len() {
                    return prs[k].1;
                }
                return 0;
            }
            k = k + 1;
        }
        return 0;
    }
    let model_space = String::from_str("*Model_Space");
    proof {
        reveal_strlit("*Model_Space");
        assert(model_space@ =~= seq!['*', 'M', 'o', 'd', 'e', 'l', '_', 'S', 'p', 'a', 'c', 'e']);
    }
    match lookup(records, &model_space) {
        Some(h) => h,
        None => 0,
    }
}

// ── viewports of a paper layout ────────────────────────────────────────

/// A viewport entity of the drawing.
pub struct ViewportInfo {
    pub handle: u64,
    /// Viewport id: 1 is the sheet viewport, 2 and up are user viewports,
    /// 0 or less is unknown.
    pub id: i16,
    pub owner: u64,
    /// Its center lies within half a unit of the paper origin on both axes.
    pub centered: bool,
    /// It is switched on.
    pub on: bool,
    /// How it renders its model content.
    pub render_mode: RenderMode,
    /// Handles of the layers frozen in this viewport.
    pub frozen_layers: Vec<u64>,
}

/// `vp` shows model content in the layout drawn from block `block` whose sheet
/// viewport is `sheet` (0 when the layout names none): it is owned by the block,
/// and it is not the sheet viewport — told by handle when the sheet is known,
/// else by id, and for an unknown id by a center away from the paper origin.
pub open spec fn is_content(vp: ViewportInfo, block: u64, sheet: u64) -> bool {
    vp.owner == block && if sheet != 0 {
        vp.handle != sheet
    } else {
        vp.id != 1 && (vp.id > 1 || !vp.centered)
    }
}

/// Label of the `i`-th content viewport: `VP <id - 1>` for a user id, else
/// `VP <i + 1>`.
pub open spec fn vp_label(id: i16, i: int) -> Seq<char> {
    seq!['V', 'P', ' '] + if id > 1 {
        dec((id - 1) as nat)
    } else {
        dec((i + 1) as nat)
    }
}

/// Content viewports of `vps` as `(handle, id, frozen layers)`, in order.
pub open spec fn content_vps(vps: Seq<ViewportInfo>, block: u64, sheet: u64) -> Seq<(u64, i16, Seq<u64>)>
    decreases vps.len(),
{
    if vps.len() == 0 {
        Seq::empty()
    } else {
        let rest = content_vps(vps.drop_last(), block, sheet);
        if is_content(vps.last(), block, sheet) {
            rest.push((vps.last().handle, vps.last().id, vps.last().frozen_layers@))
        } else {
            rest
        }
    }
}

/// `(handle, label, frozen layers)` of each content viewport, labelled by
/// position.
pub open spec fn labelled(cs: Seq<(u64, i16, Seq<u64>)>) -> Seq<(u64, Seq<char>, Seq<u64>)> {
    Seq::new(cs.len(), |i: int| (cs[i].0, vp_label(cs[i].1, i), cs[i].2))
}

pub open spec fn label_le(a: (u64, Seq<char>, Seq<u64>), b: (u64, Seq<char>, Seq<u64>)) -> bool {
    seq_le(a.1, b.1)
}

/// Viewport list of layout `current`: none in `Model` or when the layout has no
/// block record; else its content viewports with their labels and frozen
/// layers, sorted by label.
pub open spec fn spec_viewport_list(
    ls: Seq<LayoutRec>,
    rs: Seq<BlockRecordInfo>,
    current: Seq<char>,
    vps: Seq<ViewportInfo>,
    sheet: u64,
) -> Seq<(u64, Seq<char>, Seq<u64>)> {
    let block = spec_layout_block(ls, rs, current);
    if current == model_name() || block == 0 {
        Seq::empty()
    } else {
        sort_by(
            labelled(content_vps(vps, block, sheet)),
            |a: (u64, Seq<char>, Seq<u64>), b: (u64, Seq<char>, Seq<u64>)| label_le(a, b),
        )
    }
}

pub open spec fn labels_view(v: Seq<(u64, String, Vec<u64>)>) -> Seq<(u64, Seq<char>, Seq<u64>)> {
    v.map_values(|e: (u64, String, Vec<u64>)| (e.0, e.1@, e.2@))
}

/// Whether `vp` shows model content, judged by itself: id 1 is the sheet
/// viewport, ids 2 and up are user viewports, and for an unknown id (0 or
/// less) a center away from the paper origin marks a user viewport.
pub fn is_content_viewport(vp: &ViewportInfo) -> (r: bool)
    ensures
        r == (vp.id != 1 && (vp.id > 1 || !vp.centered)),
{
    if vp.id == 1 {
        return false;
    }
    if vp.id > 1 {
        return true;
    }
    !vp.centered
}

/// Whether `vp` is a user viewport of the layout drawn from block `block`,
/// whose sheet viewport is `sheet` (0: none known).
pub fn is_content_viewport_in_layout(vp: &ViewportInfo, block: u64, sheet: u64) -> (r: bool)
    ensures
        r == is_content(*vp, block, sheet),
{
    if vp.owner != block {
        return false;
    }
    if sheet != 0 {
        vp.handle != sheet
    } else {
        is_content_viewport(vp)
    }
}

#[verifier::loop_isolation(false)]
fn insert_by_label(v: &mut Vec<(u64, String, Vec<u64>)>, x: (u64, String, Vec<u64>))
    ensures
        labels_view(final(v)@) == insert_sorted(
            labels_view(old(v)@),
            (x.0, x.1@, x.2@),
            |a: (u64, Seq<char>, Seq<u64>), b: (u64, Seq<char>, Seq<u64>)| label_le(a, b),
        ),
{
    let ghost le = |a: (u64, Seq<char>, Seq<u64>), b: (u64, Seq<char>, Seq<u64>)| label_le(a, b);
    let ghost sv = labels_view(v@);
    let mut j = v.len();
    while j > 0 && !str_le(v[j - 1].1.as_str(), x.1.as_str())
        invariant
            j <= v@.len(),
            sv == labels_view(v@),
            forall|k: int| j <= k < sv.len() ==> !le(sv[k], (x.0, x.1@, x.2@)),
        decreases j,
    {
        assert(sv[j - 1] == (v@[j - 1].0, v@[j - 1].1@, v@[j - 1].2@));
        j = j - 1;
    }
    proof {
        if j > 0 {
            assert(sv[j - 1] == (v@[j - 1].0, v@[j - 1].1@, v@[j - 1].2@));
        }
        lemma_insert_sorted_at(sv, (x.0, x.1@, x.2@), le, j as int);
    }
    v.insert(j, x);
    assert(labels_view(v@) =~= sv.take(j as int).push((x.0, x.1@, x.2@)) + sv.skip(j as int));
}

/// Sheet viewport of the first layout named `current` (0: none).
pub open spec fn spec_sheet(ls: Seq<LayoutRec>, current: Seq<char>) -> u64 {
    let i = first_named(layouts_view(ls), current);
    if i >= 0 {
        ls[i].viewport
    } else {
        0
    }
}

/// The sheet viewport handle of layout `current`, 0 when it has none.
pub fn sheet_viewport_handle(layouts: &Vec<LayoutRec>, current: &str) -> (h: u64)
    ensures
        h == spec_sheet(layouts@, current@),
{
    match first_named_exec(layouts, current) {
        Some(i) => layouts[i].viewport,
        None => 0,
    }
}

/// The viewports of layout `current` with their labels and the layers frozen
/// in them, sorted by label.
#[verifier::loop_isolation(false)]
pub fn viewport_list(
    layouts: &Vec<LayoutRec>,
    records: &Vec<BlockRecordInfo>,
    current: &str,
    vps: &Vec<ViewportInfo>,
) -> (r: Vec<(u64, String, Vec<u64>)>)
    ensures
        labels_view(r@) == spec_viewport_list(
            layouts@,
            records@,
            current@,
            vps@,
            spec_sheet(layouts@, current@),
        ),
{
    let ghost le = |a: (u64, Seq<char>, Seq<u64>), b: (u64, Seq<char>, Seq<u64>)| label_le(a, b);
    let mut out: Vec<(u64, String, Vec<u64>)> = Vec::new();
    proof {
        reveal_strlit("Model");
        assert("Model"@ =~= model_name());
        assert(labels_view(out@) =~= Seq::<(u64, Seq<char>, Seq<u64>)>::empty());
    }
    if str_eq(current, "Model") {
        return out;
    }
    let block = current_layout_block_handle(layouts, records, current);
    if block == 0 {
        return out;
    }
    let sheet = sheet_viewport_handle(layouts, current);
    // content viewports in order, numbered as they come
    let ghost all = content_vps(vps@, block, sheet);
    let mut n: usize = 0;
    let mut i: usize = 0;
    proof {
        assert(vps@.take(0) =~= Seq::<ViewportInfo>::empty());
    }
    while i < vps.len()
        invariant
            i <= vps@.len(),
            n == content_vps(vps@.take(i as int), block, sheet).len(),
            n <= i,
            labels_view(out@) == sort_by(labelled(content_vps(vps@.take(i as int), block, sheet)), le),
        decreases vps@.len() - i,
    {
        let vp = &vps[i];
        let ghost cs = content_vps(vps@.take(i as int), block, sheet);
        proof {
            assert(vps@.take(i + 1).drop_last() =~= vps@.take(i as int));
            assert(vps@.take(i + 1).last() == *vp);
        }
        if is_content_viewport_in_layout(vp, block, sheet) {
            let mut label = String::from_str("VP ");
            proof {
                reveal_strlit("VP ");
                assert("VP "@ =~= seq!['V', 'P', ' ']);
            }
            if vp.id > 1 {
                push_decimal(&mut label, (vp.id - 1) as u64);
            } else {
                push_decimal(&mut label, (n + 1) as u64);
            }
            let frozen = vp.frozen_layers.clone();
            let ghost y = (vp.handle, label@, frozen@);
            let ghost cs2 = cs.push((vp.handle, vp.id, vp.frozen_layers@));
            proof {
                assert(content_vps(vps@.take(i + 1), block, sheet) == cs2);
                assert(y.1 == vp_label(vp.id, n as int));
                assert(labelled(cs2) =~= labelled(cs).push(y));
                assert(labelled(cs).push(y).drop_last() =~= labelled(cs));
                assert(sort_by(labelled(cs).push(y), le) == insert_sorted(sort_by(labelled(cs), le), y, le));
            }
            insert_by_label(&mut out, (vp.handle, label, frozen));
            n = n + 1;
        } else {
            assert(content_vps(vps@.take(i + 1), block, sheet) == cs);
        }
        i = i + 1;
    }
    proof {
        assert(vps@.take(vps@.len() as int) =~= vps@);
    }
    out
}


/// Number of user viewports of layout `current`: none in `Model` or when the
/// layout has no block record.
pub open spec fn spec_viewport_count(
    ls: Seq<LayoutRec>,
    rs: Seq<BlockRecordInfo>,
    current: Seq<char>,
    vps: Seq<ViewportInfo>,
) -> nat {
    let block = spec_layout_block(ls, rs, current);
    if current == model_name() || block == 0 {
        0
    } else {
        content_vps(vps, block, spec_sheet(ls, current)).len()
    }
}

/// How many user viewports layout `current` has.
pub fn viewport_count(
    layouts: &Vec<LayoutRec>,
    records: &Vec<BlockRecordInfo>,
    current: &str,
    vps: &Vec<ViewportInfo>,
) -> (n: usize)
    ensures
        n == spec_viewport_count(layouts@, records@, current@, vps@),
{
    proof {
        reveal_strlit("Model");
        assert("Model"@ =~= model_name());
    }
    if str_eq(current, "Model") {
        return 0;
    }
    let block = current_layout_block_handle(layouts, records, current);
    if block == 0 {
        return 0;
    }
    let sheet = sheet_viewport_handle(layouts, current);
    let mut n: usize = 0;
    let mut i: usize = 0;
    while i < vps.len()
        invariant
            i <= vps@.len(),
            n == content_vps(vps@.take(i as int), block, sheet).len(),
            n <= i,
        decreases vps@.len() - i,
    {
        proof {
            assert(vps@.take(i + 1).drop_last() =~= vps@.take(i as int));
        }
        if is_content_viewport_in_layout(&vps[i], block, sheet) {
            n = n + 1;
        }
        i = i + 1;
    }
    assert(vps@.take(vps@.len() as int) =~= vps@);
    n
}

/// Position of the first viewport at or after `i` that is a switched-on user
/// viewport of block `block`, or -1.
pub open spec fn first_on_content(vps: Seq<ViewportInfo>, block: u64, sheet: u64, i: int) -> int
    decreases vps.len() - i,
{
    if i < 0 || i >= vps.len() {
        -1
    } else if is_content(vps[i], block, sheet) && vps[i].on {
        i
    } else {
        first_on_content(vps, block, sheet, i + 1)
    }
}

/// The first switched-on user viewport of layout `current`.
pub open spec fn spec_first_user_viewport(
    ls: Seq<LayoutRec>,
    rs: Seq<BlockRecordInfo>,
    current: Seq<char>,
    vps: Seq<ViewportInfo>,
) -> Option<u64> {
    let p = first_on_content(vps, spec_layout_block(ls, rs, current), spec_sheet(ls, current), 0);
    if p >= 0 {
        Some(vps[p].handle)
    } else {
        None
    }
}

/// The handle of the first switched-on user viewport of layout `current`.
pub fn first_user_viewport(
    layouts: &Vec<LayoutRec>,
    records: &Vec<BlockRecordInfo>,
    current: &str,
    vps: &Vec<ViewportInfo>,
) -> (r: Option<u64>)
    ensures
        r == spec_first_user_viewport(layouts@, records@, current@, vps@),
{
    let block = current_layout_block_handle(layouts, records, current);
    let sheet = sheet_viewport_handle(layouts, current);
    let mut i: usize = 0;
    while i < vps.len()
        invariant
            i <= vps@.len(),
            block == spec_layout_block(layouts@, records@, current@),
            sheet == spec_sheet(layouts@, current@),
            first_on_content(vps@, block, sheet, i as int) == first_on_content(vps@, block, sheet, 0),
        decreases vps@.len() - i,
    {
        if is_content_viewport_in_layout(&vps[i], block, sheet) && vps[i].on {
            return Some(vps[i].handle);
        }
        i = i + 1;
    }
    None
}

/// Position of the first layout at or after `i` named `Model` with a block
/// record, or -1.
pub open spec fn model_linked_from(ls: Seq<LayoutRec>, i: int) -> int
    decreases ls.len() - i,
{
    if i < 0 || i >= ls.len() {
        -1
    } else if ls[i].name@ == model_name() && ls[i].block_record != 0 {
        i
    } else {
        model_linked_from(ls, i + 1)
    }
}

/// The model-space block record: the one a `Model` layout links, else the
/// record named `*Model_Space` as the table looks names up, else 0.
pub open spec fn spec_model_space_block(ls: Seq<LayoutRec>, rs: Seq<BlockRecordInfo>) -> u64 {
    let i = model_linked_from(ls, 0);
    if i >= 0 {
        ls[i].block_record
    } else {
        let p = lookup_pos(rs, model_prefix());
        if p >= 0 {
            rs[p].handle
        } else {
            0
        }
    }
}

/// Handle of the model-space block record.
pub fn model_space_block_handle(layouts: &Vec<LayoutRec>, records: &Vec<BlockRecordInfo>) -> (h: u64)
    ensures
        h == spec_model_space_block(layouts@, records@),
{
    proof {
        reveal_strlit("Model");
        assert("Model"@ =~= model_name());
    }
    let mut i: usize = 0;
    while i < layouts.len()
        invariant
            i <= layouts@.len(),
            "Model"@ == model_name(),
            model_linked_from(layouts@, i as int) == model_linked_from(layouts@, 0),
        decreases layouts@.len() - i,
    {
        if str_eq(layouts[i].name.as_str(), "Model") && layouts[i].block_record != 0 {
            return layouts[i].block_record;
        }
        i = i + 1;
    }
    let model_space = String::from_str("*Model_Space");
    proof {
        reveal_strlit("*Model_Space");
        assert(model_space@ =~= model_prefix());
    }
    match lookup(records, &model_space) {
        Some(h) => h,
        None => 0,
    }
}

/// Position of the first record at or after `i` with handle `h`, or -1.
pub open spec fn rec_from(brs: Seq<BlockRecordRec>, h: u64, i: int) -> int
    decreases brs.len() - i,
{
    if i < 0 || i >= brs.len() {
        -1
    } else if brs[i].handle == h {
        i
    } else {
        rec_from(brs, h, i + 1)
    }
}

/// The entities of the current layout: those its block record lists, none
/// when no record has the layout's block handle.
pub open spec fn spec_layout_entities(
    ls: Seq<LayoutRec>,
    rs: Seq<BlockRecordInfo>,
    brs: Seq<BlockRecordRec>,
    current: Seq<char>,
) -> Seq<u64> {
    let p = rec_from(brs, spec_layout_block(ls, rs, current), 0);
    if p >= 0 {
        brs[p].entity_handles@
    } else {
        Seq::empty()
    }
}

/// Handles of the entities of layout `current`, as its block record lists
/// them.
pub fn current_layout_entity_handles(
    layouts: &Vec<LayoutRec>,
    records: &Vec<BlockRecordInfo>,
    brs: &Vec<BlockRecordRec>,
    current: &str,
) -> (r: Vec<u64>)
    ensures
        r@ == spec_layout_entities(layouts@, records@, brs@, current@),
{
    let block = current_layout_block_handle(layouts, records, current);
    let mut i: usize = 0;
    while i < brs.len()
        invariant
            i <= brs@.len(),
            block == spec_layout_block(layouts@, records@, current@),
            rec_from(brs@, block, i as int) == rec_from(brs@, block, 0),
        decreases brs@.len() - i,
    {
        if brs[i].handle == block {
            return brs[i].entity_handles.clone();
        }
        i = i + 1;
    }
    Vec::new()
}

/// First user viewport of layout `current`: none in `Model` or without a block
/// record.
pub open spec fn spec_first_viewport(
    ls: Seq<LayoutRec>,
    rs: Seq<BlockRecordInfo>,
    current: Seq<char>,
    vps: Seq<ViewportInfo>,
) -> Option<u64> {
    let block = spec_layout_block(ls, rs, current);
    let cs = content_vps(vps, block, spec_sheet(ls, current));
    if current == model_name() || block == 0 || cs.len() == 0 {
        None
    } else {
        Some(cs[0].0)
    }
}

/// The handle of the first user viewport of layout `current`.
pub fn first_viewport_handle(
    layouts: &Vec<LayoutRec>,
    records: &Vec<BlockRecordInfo>,
    current: &str,
    vps: &Vec<ViewportInfo>,
) -> (r: Option<u64>)
    ensures
        r == spec_first_viewport(layouts@, records@, current@, vps@),
{
    proof {
        reveal_strlit("Model");
        assert("Model"@ =~= model_name());
    }
    if str_eq(current, "Model") {
        return None;
    }
    let block = current_layout_block_handle(layouts, records, current);
    if block == 0 {
        return None;
    }
    let sheet = sheet_viewport_handle(layouts, current);
    let mut i: usize = 0;
    while i < vps.len()
        invariant
            i <= vps@.len(),
            current@ != model_name(),
            block != 0,
            block == spec_layout_block(layouts@, records@, current@),
            sheet == spec_sheet(layouts@, current@),
            content_vps(vps@.take(i as int), block, sheet).len() == 0,
        decreases vps@.len() - i,
    {
        proof {
            assert(vps@.take(i + 1).drop_last() =~= vps@.take(i as int));
        }
        if is_content_viewport_in_layout(&vps[i], block, sheet) {
            proof {
                lemma_content_prefix(vps@, block, sheet, i + 1);
                assert(content_vps(vps@.take(i + 1), block, sheet) =~= seq![(vps@[i as int].handle, vps@[i as int].id, vps@[i as int].frozen_layers@)]);
            }
            return Some(vps[i].handle);
        }
        i = i + 1;
    }
    assert(vps@.take(vps@.len() as int) =~= vps@);
    None
}

/// The content viewports of a prefix come first among those of the whole.
proof fn lemma_content_prefix(vps: Seq<ViewportInfo>, block: u64, sheet: u64, k: int)
    requires
        0 <= k <= vps.len(),
    ensures
        content_vps(vps.take(k), block, sheet).len() <= content_vps(vps, block, sheet).len(),
        forall|j: int|
            0 <= j < content_vps(vps.take(k), block, sheet).len() ==> #[trigger] content_vps(vps, block, sheet)[j]
                == content_vps(vps.take(k), block, sheet)[j],
    decreases vps.len() - k,
{
    if k < vps.len() {
        lemma_content_prefix(vps, block, sheet, k + 1);
        assert(vps.take(k + 1).drop_last() =~= vps.take(k));
    } else {
        assert(vps.take(k) =~= vps);
    }
}

/// Position of the first viewport with handle `h`, or -1.
pub open spec fn vp_from(vps: Seq<ViewportInfo>, h: u64, i: int) -> int
    decreases vps.len() - i,
{
    if i < 0 || i >= vps.len() {
        -1
    } else if vps[i].handle == h {
        i
    } else {
        vp_from(vps, h, i + 1)
    }
}

fn find_viewport(vps: &Vec<ViewportInfo>, h: u64) -> (r: Option<usize>)
    ensures
        r is Some <==> vp_from(vps@, h, 0) >= 0,
        r is Some ==> r->0 == vp_from(vps@, h, 0) && r->0 < vps@.len(),
{
    let mut i: usize = 0;
    while i < vps.len()
        invariant
            i <= vps@.len(),
            vp_from(vps@, h, i as int) == vp_from(vps@, h, 0),
        decreases vps@.len() - i,
    {
        if vps[i].handle == h {
            return Some(i);
        }
        i = i + 1;
    }
    None
}

/// Render mode of the active viewport `active`: none when no viewport is
/// active or none has its handle.
pub open spec fn spec_active_render_mode(active: Option<u64>, vps: Seq<ViewportInfo>) -> Option<RenderMode> {
    match active {
        None => None,
        Some(h) => {
            let p = vp_from(vps, h, 0);
            if p >= 0 {
                Some(vps[p].render_mode)
            } else {
                None
            }
        },
    }
}

/// The render mode of the active viewport.
pub fn active_viewport_render_mode(active: Option<u64>, vps: &Vec<ViewportInfo>) -> (r: Option<RenderMode>)
    ensures
        r == spec_active_render_mode(active, vps@),
{
    match active {
        None => None,
        Some(h) => match find_viewport(vps, h) {
            Some(i) => Some(vps[i].render_mode),
            None => None,
        },
    }
}

/// Sets the render mode of the active viewport; `false`, changing nothing,
/// when no viewport is active or none has its handle.
pub fn set_active_viewport_render_mode(
    active: Option<u64>,
    vps: &mut Vec<ViewportInfo>,
    mode: RenderMode,
) -> (done: bool)
    ensures
        done == (spec_active_render_mode(active, old(vps)@) is Some),
        done ==> final(vps)@ == old(vps)@.update(
            vp_from(old(vps)@, active->0, 0),
            ViewportInfo { render_mode: mode, ..old(vps)@[vp_from(old(vps)@, active->0, 0)] },
        ),
        !done ==> final(vps)@ == old(vps)@,
{
    match active {
        None => false,
        Some(h) => match find_viewport(vps, h) {
            Some(i) => {
                let ghost v0 = vps@;
                vps[i].render_mode = mode;
                assert(vps@ =~= v0.update(i as int, ViewportInfo { render_mode: mode, ..v0[i as int] }));
                true
            },
            None => false,
        },
    }
}

/// The name a new block made from `n_entities` selected entities gets:
/// `name` with white space trimmed; or why it cannot be made.
pub open spec fn spec_new_block_name(name: Seq<char>, rs: Seq<BlockRecordInfo>, n_entities: nat) -> Result<
    Seq<char>,
    Seq<char>,
> {
    let t = trim(name, 0, name.len() as int);
    let n = name.subrange(t.0, t.1);
    if n.len() == 0 {
        Err("Block name cannot be empty."@)
    } else if n[0] == '*' {
        Err("Block name cannot start with '*'."@)
    } else if lookup_pos(rs, n) >= 0 {
        Err("Block \""@ + n + "\" already exists."@)
    } else if n_entities == 0 {
        Err("No valid entities selected for block creation."@)
    } else {
        Ok(n)
    }
}

/// Checks a new block's name against the block table, given how many of the
/// selected handles name entities; the trimmed name, or the message to show.
pub fn new_block_name(name: &str, records: &Vec<BlockRecordInfo>, n_entities: usize) -> (r: Result<
    String,
    String,
>)
    ensures
        match r {
            Ok(s) => spec_new_block_name(name@, records@, n_entities as nat) == Ok::<Seq<char>, Seq<char>>(s@),
            Err(e) => spec_new_block_name(name@, records@, n_entities as nat) == Err::<Seq<char>, Seq<char>>(e@),
        },
{
    let cs = str_chars(name);
    let t = trim_span(&cs, 0, cs.len());
    let mut n = String::new();
    let mut i = t.0;
    while i < t.1
        invariant
            t.0 <= i <= t.1 <= cs@.len(),
            n@ == cs@.subrange(t.0 as int, i as int),
        decreases t.1 - i,
    {
        n.push(cs[i]);
        i = i + 1;
        assert(n@ =~= cs@.subrange(t.0 as int, i as int));
    }
    if t.1 == t.0 {
        return Err(String::from_str("Block name cannot be empty."));
    }
    if cs[t.0] == '*' {
        return Err(String::from_str("Block name cannot start with '*'."));
    }
    if lookup(records, &n).is_some() {
        let mut e = String::from_str("Block \"");
        push_str(&mut e, n.as_str());
        push_str(&mut e, "\" already exists.");
        return Err(e);
    }
    if n_entities == 0 {
        return Err(String::from_str("No valid entities selected for block creation."));
    }
    Ok(n)
}

/// Whether one of the drawing's viewports `vps` is selected.
pub fn has_selected_viewport(selection: &crate::selection::Selection, vps: &Vec<ViewportInfo>) -> (r: bool)
    ensures
        r == exists|i: int| 0 <= i < vps@.len() && selection.selected@.contains(#[trigger] vps@[i].handle),
{
    let mut i: usize = 0;
    while i < vps.len()
        invariant
            i <= vps@.len(),
            forall|j: int| 0 <= j < i ==> !selection.selected@.contains(#[trigger] vps@[j].handle),
        decreases vps@.len() - i,
    {
        if selection.selected.contains(&vps[i].handle) {
            return true;
        }
        i = i + 1;
    }
    false
}

// ── laws ───────────────────────────────────────────────────────────────

proof fn lemma_insert_sorted_len<T>(s: Seq<T>, x: T, le: spec_fn(T, T) -> bool)
    ensures
        insert_sorted(s, x, le).len() == s.len() + 1,
    decreases s.len(),
{
    if s.len() > 0 && !le(s.last(), x) {
        lemma_insert_sorted_len(s.drop_last(), x, le);
    }
}

proof fn lemma_sort_by_len<T>(s: Seq<T>, le: spec_fn(T, T) -> bool)
    ensures
        sort_by(s, le).len() == s.len(),
    decreases s.len(),
{
    if s.len() > 0 {
        lemma_sort_by_len(s.drop_last(), le);
        lemma_insert_sorted_len(sort_by(s.drop_last(), le), s.last(), le);
    }
}

/// A layout has a first user viewport exactly when it has user viewports.
pub proof fn law_first_viewport_iff_count(
    ls: Seq<LayoutRec>,
    rs: Seq<BlockRecordInfo>,
    current: Seq<char>,
    vps: Seq<ViewportInfo>,
)
    ensures
        spec_first_viewport(ls, rs, current, vps) is Some <==> spec_viewport_count(ls, rs, current, vps) > 0,
{
}

proof fn lemma_vp_from_bounds(vps: Seq<ViewportInfo>, h: u64, i: int)
    ensures
        -1 <= vp_from(vps, h, i) < vps.len(),
        vp_from(vps, h, i) >= 0 ==> vps[vp_from(vps, h, i)].handle == h,
    decreases vps.len() - i,
{
    if 0 <= i < vps.len() {
        lemma_vp_from_bounds(vps, h, i + 1);
    }
}

proof fn lemma_vp_from_same_handles(a: Seq<ViewportInfo>, b: Seq<ViewportInfo>, h: u64, i: int)
    requires
        a.len() == b.len(),
        forall|j: int| 0 <= j < a.len() ==> #[trigger] a[j].handle == b[j].handle,
    ensures
        vp_from(a, h, i) == vp_from(b, h, i),
    decreases a.len() - i,
{
    if 0 <= i < a.len() {
        lemma_vp_from_same_handles(a, b, h, i + 1);
    }
}

/// After the active viewport's render mode is set, it reads back as that mode.
pub proof fn law_render_mode_read_back(active: Option<u64>, before: Seq<ViewportInfo>, mode: RenderMode)
    requires
        spec_active_render_mode(active, before) is Some,
    ensures
        spec_active_render_mode(
            active,
            before.update(
                vp_from(before, active->0, 0),
                ViewportInfo { render_mode: mode, ..before[vp_from(before, active->0, 0)] },
            ),
        ) == Some(mode),
{
    let h = active->0;
    let p = vp_from(before, h, 0);
    lemma_vp_from_bounds(before, h, 0);
    let after = before.update(p, ViewportInfo { render_mode: mode, ..before[p] });
    lemma_vp_from_same_handles(before, after, h, 0);
}

/// The viewport count of a layout is the length of its viewport list.
pub proof fn law_viewport_count_matches_list(
    ls: Seq<LayoutRec>,
    rs: Seq<BlockRecordInfo>,
    current: Seq<char>,
    vps: Seq<ViewportInfo>,
)
    ensures
        spec_viewport_count(ls, rs, current, vps) == spec_viewport_list(
            ls,
            rs,
            current,
            vps,
            spec_sheet(ls, current),
        ).len(),
{
    let block = spec_layout_block(ls, rs, current);
    let cs = content_vps(vps, block, spec_sheet(ls, current));
    lemma_sort_by_len(labelled(cs), |a: (u64, Seq<char>, Seq<u64>), b: (u64, Seq<char>, Seq<u64>)| label_le(a, b));
}

pub open spec fn total_preorder<T>(le: spec_fn(T, T) -> bool) -> bool {
    &&& forall|a: T, b: T| #[trigger] le(a, b) || le(b, a)
    &&& forall|a: T, b: T, c: T| #[trigger] le(a, b) && #[trigger] le(b, c) ==> le(a, c)
}

pub open spec fn sorted_by<T>(s: Seq<T>, le: spec_fn(T, T) -> bool) -> bool {
    forall|i: int, j: int| 0 <= i < j < s.len() ==> le(s[i], s[j])
}

proof fn lemma_insert_sorted<T>(s: Seq<T>, x: T, le: spec_fn(T, T) -> bool)
    requires
        total_preorder(le),
        sorted_by(s, le),
    ensures
        sorted_by(insert_sorted(s, x, le), le),
        insert_sorted(s, x, le).to_multiset() == s.to_multiset().insert(x),
    decreases s.len(),
{
    broadcast use vstd::multiset::group_multiset_axioms;
    broadcast use vstd::seq_lib::group_to_multiset_ensures;
    if s.len() == 0 {
        assert(seq![x] =~= Seq::<T>::empty().push(x));
    } else if le(s.last(), x) {
        let r = s.push(x);
        assert forall|i: int, j: int| 0 <= i < j < r.len() implies le(r[i], r[j]) by {
            if j == s.len() {
                if i < s.len() - 1 {
                    assert(le(s[i], s[s.len() - 1]));
                }
            } else {
                assert(r[i] == s[i] && r[j] == s[j]);
            }
        }
    } else {
        let d = s.drop_last();
        assert forall|i: int, j: int| 0 <= i < j < d.len() implies le(d[i], d[j]) by {
            assert(d[i] == s[i] && d[j] == s[j]);
        }
        lemma_insert_sorted(d, x, le);
        let r0 = insert_sorted(d, x, le);
        let r = r0.push(s.last());
        assert(le(x, s.last()));
        assert forall|i: int, j: int| 0 <= i < j < r.len() implies le(r[i], r[j]) by {
            if j == r0.len() {
                let e = r0[i];
                assert(r0.contains(e));
                assert(r0.to_multiset().contains(e));
                if e == x {
                } else {
                    assert(d.to_multiset().contains(e));
                    assert(d.contains(e));
                    let k = d.index_of(e);
                    assert(s[k] == e);
                    assert(le(s[k], s[s.len() - 1]));
                }
            } else {
                assert(r[i] == r0[i] && r[j] == r0[j]);
            }
        }
        assert(s =~= d.push(s.last()));
    }
}

/// Sorting by a total preorder orders the sequence and keeps its elements.
pub proof fn law_sort_by_sorted<T>(s: Seq<T>, le: spec_fn(T, T) -> bool)
    requires
        total_preorder(le),
    ensures
        sorted_by(sort_by(s, le), le),
        sort_by(s, le).to_multiset() == s.to_multiset(),
    decreases s.len(),
{
    broadcast use vstd::multiset::group_multiset_axioms;
    broadcast use vstd::seq_lib::group_to_multiset_ensures;
    if s.len() > 0 {
        law_sort_by_sorted(s.drop_last(), le);
        lemma_insert_sorted(sort_by(s.drop_last(), le), s.last(), le);
        assert(s =~= s.drop_last().push(s.last()));
    }
}

} // verus!
