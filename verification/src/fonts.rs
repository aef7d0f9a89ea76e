//! Font names: the registry of the embedded stroke fonts and the lookup of a
//! text style's font name in it.
//!
//! Every font is registered under its file stem and, unless that name is taken,
//! under its `# Name:` header, both in ASCII upper case. AutoCAD font names
//! (`TXT`, `ISOCP`, …) are registered as aliases of the nearest font. A lookup
//! trims the name, upper-cases it, retries without an extension, then falls
//! back to `STANDARD`, `UNICODE`, and finally to the first font.

use vstd::prelude::*;
use crate::lff::{trim, trim_span, upper, upper_seq, upper_text, is_ws, skip_ws, drop_ws};
use crate::arrows::lemma_upper_char;
use crate::text_codes::str_chars;

verus! {

/// AutoCAD / DXF font names and the stem of the font each stands for.
pub open spec fn spec_font_aliases() -> Seq<(&'static str, &'static str)> {
    seq![
        ("TXT", "standard"),
        ("MONOTXT", "standard"),
        ("ISOCP", "iso"),
        ("ISOCP2", "iso"),
        ("ISOCP3", "iso"),
        ("ISOCPEUR", "iso"),
        ("ISOCT", "iso3098"),
        ("ISOCT2", "iso3098"),
        ("ISOCT3", "iso3098"),
        ("ISOCTEUR", "iso3098"),
        ("COMPLEX", "romanc"),
        ("ITALIC", "italicc"),
        ("GOTHICE", "gothgbt"),
        ("GOTHICG", "gothgrt"),
        ("GOTHICI", "gothitt"),
        ("CYRILLIC", "cyrillic_ii"),
        ("CYRILTLC", "cyrillic_ii"),
        ("GREEK", "greekc"),
        ("GOST", "opengosttypeb-regular"),
        ("GOSTA", "opengosttypea-regular"),
        ("GOSTB", "opengosttypeb-regular"),
        ("BIGFONT", "unicode"),
        ("EXTFONT", "unicode"),
    ]
}

pub fn font_aliases() -> (r: Vec<(&'static str, &'static str)>)
    ensures
        r@ == spec_font_aliases(),
{
    let r = vec![
        ("TXT", "standard"),
        ("MONOTXT", "standard"),
        ("ISOCP", "iso"),
        ("ISOCP2", "iso"),
        ("ISOCP3", "iso"),
        ("ISOCPEUR", "iso"),
        ("ISOCT", "iso3098"),
        ("ISOCT2", "iso3098"),
        ("ISOCT3", "iso3098"),
        ("ISOCTEUR", "iso3098"),
        ("COMPLEX", "romanc"),
        ("ITALIC", "italicc"),
        ("GOTHICE", "gothgbt"),
        ("GOTHICG", "gothgrt"),
        ("GOTHICI", "gothitt"),
        ("CYRILLIC", "cyrillic_ii"),
        ("CYRILTLC", "cyrillic_ii"),
        ("GREEK", "greekc"),
        ("GOST", "opengosttypeb-regular"),
        ("GOSTA", "opengosttypea-regular"),
        ("GOSTB", "opengosttypeb-regular"),
        ("BIGFONT", "unicode"),
        ("EXTFONT", "unicode"),
    ];
    assert(r@ =~= spec_font_aliases());
    r
}

/// Font names in upper case mapped to font positions.
pub struct FontRegistry {
    pub entries: Vec<(Vec<char>, usize)>,
}

pub open spec fn entries_view(e: Seq<(Vec<char>, usize)>) -> Seq<(Seq<char>, usize)> {
    e.map_values(|x: (Vec<char>, usize)| (x.0@, x.1))
}

/// Position of key `k`, or -1.
pub open spec fn key_pos(e: Seq<(Seq<char>, usize)>, k: Seq<char>) -> int
    decreases e.len(),
{
    if e.len() == 0 {
        -1
    } else if e.last().0 == k {
        e.len() - 1
    } else {
        key_pos(e.drop_last(), k)
    }
}

proof fn lemma_key_pos(e: Seq<(Seq<char>, usize)>, k: Seq<char>)
    ensures
        -1 <= key_pos(e, k) < e.len(),
        key_pos(e, k) >= 0 ==> e[key_pos(e, k)].0 == k,
        key_pos(e, k) < 0 ==> forall|i: int| 0 <= i < e.len() ==> e[i].0 != k,
    decreases e.len(),
{
    if e.len() > 0 && e.last().0 != k {
        lemma_key_pos(e.drop_last(), k);
        assert forall|i: int| 0 <= i < e.len() - 1 implies e[i] == e.drop_last()[i] by {}
    }
}

/// The registry as a map.
pub open spec fn reg_map(e: Seq<(Seq<char>, usize)>) -> Map<Seq<char>, usize> {
    Map::new(|k: Seq<char>| key_pos(e, k) >= 0, |k: Seq<char>| e[key_pos(e, k)].1)
}

fn same_chars(a: &Vec<char>, b: &Vec<char>) -> (r: bool)
    ensures
        r == (a@ == b@),
{
    if a.len() != b.len() {
        return false;
    }
    let mut i: usize = 0;
    while i < a.len()
        invariant
            a@.len() == b@.len(),
            i <= a@.len(),
            forall|k: int| 0 <= k < i ==> a@[k] == b@[k],
        decreases a@.len() - i,
    {
        if a[i] != b[i] {
            return false;
        }
        i = i + 1;
    }
    assert(a@ =~= b@);
    true
}

impl FontRegistry {
    pub open spec fn view_map(&self) -> Map<Seq<char>, usize> {
        reg_map(entries_view(self.entries@))
    }

    pub fn new() -> (r: Self)
        ensures
            r.view_map() == Map::<Seq<char>, usize>::empty(),
    {
        let r = FontRegistry { entries: Vec::new() };
        assert(r.view_map() =~= Map::<Seq<char>, usize>::empty());
        r
    }

    fn find(&self, k: &Vec<char>) -> (r: Option<usize>)
        ensures
            r is Some <==> key_pos(entries_view(self.entries@), k@) >= 0,
            r is Some ==> r->0 == key_pos(entries_view(self.entries@), k@) && r->0 < self.entries@.len(),
    {
        let ghost ev = entries_view(self.entries@);
        let mut i = self.entries.len();
        proof {
            assert(ev.take(i as int) =~= ev);
            lemma_key_pos(ev, k@);
        }
        while i > 0
            invariant
                i <= self.entries@.len(),
                ev == entries_view(self.entries@),
                key_pos(ev, k@) == key_pos(ev.take(i as int), k@),
            decreases i,
        {
            assert(ev.take(i as int).drop_last() =~= ev.take(i - 1));
            assert(ev.take(i as int).last() == ev[i - 1]);
            if same_chars(&self.entries[i - 1].0, k) {
                return Some(i - 1);
            }
            i = i - 1;
        }
        assert(ev.take(0) =~= Seq::<(Seq<char>, usize)>::empty());
        None
    }

    /// The font registered under `k`.
    pub fn get(&self, k: &Vec<char>) -> (r: Option<usize>)
        ensures
            r == (if self.view_map().contains_key(k@) {
                Some(self.view_map()[k@])
            } else {
                None
            }),
    {
        match self.find(k) {
            Some(i) => Some(self.entries[i].1),
            None => None,
        }
    }

    /// Registers `f` under `k`, replacing what `k` named.
    pub fn insert(&mut self, k: Vec<char>, f: usize)
        ensures
            final(self).view_map() == old(self).view_map().insert(k@, f),
    {
        let ghost ev = entries_view(self.entries@);
        let ghost kv = k@;
        proof {
            lemma_key_pos(ev, kv);
        }
        match self.find(&k) {
            Some(i) => {
                self.entries.set(i, (k, f));
                proof {
                    let nv = entries_view(self.entries@);
                    assert(nv =~= ev.update(i as int, (kv, f)));
                    lemma_key_pos_update(ev, i as int, kv, f);
                    assert forall|j: Seq<char>| #[trigger] key_pos(nv, j) >= 0 implies nv[key_pos(nv, j)].1 == (if j == kv {
                        f
                    } else {
                        ev[key_pos(ev, j)].1
                    }) by {
                        lemma_key_pos(ev, j);
                        if j != kv {
                            assert(key_pos(ev, j) != i);
                        }
                    }
                    assert(self.view_map() =~= reg_map(ev).insert(kv, f));
                }
            },
            None => {
                self.entries.push((k, f));
                proof {
                    let nv = entries_view(self.entries@);
                    assert(nv =~= ev.push((kv, f)));
                    lemma_key_pos_push(ev, kv, f);
                    assert forall|j: Seq<char>| #[trigger] key_pos(nv, j) >= 0 implies nv[key_pos(nv, j)].1 == (if j == kv {
                        f
                    } else {
                        ev[key_pos(ev, j)].1
                    }) by {
                        lemma_key_pos(ev, j);
                        if j != kv {
                            assert(nv[key_pos(ev, j)] == ev[key_pos(ev, j)]);
                        }
                    }
                    assert(self.view_map() =~= reg_map(ev).insert(kv, f));
                }
            },
        }
    }

    /// Registers `f` under `k` unless `k` is taken.
    pub fn insert_if_absent(&mut self, k: Vec<char>, f: usize)
        ensures
            final(self).view_map() == (if old(self).view_map().contains_key(k@) {
                old(self).view_map()
            } else {
                old(self).view_map().insert(k@, f)
            }),
    {
        if self.find(&k).is_none() {
            self.insert(k, f);
        }
    }
}

proof fn lemma_key_pos_update(e: Seq<(Seq<char>, usize)>, i: int, k: Seq<char>, f: usize)
    requires
        0 <= i < e.len(),
        e[i].0 == k,
        key_pos(e, k) == i,
    ensures
        forall|j: Seq<char>| key_pos(e.update(i, (k, f)), j) == key_pos(e, j),
    decreases e.len(),
{
    assert forall|j: Seq<char>| key_pos(e.update(i, (k, f)), j) == key_pos(e, j) by {
        lemma_key_pos_update_one(e, i, k, f, j);
    }
}

proof fn lemma_key_pos_update_one(e: Seq<(Seq<char>, usize)>, i: int, k: Seq<char>, f: usize, j: Seq<char>)
    requires
        0 <= i < e.len(),
        e[i].0 == k,
    ensures
        key_pos(e.update(i, (k, f)), j) == key_pos(e, j),
    decreases e.len(),
{
    let u = e.update(i, (k, f));
    if i == e.len() - 1 {
        assert(u.drop_last() =~= e.drop_last());
    } else {
        assert(u.drop_last() =~= e.drop_last().update(i, (k, f)));
        assert(u.last() == e.last());
        lemma_key_pos_update_one(e.drop_last(), i, k, f, j);
    }
}

proof fn lemma_key_pos_push(e: Seq<(Seq<char>, usize)>, k: Seq<char>, f: usize)
    requires
        key_pos(e, k) < 0,
    ensures
        key_pos(e.push((k, f)), k) == e.len(),
        forall|j: Seq<char>| j != k ==> key_pos(e.push((k, f)), j) == key_pos(e, j),
{
    assert forall|j: Seq<char>| j != k implies key_pos(e.push((k, f)), j) == key_pos(e, j) by {
        assert(e.push((k, f)).drop_last() =~= e);
    }
}

/// Upper-cased key of a name.
pub open spec fn upper_key(s: Seq<char>) -> Seq<char> {
    upper_seq(s)
}

/// Registry after registering each font `(stem, header name)` of `fonts`.
pub open spec fn spec_register(fonts: Seq<(Seq<char>, Seq<char>)>) -> Map<Seq<char>, usize>
    decreases fonts.len(),
{
    if fonts.len() == 0 {
        Map::empty()
    } else {
        let m = spec_register(fonts.drop_last());
        let i = (fonts.len() - 1) as usize;
        let m2 = m.insert(upper_key(fonts.last().0), i);
        let n = upper_key(fonts.last().1);
        if m2.contains_key(n) {
            m2
        } else {
            m2.insert(n, i)
        }
    }
}

/// Registry after adding each alias `(alias, stem)` whose stem is registered.
pub open spec fn spec_add_aliases(m: Map<Seq<char>, usize>, al: Seq<(&'static str, &'static str)>) -> Map<Seq<char>, usize>
    decreases al.len(),
{
    if al.len() == 0 {
        m
    } else {
        let m1 = spec_add_aliases(m, al.drop_last());
        let s = upper_key(al.last().1@);
        if m1.contains_key(s) {
            m1.insert(upper_key(al.last().0@), m1[s])
        } else {
            m1
        }
    }
}

fn upper_str(s: &str) -> (r: Vec<char>)
    ensures
        r@ == upper_seq(s@),
{
    let cs = str_chars(s);
    let r = upper_text(&cs, 0, cs.len());
    assert(cs@.subrange(0, cs@.len() as int) =~= cs@);
    r
}

/// Registers the fonts `(stem, header name)` by position, then the aliases.
pub fn build_registry(fonts: &Vec<(String, String)>) -> (r: FontRegistry)
    ensures
        r.view_map() == spec_add_aliases(
            spec_register(fonts@.map_values(|f: (String, String)| (f.0@, f.1@))),
            spec_font_aliases(),
        ),
{
    let ghost fv = fonts@.map_values(|f: (String, String)| (f.0@, f.1@));
    let mut reg = FontRegistry::new();
    let mut i: usize = 0;
    proof {
        assert(fv.take(0) =~= Seq::<(Seq<char>, Seq<char>)>::empty());
    }
    while i < fonts.len()
        invariant
            i <= fonts@.len(),
            fv == fonts@.map_values(|f: (String, String)| (f.0@, f.1@)),
            reg.view_map() == spec_register(fv.take(i as int)),
        decreases fonts@.len() - i,
    {
        proof {
            assert(fv.take(i + 1).drop_last() =~= fv.take(i as int));
            assert(fv.take(i + 1).last() == fv[i as int]);
        }
        let stem = upper_str(fonts[i].0.as_str());
        reg.insert(stem, i);
        let name = upper_str(fonts[i].1.as_str());
        reg.insert_if_absent(name, i);
        i = i + 1;
    }
    proof {
        assert(fv.take(fonts@.len() as int) =~= fv);
    }
    let aliases = font_aliases();
    let ghost base = reg.view_map();
    let mut k: usize = 0;
    proof {
        assert(spec_font_aliases().take(0) =~= Seq::<(&'static str, &'static str)>::empty());
    }
    while k < aliases.len()
        invariant
            k <= aliases@.len(),
            aliases@ == spec_font_aliases(),
            reg.view_map() == spec_add_aliases(base, spec_font_aliases().take(k as int)),
        decreases aliases@.len() - k,
    {
        proof {
            assert(spec_font_aliases().take(k + 1).drop_last() =~= spec_font_aliases().take(k as int));
            assert(spec_font_aliases().take(k + 1).last() == aliases@[k as int]);
        }
        let stem = upper_str(aliases[k].1);
        match reg.get(&stem) {
            Some(f) => {
                let alias = upper_str(aliases[k].0);
                reg.insert(alias, f);
            },
            None => {},
        }
        k = k + 1;
    }
    proof {
        assert(spec_font_aliases().take(aliases@.len() as int) =~= spec_font_aliases());
    }
    reg
}

/// Position of the last `.` in `k`, or -1.
pub open spec fn last_dot(k: Seq<char>) -> int
    decreases k.len(),
{
    if k.len() == 0 {
        -1
    } else if k.last() == '.' {
        k.len() - 1
    } else {
        last_dot(k.drop_last())
    }
}

pub open spec fn standard_key() -> Seq<char> {
    seq!['S', 'T', 'A', 'N', 'D', 'A', 'R', 'D']
}

pub open spec fn unicode_key() -> Seq<char> {
    seq!['U', 'N', 'I', 'C', 'O', 'D', 'E']
}

/// The key a font name is looked up under: white space trimmed, ASCII upper
/// case.
pub open spec fn font_key(name: Seq<char>) -> Seq<char> {
    let t = trim(name, 0, name.len() as int);
    upper_seq(name.subrange(t.0, t.1))
}

/// The font a text style's font name selects; `first` is the font used when
/// nothing else applies.
pub open spec fn spec_get_font(m: Map<Seq<char>, usize>, name: Seq<char>, first: usize) -> usize {
    let key = font_key(name);
    let d = last_dot(key);
    if m.contains_key(key) {
        m[key]
    } else if d >= 0 && m.contains_key(key.take(d)) {
        m[key.take(d)]
    } else if m.contains_key(standard_key()) {
        m[standard_key()]
    } else if m.contains_key(unicode_key()) {
        m[unicode_key()]
    } else {
        first
    }
}

proof fn lemma_last_dot(k: Seq<char>)
    ensures
        -1 <= last_dot(k) < k.len(),
    decreases k.len(),
{
    if k.len() > 0 && k.last() != '.' {
        lemma_last_dot(k.drop_last());
    }
}

fn take_chars(k: &Vec<char>, n: usize) -> (r: Vec<char>)
    requires
        n <= k@.len(),
    ensures
        r@ == k@.take(n as int),
{
    let mut r: Vec<char> = Vec::new();
    let mut i: usize = 0;
    while i < n
        invariant
            n <= k@.len(),
            i <= n,
            r@ == k@.take(i as int),
        decreases n - i,
    {
        r.push(k[i]);
        i = i + 1;
        assert(r@ =~= k@.take(i as int));
    }
    r
}

impl FontRegistry {
    /// The font for a text style's font name: the name trimmed and in upper case,
    /// or that without its extension, or `STANDARD`, `UNICODE`, or the font of
    /// the first entry.
    pub fn get_font(&self, name: &str) -> (f: usize)
        requires
            self.entries@.len() > 0,
        ensures
            f == spec_get_font(self.view_map(), name@, self.entries@[0].1),
    {
        let cs = str_chars(name);
        let t = trim_span(&cs, 0, cs.len());
        let key = upper_text(&cs, t.0, t.1);
        match self.get(&key) {
            Some(f) => {
                return f;
            },
            None => {},
        }
        let ghost kv = key@;
        proof {
            lemma_last_dot(kv);
        }
        let mut d = key.len();
        assert(kv.take(d as int) =~= kv);
        while d > 0 && key[d - 1] != '.'
            invariant
                d <= key@.len(),
                kv == key@,
                last_dot(kv) == last_dot(kv.take(d as int)),
            decreases d,
        {
            assert(kv.take(d as int).drop_last() =~= kv.take(d - 1));
            d = d - 1;
        }
        proof {
            if d > 0 {
                assert(kv.take(d as int).last() == '.');
            } else {
                assert(kv.take(0) =~= Seq::<char>::empty());
            }
        }
        if d > 0 {
            let stem = take_chars(&key, d - 1);
            match self.get(&stem) {
                Some(f) => {
                    return f;
                },
                None => {},
            }
        }
        let standard = vec!['S', 'T', 'A', 'N', 'D', 'A', 'R', 'D'];
        assert(standard@ =~= standard_key());
        match self.get(&standard) {
            Some(f) => {
                return f;
            },
            None => {},
        }
        let unicode = vec!['U', 'N', 'I', 'C', 'O', 'D', 'E'];
        assert(unicode@ =~= unicode_key());
        match self.get(&unicode) {
            Some(f) => {
                return f;
            },
            None => {},
        }
        self.entries[0].1
    }
}

// ── laws ───────────────────────────────────────────────────────────────

proof fn lemma_skip_ws_stop(s: Seq<char>, lo: int, hi: int)
    requires
        0 <= lo <= hi <= s.len(),
    ensures
        lo <= skip_ws(s, lo, hi) <= hi,
        skip_ws(s, lo, hi) < hi ==> !is_ws(s[skip_ws(s, lo, hi)]),
    decreases hi - lo,
{
    if lo < hi && is_ws(s[lo]) {
        lemma_skip_ws_stop(s, lo + 1, hi);
    }
}

proof fn lemma_drop_ws_stop(s: Seq<char>, lo: int, hi: int)
    requires
        0 <= lo <= hi <= s.len(),
    ensures
        lo <= drop_ws(s, lo, hi) <= hi,
        drop_ws(s, lo, hi) > lo ==> !is_ws(s[drop_ws(s, lo, hi) - 1]),
    decreases hi - lo,
{
    if lo < hi && is_ws(s[hi - 1]) {
        lemma_drop_ws_stop(s, lo, hi - 1);
    }
}

/// An upper-case name with no white space at either end is its own key.
proof fn lemma_own_key(u: Seq<char>)
    requires
        u.len() == 0 || (!is_ws(u[0]) && !is_ws(u.last())),
        upper_seq(u) == u,
    ensures
        font_key(u) == u,
{
    assert(trim(u, 0, u.len() as int) == (0int, u.len() as int));
    assert(u.subrange(0, u.len() as int) =~= u);
}

/// A key is its own key.
proof fn lemma_font_key_idem(name: Seq<char>)
    ensures
        font_key(font_key(name)) == font_key(name),
{
    let n = name.len() as int;
    lemma_skip_ws_stop(name, 0, n);
    let a = skip_ws(name, 0, n);
    lemma_drop_ws_stop(name, a, n);
    let b = drop_ws(name, a, n);
    let x = name.subrange(a, b);
    let k = upper_seq(x);
    if k.len() > 0 {
        lemma_upper_char(x[0]);
        lemma_upper_char(x[x.len() - 1]);
    }
    assert forall|i: int| 0 <= i < k.len() implies #[trigger] upper_seq(k)[i] == k[i] by {
        lemma_upper_char(x[i]);
    }
    assert(upper_seq(k) =~= k);
    lemma_own_key(k);
}

/// Font names are looked up without regard to ASCII case or surrounding white
/// space: a name selects the font its trimmed, upper-case form selects.
pub proof fn law_get_font_ignores_case_and_space(m: Map<Seq<char>, usize>, name: Seq<char>, first: usize)
    ensures
        spec_get_font(m, name, first) == spec_get_font(m, font_key(name), first),
{
    lemma_font_key_idem(name);
}

/// A name whose key is not registered but whose key without its extension is
/// (`romans.shx` for `ROMANS`) selects the font of the name without the
/// extension, as that name itself does.
pub proof fn law_get_font_strips_extension(m: Map<Seq<char>, usize>, name: Seq<char>, first: usize)
    requires
        last_dot(font_key(name)) >= 0,
        !m.contains_key(font_key(name)),
        m.contains_key(font_key(name).take(last_dot(font_key(name)))),
        last_dot(font_key(name)) == 0 || !is_ws(font_key(name)[last_dot(font_key(name)) - 1]),
    ensures
        spec_get_font(m, name, first) == m[font_key(name).take(last_dot(font_key(name)))],
        spec_get_font(m, font_key(name).take(last_dot(font_key(name))), first) == m[font_key(name).take(
            last_dot(font_key(name)),
        )],
{
    let k = font_key(name);
    let d = last_dot(k);
    lemma_last_dot(k);
    lemma_font_key_idem(name);
    let st = k.take(d);
    // `k` is its own key, so it has no white space at its start and is upper case
    let n = k.len() as int;
    lemma_skip_ws_stop(k, 0, n);
    assert(upper_seq(k) == k) by {
        lemma_own_key_parts(name);
    }
    if d > 0 {
        assert(skip_ws(k, 0, n) == 0) by {
            lemma_own_key_parts(name);
        }
        assert(!is_ws(st[0]));
        assert(st.last() == k[d - 1]);
    }
    assert forall|i: int| 0 <= i < st.len() implies #[trigger] upper_seq(st)[i] == st[i] by {
        assert(upper_seq(k)[i] == k[i]);
    }
    assert(upper_seq(st) =~= st);
    lemma_own_key(st);
}

/// What a key is made of: upper case, and no white space at its start.
proof fn lemma_own_key_parts(name: Seq<char>)
    ensures
        upper_seq(font_key(name)) == font_key(name),
        font_key(name).len() > 0 ==> !is_ws(font_key(name)[0]),
        skip_ws(font_key(name), 0, font_key(name).len() as int) == 0,
{
    let n = name.len() as int;
    lemma_skip_ws_stop(name, 0, n);
    let a = skip_ws(name, 0, n);
    lemma_drop_ws_stop(name, a, n);
    let b = drop_ws(name, a, n);
    let x = name.subrange(a, b);
    let k = upper_seq(x);
    if k.len() > 0 {
        lemma_upper_char(x[0]);
    }
    assert forall|i: int| 0 <= i < k.len() implies #[trigger] upper_seq(k)[i] == k[i] by {
        lemma_upper_char(x[i]);
    }
    assert(upper_seq(k) =~= k);
}

/// A name that is not registered, with or without its extension, selects the
/// font `STANDARD` selects.
pub proof fn law_get_font_unknown_name(m: Map<Seq<char>, usize>, name: Seq<char>, first: usize)
    requires
        !m.contains_key(font_key(name)),
        last_dot(font_key(name)) < 0 || !m.contains_key(font_key(name).take(last_dot(font_key(name)))),
    ensures
        spec_get_font(m, name, first) == spec_get_font(m, standard_key(), first),
{
    let s = standard_key();
    assert(upper_seq(s) =~= s);
    lemma_own_key(s);
    reveal_with_fuel(last_dot, 9);
    assert(last_dot(s) == -1);
}

proof fn lemma_add_aliases_append(
    m: Map<Seq<char>, usize>,
    p: Seq<(&'static str, &'static str)>,
    q: Seq<(&'static str, &'static str)>,
)
    ensures
        spec_add_aliases(m, p + q) == spec_add_aliases(spec_add_aliases(m, p), q),
    decreases q.len(),
{
    if q.len() == 0 {
        assert(p + q =~= p);
    } else {
        assert((p + q).drop_last() =~= p + q.drop_last());
        assert((p + q).last() == q.last());
        lemma_add_aliases_append(m, p, q.drop_last());
    }
}

proof fn lemma_add_aliases_keep(m: Map<Seq<char>, usize>, q: Seq<(&'static str, &'static str)>, k: Seq<char>)
    requires
        forall|i: int| 0 <= i < q.len() ==> upper_key(#[trigger] q[i].0@) != k,
    ensures
        spec_add_aliases(m, q).contains_key(k) == m.contains_key(k),
        m.contains_key(k) ==> spec_add_aliases(m, q)[k] == m[k],
    decreases q.len(),
{
    if q.len() > 0 {
        assert forall|i: int| 0 <= i < q.drop_last().len() implies upper_key(#[trigger] q.drop_last()[i].0@) != k by {
            assert(q.drop_last()[i] == q[i]);
        }
        lemma_add_aliases_keep(m, q.drop_last(), k);
        assert(upper_key(q[q.len() - 1].0@) != k);
    }
}

/// Two names differ once upper-cased when their lengths or first letters do.
proof fn lemma_key_differs(x: Seq<char>, k: Seq<char>)
    requires
        x.len() != k.len() || (x.len() > 0 && k.len() > 0 && upper(x[0]) != k[0]),
    ensures
        upper_key(x) != k,
{
    if upper_key(x) == k {
        assert(upper_key(x).len() == x.len());
        if x.len() > 0 {
            assert(upper_key(x)[0] == upper(x[0]));
        }
    }
}

pub open spec fn complex_key() -> Seq<char> {
    seq!['C', 'O', 'M', 'P', 'L', 'E', 'X']
}

pub open spec fn romanc_key() -> Seq<char> {
    seq!['R', 'O', 'M', 'A', 'N', 'C']
}

/// The AutoCAD font `COMPLEX` is Roman Complex: once the aliases are added to
/// a registry that holds `romanc`, the name `COMPLEX` selects the font that
/// `romanc` names.
pub proof fn law_complex_is_roman_complex(base: Map<Seq<char>, usize>, first: usize)
    requires
        base.contains_key(romanc_key()),
    ensures
        spec_get_font(spec_add_aliases(base, spec_font_aliases()), complex_key(), first) == base[romanc_key()],
{
    let al = spec_font_aliases();
    reveal_strlit("TXT");
    reveal_strlit("MONOTXT");
    reveal_strlit("ISOCP");
    reveal_strlit("ISOCP2");
    reveal_strlit("ISOCP3");
    reveal_strlit("ISOCPEUR");
    reveal_strlit("ISOCT");
    reveal_strlit("ISOCT2");
    reveal_strlit("ISOCT3");
    reveal_strlit("ISOCTEUR");
    reveal_strlit("COMPLEX");
    reveal_strlit("romanc");
    reveal_strlit("ITALIC");
    reveal_strlit("GOTHICE");
    reveal_strlit("GOTHICG");
    reveal_strlit("GOTHICI");
    reveal_strlit("CYRILLIC");
    reveal_strlit("CYRILTLC");
    reveal_strlit("GREEK");
    reveal_strlit("GOST");
    reveal_strlit("GOSTA");
    reveal_strlit("GOSTB");
    reveal_strlit("BIGFONT");
    reveal_strlit("EXTFONT");
    let p = al.take(10);
    let q = al.skip(11);
    assert(al =~= p.push(al[10]) + q);
    assert forall|i: int| 0 <= i < p.len() implies upper_key(#[trigger] p[i].0@) != romanc_key() by {
        assert(p[i] == al[i]);
        lemma_key_differs(al[i].0@, romanc_key());
    }
    assert forall|i: int| 0 <= i < q.len() implies upper_key(#[trigger] q[i].0@) != complex_key() by {
        assert(q[i] == al[i + 11]);
        lemma_key_differs(al[i + 11].0@, complex_key());
    }
    lemma_add_aliases_append(base, p.push(al[10]), q);
    let m0 = spec_add_aliases(base, p);
    lemma_add_aliases_keep(base, p, romanc_key());
    assert(p.push(al[10]).drop_last() =~= p);
    assert(upper_key(al[10].1@) =~= romanc_key());
    assert(upper_key(al[10].0@) =~= complex_key());
    let m1 = spec_add_aliases(base, p.push(al[10]));
    assert(m1 == m0.insert(complex_key(), m0[romanc_key()]));
    lemma_add_aliases_keep(m1, q, complex_key());
    assert(upper_seq(complex_key()) =~= complex_key());
    lemma_own_key(complex_key());
}

} // verus!
