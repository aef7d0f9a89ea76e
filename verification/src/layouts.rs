//! Layout tabs of a drawing: the tab list, renaming, reordering and deleting
//! paper layouts. A layout's block record handle is 0 when the file left it
//! unset.

use vstd::prelude::*;
use crate::selection::str_eq;

verus! {

/// A layout object: its handle, name, block record, tab order and sheet
/// viewport (0: none).
pub struct LayoutRec {
    pub handle: u64,
    pub name: String,
    pub block_record: u64,
    pub tab_order: i16,
    pub viewport: u64,
}

/// A paper tab: name, tab order and block record.
pub struct TabView {
    pub name: Seq<char>,
    pub tab_order: i16,
    pub block_record: u64,
}

pub open spec fn model_name() -> Seq<char> {
    seq!['M', 'o', 'd', 'e', 'l']
}

/// Position of the tab named `n` in `d`, or -1.
pub open spec fn find_tab(d: Seq<TabView>, n: Seq<char>) -> int
    decreases d.len(),
{
    if d.len() == 0 {
        -1
    } else if d.last().name == n {
        d.len() - 1
    } else {
        find_tab(d.drop_last(), n)
    }
}

/// Paper tabs of `ls` in order of first appearance, one per name. A later
/// layout of a name replaces the kept one only when that one has no block
/// record and the later one has.
pub open spec fn paper_tabs(ls: Seq<LayoutRec>) -> Seq<TabView>
    decreases ls.len(),
{
    if ls.len() == 0 {
        Seq::empty()
    } else {
        let d = paper_tabs(ls.drop_last());
        let l = ls.last();
        if l.name@ == model_name() || l.name@.len() == 0 {
            d
        } else {
            let t = TabView { name: l.name@, tab_order: l.tab_order, block_record: l.block_record };
            let i = find_tab(d, l.name@);
            if i < 0 {
                d.push(t)
            } else if d[i].block_record == 0 && l.block_record != 0 {
                d.update(i, t)
            } else {
                d
            }
        }
    }
}

/// `x` inserted into `s` after every element whose tab order is not greater.
pub open spec fn insert_by_tab(s: Seq<TabView>, x: TabView) -> Seq<TabView>
    decreases s.len(),
{
    if s.len() == 0 {
        seq![x]
    } else if s.last().tab_order <= x.tab_order {
        s.push(x)
    } else {
        insert_by_tab(s.drop_last(), x).push(s.last())
    }
}

/// Stable sort by tab order.
pub open spec fn sort_by_tab(s: Seq<TabView>) -> Seq<TabView>
    decreases s.len(),
{
    if s.len() == 0 {
        Seq::empty()
    } else {
        insert_by_tab(sort_by_tab(s.drop_last()), s.last())
    }
}

/// Tab names: `Model`, then the paper tabs by tab order.
pub open spec fn spec_layout_names(ls: Seq<LayoutRec>) -> Seq<Seq<char>> {
    seq![model_name()] + sort_by_tab(paper_tabs(ls)).map_values(|t: TabView| t.name)
}

pub open spec fn tab_sorted(s: Seq<TabView>) -> bool {
    forall|i: int, j: int| 0 <= i <= j < s.len() ==> s[i].tab_order <= s[j].tab_order
}

struct Tab {
    name: String,
    tab_order: i16,
    block_record: u64,
}

spec fn tview(t: Tab) -> TabView {
    TabView { name: t.name@, tab_order: t.tab_order, block_record: t.block_record }
}

spec fn tabs_view(s: Seq<Tab>) -> Seq<TabView> {
    s.map_values(|t: Tab| tview(t))
}

fn find_tab_exec(d: &Vec<Tab>, n: &String) -> (r: Option<usize>)
    ensures
        r is Some <==> find_tab(tabs_view(d@), n@) >= 0,
        r is Some ==> r->0 == find_tab(tabs_view(d@), n@) && r->0 < d@.len(),
{
    let ghost dv = tabs_view(d@);
    let mut i = d.len();
    proof {
        assert(dv.take(i as int) =~= dv);
        lemma_find_tab(dv, n@);
    }
    while i > 0
        invariant
            i <= d@.len(),
            dv == tabs_view(d@),
            find_tab(dv, n@) == find_tab(dv.take(i as int), n@),
        decreases i,
    {
        assert(dv.take(i as int).drop_last() =~= dv.take(i - 1));
        assert(dv.take(i as int).last() == dv[i - 1]);
        if d[i - 1].name == *n {
            return Some(i - 1);
        }
        i = i - 1;
    }
    assert(dv.take(0) =~= Seq::<TabView>::empty());
    None
}

proof fn lemma_find_tab(d: Seq<TabView>, n: Seq<char>)
    ensures
        -1 <= find_tab(d, n) < d.len(),
    decreases d.len(),
{
    if d.len() > 0 && d.last().name != n {
        lemma_find_tab(d.drop_last(), n);
    }
}

/// Inserts `x` into `s` as `insert_by_tab` does.
fn insert_tab(s: &mut Vec<Tab>, x: Tab)
    ensures
        tabs_view(final(s)@) == insert_by_tab(tabs_view(old(s)@), tview(x)),
    decreases old(s)@.len(),
{
    if s.len() == 0 {
        s.push(x);
        assert(tabs_view(s@) =~= seq![tview(x)]);
        return;
    }
    let last_order = s[s.len() - 1].tab_order;
    if last_order <= x.tab_order {
        let ghost before = tabs_view(s@);
        s.push(x);
        assert(tabs_view(s@) =~= before.push(tview(x)));
    } else {
        let ghost before = tabs_view(s@);
        let last = s.pop().unwrap();
        assert(tabs_view(s@) =~= before.drop_last());
        insert_tab(s, x);
        let ghost mid = tabs_view(s@);
        s.push(last);
        assert(tabs_view(s@) =~= mid.push(tview(last)));
    }
}

/// Names of the layout tabs: `Model` first, then each paper layout once (see
/// `paper_tabs`), ordered by tab order, ties in order of first appearance.
pub fn layout_names(layouts: &Vec<LayoutRec>) -> (names: Vec<String>)
    ensures
        names@.map_values(|s: String| s@) == spec_layout_names(layouts@),
{
    let mut tabs: Vec<Tab> = Vec::new();
    let mut i: usize = 0;
    proof {
        assert(layouts@.take(0) =~= Seq::<LayoutRec>::empty());
        assert(tabs_view(tabs@) =~= Seq::<TabView>::empty());
    }
    while i < layouts.len()
        invariant
            i <= layouts@.len(),
            tabs_view(tabs@) == paper_tabs(layouts@.take(i as int)),
        decreases layouts@.len() - i,
    {
        let l = &layouts[i];
        proof {
            assert(layouts@.take(i + 1).drop_last() =~= layouts@.take(i as int));
            assert(layouts@.take(i + 1).last() == *l);
        }
        let ghost d = tabs_view(tabs@);
        if !(str_eq(l.name.as_str(), "Model") || l.name.as_str().is_empty()) {
            proof {
                reveal_strlit("Model");
                assert("Model"@ =~= model_name());
            }
            match find_tab_exec(&tabs, &l.name) {
                None => {
                    tabs.push(Tab { name: l.name.clone(), tab_order: l.tab_order, block_record: l.block_record });
                    assert(tabs_view(tabs@) =~= d.push(
                        TabView { name: l.name@, tab_order: l.tab_order, block_record: l.block_record },
                    ));
                },
                Some(k) => {
                    if tabs[k].block_record == 0 && l.block_record != 0 {
                        tabs.set(k, Tab { name: l.name.clone(), tab_order: l.tab_order, block_record: l.block_record });
                        assert(tabs_view(tabs@) =~= d.update(
                            k as int,
                            TabView { name: l.name@, tab_order: l.tab_order, block_record: l.block_record },
                        ));
                    }
                },
            }
        } else {
            proof {
                reveal_strlit("Model");
                assert("Model"@ =~= model_name());
                assert(l.name@.len() == 0 || l.name@ == model_name());
            }
        }
        i = i + 1;
    }
    proof {
        assert(layouts@.take(layouts@.len() as int) =~= layouts@);
    }
    // stable insertion sort by tab order
    let ghost unsorted = tabs_view(tabs@);
    let mut sorted: Vec<Tab> = Vec::new();
    let mut rest = tabs;
    let n = rest.len();
    let mut k: usize = 0;
    proof {
        assert(unsorted.take(0) =~= Seq::<TabView>::empty());
        assert(tabs_view(sorted@) =~= Seq::<TabView>::empty());
    }
    while k < n
        invariant
            n == unsorted.len(),
            k <= n,
            rest@.len() == n - k,
            forall|j: int| 0 <= j < rest@.len() ==> tview(#[trigger] rest@[j]) == unsorted[k + j],
            tabs_view(sorted@) == sort_by_tab(unsorted.take(k as int)),
        decreases n - k,
    {
        let t = rest.remove(0);
        proof {
            assert(tview(t) == unsorted[k as int]);
            assert(unsorted.take(k + 1).drop_last() =~= unsorted.take(k as int));
            assert(unsorted.take(k + 1).last() == unsorted[k as int]);
        }
        insert_tab(&mut sorted, t);
        k = k + 1;
    }
    proof {
        assert(unsorted.take(n as int) =~= unsorted);
    }
    let mut names: Vec<String> = Vec::new();
    names.push(String::from_str("Model"));
    proof {
        reveal_strlit("Model");
        assert("Model"@ =~= model_name());
        assert(names@[0]@ == model_name());
        assert(names@.map_values(|s: String| s@) =~= seq![model_name()]);
    }
    let mut j: usize = 0;
    let ghost sv = tabs_view(sorted@);
    while j < sorted.len()
        invariant
            j <= sorted@.len(),
            sv == tabs_view(sorted@),
            names@.map_values(|s: String| s@) == seq![model_name()] + sv.take(j as int).map_values(
                |t: TabView| t.name,
            ),
        decreases sorted@.len() - j,
    {
        let ghost before = names@.map_values(|s: String| s@);
        names.push(sorted[j].name.clone());
        assert(sv.take(j + 1).map_values(|t: TabView| t.name) =~= sv.take(j as int).map_values(
            |t: TabView| t.name,
        ).push(sv[j as int].name));
        assert(names@.map_values(|s: String| s@) =~= before.push(sv[j as int].name));
        j = j + 1;
    }
    assert(sv.take(sv.len() as int) =~= sv);
    names
}

// ── laws on the tab list ───────────────────────────────────────────────

proof fn lemma_insert_by_tab(s: Seq<TabView>, x: TabView)
    requires
        tab_sorted(s),
    ensures
        tab_sorted(insert_by_tab(s, x)),
        insert_by_tab(s, x).to_multiset() == s.to_multiset().insert(x),
    decreases s.len(),
{
    broadcast use vstd::multiset::group_multiset_axioms;
    broadcast use vstd::seq_lib::group_to_multiset_ensures;
    if s.len() == 0 {
        assert(seq![x] =~= Seq::<TabView>::empty().push(x));
    } else if s.last().tab_order <= x.tab_order {
    } else {
        let d = s.drop_last();
        assert forall|i: int, j: int| 0 <= i <= j < d.len() implies d[i].tab_order <= d[j].tab_order by {
            assert(d[i] == s[i] && d[j] == s[j]);
        }
        lemma_insert_by_tab(d, x);
        let r = insert_by_tab(d, x);
        lemma_insert_elems(d, x);
        assert forall|i: int, j: int| 0 <= i <= j < r.len() + 1 implies r.push(s.last())[i].tab_order
            <= r.push(s.last())[j].tab_order by {
            if j == r.len() {
                if i < r.len() {
                    let e = r[i];
                    assert(r.contains(e));
                    assert(r.to_multiset().contains(e));
                    if e != x {
                        assert(d.to_multiset().contains(e));
                        assert(d.contains(e));
                        let k = d.index_of(e);
                        assert(s[k] == e);
                    }
                }
            }
        }
        assert(s =~= d.push(s.last()));
    }
}

proof fn lemma_insert_elems(s: Seq<TabView>, x: TabView)
    ensures
        insert_by_tab(s, x).len() == s.len() + 1,
    decreases s.len(),
{
    if s.len() > 0 && s.last().tab_order > x.tab_order {
        lemma_insert_elems(s.drop_last(), x);
    }
}

/// The paper tabs are listed by tab order, each tab exactly once.
pub proof fn law_tabs_sorted(s: Seq<TabView>)
    ensures
        tab_sorted(sort_by_tab(s)),
        sort_by_tab(s).to_multiset() == s.to_multiset(),
    decreases s.len(),
{
    broadcast use vstd::multiset::group_multiset_axioms;
    broadcast use vstd::seq_lib::group_to_multiset_ensures;
    if s.len() > 0 {
        law_tabs_sorted(s.drop_last());
        lemma_insert_by_tab(sort_by_tab(s.drop_last()), s.last());
        assert(s =~= s.drop_last().push(s.last()));
    }
}

/// Paper tab names are distinct, never empty, and never `Model`.
pub proof fn law_paper_tabs_distinct(ls: Seq<LayoutRec>)
    ensures
        forall|i: int, j: int|
            0 <= i < j < paper_tabs(ls).len() ==> paper_tabs(ls)[i].name != paper_tabs(ls)[j].name,
        forall|i: int|
            0 <= i < paper_tabs(ls).len() ==> paper_tabs(ls)[i].name != model_name()
                && paper_tabs(ls)[i].name.len() > 0,
    decreases ls.len(),
{
    if ls.len() > 0 {
        law_paper_tabs_distinct(ls.drop_last());
        let d = paper_tabs(ls.drop_last());
        let l = ls.last();
        lemma_find_tab_none(d, l.name@);
        lemma_find_tab(d, l.name@);
        if !(l.name@ == model_name() || l.name@.len() == 0) {
            let t = TabView { name: l.name@, tab_order: l.tab_order, block_record: l.block_record };
            let i = find_tab(d, l.name@);
            let r = paper_tabs(ls);
            if i < 0 {
                assert(r == d.push(t));
                assert forall|p: int, q: int| 0 <= p < q < r.len() implies r[p].name != r[q].name by {
                    if q == d.len() {
                        assert(r[p] == d[p]);
                    } else {
                        assert(r[p] == d[p] && r[q] == d[q]);
                    }
                }
                assert forall|p: int| 0 <= p < r.len() implies r[p].name != model_name() && r[p].name.len() > 0 by {
                    if p < d.len() {
                        assert(r[p] == d[p]);
                    }
                }
            } else {
                assert forall|p: int| 0 <= p < r.len() implies r[p].name == d[p].name by {}
            }
        }
    }
}

proof fn lemma_find_tab_none(d: Seq<TabView>, n: Seq<char>)
    ensures
        find_tab(d, n) < 0 ==> forall|i: int| 0 <= i < d.len() ==> d[i].name != n,
        find_tab(d, n) >= 0 ==> d[find_tab(d, n)].name == n,
    decreases d.len(),
{
    if d.len() > 0 && d.last().name != n {
        lemma_find_tab_none(d.drop_last(), n);
        assert forall|i: int| 0 <= i < d.len() - 1 implies d[i] == d.drop_last()[i] by {}
        let r = find_tab(d.drop_last(), n);
        if r >= 0 {
            lemma_find_tab(d.drop_last(), n);
            assert(d[r] == d.drop_last()[r]);
        }
    }
}

// ── renaming, reordering, deleting ─────────────────────────────────────

pub struct LayoutView {
    pub handle: u64,
    pub name: Seq<char>,
    pub block_record: u64,
    pub tab_order: i16,
    pub viewport: u64,
}

pub open spec fn lview(l: LayoutRec) -> LayoutView {
    LayoutView {
        handle: l.handle,
        name: l.name@,
        block_record: l.block_record,
        tab_order: l.tab_order,
        viewport: l.viewport,
    }
}

pub open spec fn layouts_view(s: Seq<LayoutRec>) -> Seq<LayoutView> {
    s.map_values(|l: LayoutRec| lview(l))
}

/// First position of a layout named `n`, or -1.
pub open spec fn first_named(ls: Seq<LayoutView>, n: Seq<char>) -> int
    decreases ls.len(),
{
    if ls.len() == 0 {
        -1
    } else if ls[0].name == n {
        0
    } else {
        let r = first_named(ls.drop_first(), n);
        if r < 0 {
            -1
        } else {
            r + 1
        }
    }
}

/// Tab order of the last layout named `n`.
pub open spec fn last_tab(ls: Seq<LayoutView>, n: Seq<char>) -> Option<i16>
    decreases ls.len(),
{
    if ls.len() == 0 {
        None
    } else if ls.last().name == n {
        Some(ls.last().tab_order)
    } else {
        last_tab(ls.drop_last(), n)
    }
}

proof fn lemma_first_named(ls: Seq<LayoutView>, n: Seq<char>)
    ensures
        -1 <= first_named(ls, n) < ls.len(),
        first_named(ls, n) >= 0 ==> ls[first_named(ls, n)].name == n,
        forall|i: int| 0 <= i < ls.len() && (first_named(ls, n) < 0 || i < first_named(ls, n)) ==> ls[i].name != n,
    decreases ls.len(),
{
    if ls.len() > 0 && ls[0].name != n {
        lemma_first_named(ls.drop_first(), n);
        assert forall|i: int| 1 <= i < ls.len() implies ls[i] == ls.drop_first()[i - 1] by {}
    }
}

pub(crate) fn first_named_exec(ls: &Vec<LayoutRec>, n: &str) -> (r: Option<usize>)
    ensures
        r is Some <==> first_named(layouts_view(ls@), n@) >= 0,
        r is Some ==> r->0 == first_named(layouts_view(ls@), n@) && r->0 < ls@.len(),
{
    let ghost lv = layouts_view(ls@);
    proof {
        lemma_first_named(lv, n@);
    }
    let mut i: usize = 0;
    while i < ls.len()
        invariant
            i <= ls@.len(),
            lv == layouts_view(ls@),
            forall|k: int| 0 <= k < i ==> lv[k].name != n@,
            -1 <= first_named(lv, n@) < lv.len(),
            first_named(lv, n@) >= 0 ==> lv[first_named(lv, n@)].name == n@,
            forall|k: int| 0 <= k < lv.len() && (first_named(lv, n@) < 0 || k < first_named(lv, n@)) ==> lv[k].name != n@,
        decreases ls@.len() - i,
    {
        if str_eq(ls[i].name.as_str(), n) {
            assert(lv[i as int].name == n@);
            return Some(i);
        }
        i = i + 1;
    }
    None
}

/// Renames the first layout named `old_name`.
pub fn rename_layout(layouts: &mut Vec<LayoutRec>, old_name: &str, new_name: &str)
    ensures
        layouts_view(final(layouts)@) == (if first_named(layouts_view(old(layouts)@), old_name@) >= 0 {
            let i = first_named(layouts_view(old(layouts)@), old_name@);
            layouts_view(old(layouts)@).update(i, LayoutView { name: new_name@, ..layouts_view(old(layouts)@)[i] })
        } else {
            layouts_view(old(layouts)@)
        }),
{
    let ghost lv = layouts_view(layouts@);
    match first_named_exec(layouts, old_name) {
        Some(i) => {
            layouts[i].name = String::from_str(new_name);
            assert(layouts_view(layouts@) =~= lv.update(i as int, LayoutView { name: new_name@, ..lv[i as int] }));
        },
        None => {},
    }
}

/// Swaps the tab orders of the layouts named `a` and `b` (each takes the order
/// of the last layout of the other name); nothing changes unless both exist.
pub open spec fn spec_swap_tabs(ls: Seq<LayoutView>, a: Seq<char>, b: Seq<char>) -> Seq<LayoutView> {
    match (last_tab(ls, a), last_tab(ls, b)) {
        (Some(oa), Some(ob)) => ls.map_values(
            |l: LayoutView|
                if l.name == a {
                    LayoutView { tab_order: ob, ..l }
                } else if l.name == b {
                    LayoutView { tab_order: oa, ..l }
                } else {
                    l
                },
        ),
        _ => ls,
    }
}

pub fn swap_layout_order(layouts: &mut Vec<LayoutRec>, name_a: &str, name_b: &str)
    ensures
        layouts_view(final(layouts)@) == spec_swap_tabs(layouts_view(old(layouts)@), name_a@, name_b@),
{
    let ghost lv = layouts_view(layouts@);
    let mut oa: Option<i16> = None;
    let mut ob: Option<i16> = None;
    let mut i: usize = 0;
    while i < layouts.len()
        invariant
            i <= layouts@.len(),
            lv == layouts_view(layouts@),
            oa == last_tab(lv.take(i as int), name_a@),
            ob == last_tab(lv.take(i as int), name_b@),
        decreases layouts@.len() - i,
    {
        proof {
            assert(lv.take(i + 1).drop_last() =~= lv.take(i as int));
            assert(lv.take(i + 1).last() == lv[i as int]);
        }
        if str_eq(layouts[i].name.as_str(), name_a) {
            oa = Some(layouts[i].tab_order);
        }
        if str_eq(layouts[i].name.as_str(), name_b) {
            ob = Some(layouts[i].tab_order);
        }
        i = i + 1;
    }
    assert(lv.take(lv.len() as int) =~= lv);
    match (oa, ob) {
        (Some(ta), Some(tb)) => {
            let ghost target = spec_swap_tabs(lv, name_a@, name_b@);
            let mut k: usize = 0;
            while k < layouts.len()
                invariant
                    k <= layouts@.len(),
                    layouts@.len() == lv.len(),
                    target == spec_swap_tabs(lv, name_a@, name_b@),
                    oa == Some(ta) && ob == Some(tb),
                    oa == last_tab(lv, name_a@),
                    ob == last_tab(lv, name_b@),
                    forall|j: int| 0 <= j < k ==> #[trigger] layouts_view(layouts@)[j] == target[j],
                    forall|j: int| k <= j < lv.len() ==> #[trigger] layouts_view(layouts@)[j] == lv[j],
                decreases layouts@.len() - k,
            {
                let ghost before = layouts_view(layouts@);
                proof {
                    let f = |l: LayoutView|
                        if l.name == name_a@ {
                            LayoutView { tab_order: tb, ..l }
                        } else if l.name == name_b@ {
                            LayoutView { tab_order: ta, ..l }
                        } else {
                            l
                        };
                    assert(target == lv.map_values(f));
                    assert(target[k as int] == f(lv[k as int]));
                }
                assert(before[k as int] == lv[k as int]);
                if str_eq(layouts[k].name.as_str(), name_a) {
                    layouts[k].tab_order = tb;
                    assert(layouts_view(layouts@)[k as int] == LayoutView { tab_order: tb, ..lv[k as int] });
                } else if str_eq(layouts[k].name.as_str(), name_b) {
                    layouts[k].tab_order = ta;
                    assert(layouts_view(layouts@)[k as int] == LayoutView { tab_order: ta, ..lv[k as int] });
                }
                assert(layouts_view(layouts@)[k as int] == target[k as int]);
                proof {
                    assert forall|j: int| 0 <= j < lv.len() && j != k implies #[trigger] layouts_view(layouts@)[j] == before[j] by {}
                }
                k = k + 1;
            }
            assert(layouts_view(layouts@) =~= spec_swap_tabs(lv, name_a@, name_b@));
        },
        _ => {},
    }
}

/// An entity and the block record that owns it.
#[derive(Clone, Copy, Debug, PartialEq, Eq)]
pub struct OwnedEntity {
    pub handle: u64,
    pub owner: u64,
}

/// The entities of `es` not owned by `b`, in order.
pub open spec fn not_owned_by(es: Seq<OwnedEntity>, b: u64) -> Seq<OwnedEntity>
    decreases es.len(),
{
    if es.len() == 0 {
        Seq::empty()
    } else {
        let rest = not_owned_by(es.drop_last(), b);
        if es.last().owner == b {
            rest
        } else {
            rest.push(es.last())
        }
    }
}

/// Whether deleting the layout `name` goes ahead: it is a paper layout and one
/// of that name exists.
pub open spec fn deletes_layout(ls: Seq<LayoutView>, name: Seq<char>) -> bool {
    name != model_name() && first_named(ls, name) >= 0
}

/// Deletes the first paper layout named `name` with the entities its block
/// record owns; when it was the current layout, model space becomes current.
/// Returns `false`, changing nothing, for `Model` or a name no layout has.
pub fn delete_layout(
    layouts: &mut Vec<LayoutRec>,
    entities: &mut Vec<OwnedEntity>,
    current: &mut String,
    name: &str,
) -> (deleted: bool)
    ensures
        deleted == deletes_layout(layouts_view(old(layouts)@), name@),
        deleted ==> {
            let i = first_named(layouts_view(old(layouts)@), name@);
            &&& layouts_view(final(layouts)@) == layouts_view(old(layouts)@).remove(i)
            &&& final(entities)@ == not_owned_by(old(entities)@, old(layouts)@[i].block_record)
            &&& final(current)@ == (if old(current)@ == name@ {
                model_name()
            } else {
                old(current)@
            })
        },
        !deleted ==> {
            &&& final(layouts)@ == old(layouts)@
            &&& final(entities)@ == old(entities)@
            &&& final(current)@ == old(current)@
        },
{
    proof {
        reveal_strlit("Model");
        assert("Model"@ =~= model_name());
    }
    if str_eq(name, "Model") {
        return false;
    }
    let ghost lv = layouts_view(layouts@);
    let i = match first_named_exec(layouts, name) {
        Some(i) => i,
        None => {
            return false;
        },
    };
    let block = layouts[i].block_record;
    let ghost e0 = entities@;
    let mut kept: Vec<OwnedEntity> = Vec::new();
    let mut k: usize = 0;
    while k < entities.len()
        invariant
            entities@ == e0,
            k <= e0.len(),
            kept@ == not_owned_by(e0.take(k as int), block),
        decreases e0.len() - k,
    {
        proof {
            assert(e0.take(k + 1).drop_last() =~= e0.take(k as int));
        }
        let e = entities[k];
        if e.owner != block {
            kept.push(e);
        }
        k = k + 1;
    }
    assert(e0.take(e0.len() as int) =~= e0);
    *entities = kept;
    layouts.remove(i);
    assert(layouts_view(layouts@) =~= lv.remove(i as int));
    if str_eq(current.as_str(), name) {
        *current = String::from_str("Model");
    }
    true
}

proof fn lemma_paper_tab_names(ls: Seq<LayoutRec>, k: int)
    requires
        0 <= k < paper_tabs(ls).len(),
    ensures
        exists|j: int| 0 <= j < ls.len() && ls[j].name@ == #[trigger] paper_tabs(ls)[k].name,
    decreases ls.len(),
{
    let d = paper_tabs(ls.drop_last());
    let l = ls.last();
    let r = paper_tabs(ls);
    lemma_find_tab_none(d, l.name@);
    lemma_find_tab(d, l.name@);
    if k < d.len() && (l.name@ == model_name() || l.name@.len() == 0 || find_tab(d, l.name@) < 0
        || r[k] == d[k]) {
        lemma_paper_tab_names(ls.drop_last(), k);
        let j = choose|j: int| 0 <= j < ls.drop_last().len() && ls.drop_last()[j].name@ == d[k].name;
        assert(ls[j] == ls.drop_last()[j]);
        if !(l.name@ == model_name() || l.name@.len() == 0) {
            if find_tab(d, l.name@) < 0 {
                assert(r[k] == d[k]);
            }
        }
        assert(ls[j].name@ == r[k].name);
    } else {
        assert(r[k].name == l.name@);
        assert(ls[ls.len() - 1] == l);
    }
}

/// Once the only layout of a name is deleted, the tab list no longer shows it.
pub proof fn law_deleted_layout_not_listed(before: Seq<LayoutRec>, after: Seq<LayoutRec>, name: Seq<char>)
    requires
        deletes_layout(layouts_view(before), name),
        layouts_view(after) == layouts_view(before).remove(first_named(layouts_view(before), name)),
        forall|j: int|
            0 <= j < before.len() && j != first_named(layouts_view(before), name)
                ==> #[trigger] before[j].name@ != name,
    ensures
        !spec_layout_names(after).contains(name),
{
    broadcast use vstd::seq_lib::group_to_multiset_ensures;
    let i = first_named(layouts_view(before), name);
    lemma_first_named(layouts_view(before), name);
    assert(layouts_view(before).len() == before.len());
    assert(layouts_view(after).len() == after.len());
    assert(after.len() == before.len() - 1);
    assert forall|j: int| 0 <= j < after.len() implies #[trigger] after[j].name@ != name by {
        assert(layouts_view(after)[j] == lview(after[j]));
        if j < i {
            assert(layouts_view(before)[j] == lview(before[j]));
        } else {
            assert(layouts_view(before)[j + 1] == lview(before[j + 1]));
        }
    }
    let tabs = paper_tabs(after);
    let sorted = sort_by_tab(tabs);
    law_tabs_sorted(tabs);
    let names = spec_layout_names(after);
    if names.contains(name) {
        let p = choose|p: int| 0 <= p < names.len() && names[p] == name;
        assert(names[0] == model_name());
        assert(p > 0);
        let t = sorted[p - 1];
        assert(names[p] == t.name);
        assert(sorted.contains(t));
        assert(sorted.to_multiset().count(t) > 0);
        assert(tabs.contains(t));
        let k = choose|k: int| 0 <= k < tabs.len() && tabs[k] == t;
        lemma_paper_tab_names(after, k);
        let j = choose|j: int| 0 <= j < after.len() && after[j].name@ == tabs[k].name;
        assert(after[j].name@ != name);
    }
}

/// Makes `name` the current layout; `true` when it was not already, so that
/// what was drawn for the old one must be redone.
pub fn set_current_layout(current: &mut String, name: String) -> (changed: bool)
    ensures
        changed == (old(current)@ != name@),
        final(current)@ == name@,
{
    if str_eq(current.as_str(), name.as_str()) {
        false
    } else {
        *current = name;
        true
    }
}

/// Whether a new entity goes into the current paper layout's block (the
/// layout is not `Model` and no viewport is active) rather than model space.
pub fn adds_to_layout(current: &str, active_viewport: Option<u64>) -> (r: bool)
    ensures
        r == (current@ != model_name() && active_viewport is None),
{
    proof {
        reveal_strlit("Model");
        assert("Model"@ =~= model_name());
    }
    !str_eq(current, "Model") && active_viewport.is_none()
}

/// The layout `l` as the tab it would be listed as.
pub open spec fn tab_of(l: LayoutRec) -> TabView {
    TabView { name: l.name@, tab_order: l.tab_order, block_record: l.block_record }
}

proof fn lemma_tab_from_one_layout(ls: Seq<LayoutRec>, k: int)
    requires
        0 <= k < paper_tabs(ls).len(),
    ensures
        exists|j: int| 0 <= j < ls.len() && tab_of(ls[j]) == #[trigger] paper_tabs(ls)[k],
    decreases ls.len(),
{
    let d = paper_tabs(ls.drop_last());
    let l = ls.last();
    let r = paper_tabs(ls);
    lemma_find_tab_none(d, l.name@);
    lemma_find_tab(d, l.name@);
    assert(ls[ls.len() - 1] == l);
    if r[k] == tab_of(l) {
    } else {
        assert(k < d.len() && r[k] == d[k]);
        lemma_tab_from_one_layout(ls.drop_last(), k);
        let j = choose|j: int| 0 <= j < ls.drop_last().len() && tab_of(ls.drop_last()[j]) == d[k];
        assert(ls[j] == ls.drop_last()[j]);
    }
}

/// Each listed paper tab is one layout of the drawing as it stands: its name,
/// tab order and block record all come from a single layout, so a layout that
/// takes the place of a placeholder of its name brings its own tab order.
pub proof fn law_tabs_come_from_layouts(ls: Seq<LayoutRec>)
    ensures
        forall|k: int|
            0 <= k < paper_tabs(ls).len() ==> exists|j: int|
                0 <= j < ls.len() && tab_of(ls[j]) == #[trigger] paper_tabs(ls)[k],
{
    assert forall|k: int| 0 <= k < paper_tabs(ls).len() implies exists|j: int|
        0 <= j < ls.len() && tab_of(ls[j]) == #[trigger] paper_tabs(ls)[k] by {
        lemma_tab_from_one_layout(ls, k);
    }
}

proof fn lemma_find_tab_names(a: Seq<TabView>, b: Seq<TabView>, n: Seq<char>)
    requires
        a.len() == b.len(),
        forall|x: int| 0 <= x < a.len() ==> #[trigger] a[x].name == b[x].name,
    ensures
        find_tab(a, n) == find_tab(b, n),
    decreases a.len(),
{
    if a.len() > 0 {
        assert(a.last().name == b.last().name);
        assert forall|x: int| 0 <= x < a.len() - 1 implies #[trigger] a.drop_last()[x].name == b.drop_last()[x].name by {
            assert(a.drop_last()[x] == a[x] && b.drop_last()[x] == b[x]);
        }
        lemma_find_tab_names(a.drop_last(), b.drop_last(), n);
    }
}

/// Every paper layout's name is listed.
proof fn lemma_name_listed(ls: Seq<LayoutRec>, j: int)
    requires
        0 <= j < ls.len(),
        ls[j].name@ != model_name(),
        ls[j].name@.len() > 0,
    ensures
        find_tab(paper_tabs(ls), ls[j].name@) >= 0,
    decreases ls.len(),
{
    let d = paper_tabs(ls.drop_last());
    let l = ls.last();
    let r = paper_tabs(ls);
    let n = ls[j].name@;
    lemma_find_tab(d, l.name@);
    if j < ls.len() - 1 {
        assert(ls[j] == ls.drop_last()[j]);
        lemma_name_listed(ls.drop_last(), j);
    }
    // `n` is in `d` (when j is not the last layout) or is `l`'s name
    if l.name@ == model_name() || l.name@.len() == 0 {
        assert(r == d);
        assert(j < ls.len() - 1);
    } else {
        let t = TabView { name: l.name@, tab_order: l.tab_order, block_record: l.block_record };
        let i = find_tab(d, l.name@);
        if i < 0 {
            assert(r == d.push(t));
            assert(r.drop_last() =~= d);
            if l.name@ != n {
                assert(find_tab(r, n) == find_tab(d, n));
            }
        } else {
            lemma_find_tab_none(d, l.name@);
            if d[i].block_record == 0 && l.block_record != 0 {
                assert(r == d.update(i, t));
                lemma_find_tab_names(r, d, n);
                lemma_find_tab_names(r, d, l.name@);
            } else {
                assert(r == d);
            }
        }
    }
}

/// A placeholder (no block record) is listed only while no layout of its name
/// has a block record.
pub proof fn law_placeholder_gives_way(ls: Seq<LayoutRec>, k: int)
    requires
        0 <= k < paper_tabs(ls).len(),
        paper_tabs(ls)[k].block_record == 0,
    ensures
        forall|j: int|
            0 <= j < ls.len() && #[trigger] ls[j].name@ == paper_tabs(ls)[k].name ==> ls[j].block_record == 0,
    decreases ls.len(),
{
    let d = paper_tabs(ls.drop_last());
    let l = ls.last();
    let r = paper_tabs(ls);
    lemma_find_tab_none(d, l.name@);
    lemma_find_tab(d, l.name@);
    law_paper_tabs_distinct(ls.drop_last());
    assert(ls[ls.len() - 1] == l);
    let i = find_tab(d, l.name@);
    if l.name@ == model_name() || l.name@.len() == 0 {
        assert(r == d);
        law_placeholder_gives_way(ls.drop_last(), k);
        assert forall|j: int| 0 <= j < ls.len() && #[trigger] ls[j].name@ == r[k].name implies ls[j].block_record
            == 0 by {
            if j < ls.len() - 1 {
                assert(ls[j] == ls.drop_last()[j]);
            } else {
                law_paper_tabs_distinct(ls);
            }
        }
    } else if i < 0 {
        if k == d.len() {
            assert(r[k] == tab_of(l));
            assert forall|j: int| 0 <= j < ls.len() && #[trigger] ls[j].name@ == r[k].name implies ls[j].block_record
                == 0 by {
                if j < ls.len() - 1 {
                    assert(ls[j] == ls.drop_last()[j]);
                    lemma_name_listed(ls.drop_last(), j);
                    lemma_find_tab_none(d, l.name@);
                }
            }
        } else {
            assert(r[k] == d[k]);
            law_placeholder_gives_way(ls.drop_last(), k);
            assert forall|j: int| 0 <= j < ls.len() && #[trigger] ls[j].name@ == r[k].name implies ls[j].block_record
                == 0 by {
                if j < ls.len() - 1 {
                    assert(ls[j] == ls.drop_last()[j]);
                }
            }
        }
    } else {
        if k == i {
            // the kept tab of this name stays a placeholder: `l` has none either
            if d[i].block_record == 0 && l.block_record != 0 {
                assert(r[k] == tab_of(l));
            } else {
                assert(r[k] == d[k]);
                law_placeholder_gives_way(ls.drop_last(), k);
            }
        } else {
            assert(r[k] == d[k]);
            law_placeholder_gives_way(ls.drop_last(), k);
        }
        assert forall|j: int| 0 <= j < ls.len() && #[trigger] ls[j].name@ == r[k].name implies ls[j].block_record
            == 0 by {
            if j < ls.len() - 1 {
                assert(ls[j] == ls.drop_last()[j]);
            }
        }
    }
}

} // verus!
