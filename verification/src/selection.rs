//! Entity selection and selection groups.
//!
//! Entities are named by their handle value. What a rule reads from a drawing
//! (an entity's type name and layer, a property's text, the groups) is handed
//! in as plain values.

use vstd::prelude::*;
use std::collections::HashSet;
use crate::text_codes::str_chars;
use crate::paper::{seq_le, str_le, lemma_seq_le_total, lemma_seq_le_transitive, lemma_seq_le_antisymmetric};

verus! {

broadcast use vstd::std_specs::hash::group_hash_axioms;

/// What "similar" compares: an entity's kind (type name) and its layer.
pub struct EntityKey {
    pub kind: String,
    pub layer: String,
}

pub open spec fn key_view(k: EntityKey) -> (Seq<char>, Seq<char>) {
    (k.kind@, k.layer@)
}

/// The selected handles.
pub struct Selection {
    pub selected: HashSet<u64>,
}

fn key_eq(a: &EntityKey, b: &EntityKey) -> (r: bool)
    ensures
        r == (key_view(*a) == key_view(*b)),
{
    a.kind == b.kind && a.layer == b.layer
}

fn key_in(k: &EntityKey, keys: &Vec<EntityKey>) -> (r: bool)
    ensures
        r == exists|i: int| 0 <= i < keys@.len() && key_view(keys@[i]) == key_view(*k),
{
    let mut i: usize = 0;
    while i < keys.len()
        invariant
            i <= keys@.len(),
            forall|j: int| 0 <= j < i ==> key_view(keys@[j]) != key_view(*k),
        decreases keys@.len() - i,
    {
        if key_eq(&keys[i], k) {
            return true;
        }
        i = i + 1;
    }
    false
}

/// Candidates `(handle, key)` of `cands` whose key is one of `seeds`; a
/// candidate whose entity is missing has no key.
pub open spec fn similar_handles(
    seeds: Seq<EntityKey>,
    cands: Seq<(u64, Option<EntityKey>)>,
) -> Set<u64> {
    Set::new(
        |h: u64|
            exists|i: int|
                0 <= i < cands.len() && cands[i].0 == h && cands[i].1 is Some && exists|j: int|
                    0 <= j < seeds.len() && key_view(seeds[j]) == key_view(cands[i].1->0),
    )
}

/// Handles of `cands[..n]` (`None` entries skipped) whose key is a seed.
pub open spec fn similar_prefix(
    seeds: Seq<EntityKey>,
    cands: Seq<(u64, Option<EntityKey>)>,
    n: int,
) -> Set<u64> {
    similar_handles(seeds, cands.take(n))
}

impl Selection {
    /// Nothing selected.
    pub fn new() -> (s: Self)
        ensures
            s.selected@ == Set::<u64>::empty(),
    {
        Selection { selected: HashSet::new() }
    }

    /// Selects `handle`; with `exclusive`, everything else is deselected first.
    pub fn select_entity(&mut self, handle: u64, exclusive: bool)
        ensures
            final(self).selected@ == (if exclusive {
                Set::<u64>::empty().insert(handle)
            } else {
                old(self).selected@.insert(handle)
            }),
    {
        if exclusive {
            self.selected.clear();
        }
        self.selected.insert(handle);
    }

    pub fn deselect_all(&mut self)
        ensures
            final(self).selected@ == Set::<u64>::empty(),
    {
        self.selected.clear();
    }

    /// Deselects `handle`; true when it was selected.
    pub fn deselect_entity(&mut self, handle: u64) -> (was: bool)
        ensures
            final(self).selected@ == old(self).selected@.remove(handle),
            was == old(self).selected@.contains(handle),
    {
        self.selected.remove(&handle)
    }

    /// Adds every candidate of the active layout whose `(type, layer)` matches
    /// one of the selected entities' (`seeds`); returns how many handles were
    /// added. Nothing changes when nothing is selected.
    pub fn select_similar(
        &mut self,
        seeds: &Vec<EntityKey>,
        cands: &Vec<(u64, Option<EntityKey>)>,
    ) -> (added: usize)
        ensures
            old(self).selected@ == Set::<u64>::empty() ==> final(self).selected@ == old(
                self,
            ).selected@ && added == 0,
            old(self).selected@ != Set::<u64>::empty() ==> final(self).selected@ == old(
                self,
            ).selected@.union(similar_handles(seeds@, cands@)),
            added == final(self).selected@.difference(old(self).selected@).len(),
            final(self).selected@.difference(old(self).selected@).finite(),
    {
        let ghost s0 = self.selected@;
        if self.selected.is_empty() {
            assert(s0.difference(s0) =~= Set::<u64>::empty());
            return 0;
        }
        let mut added: usize = 0;
        let mut i: usize = 0;
        proof {
            assert(cands@.take(0) =~= Seq::<(u64, Option<EntityKey>)>::empty());
            assert(similar_prefix(seeds@, cands@, 0) =~= Set::<u64>::empty());
            assert(self.selected@.difference(s0) =~= Set::<u64>::empty());
        }
        while i < cands.len()
            invariant
                i <= cands@.len(),
                self.selected@ == s0.union(similar_prefix(seeds@, cands@, i as int)),
                self.selected@.difference(s0).finite(),
                added == self.selected@.difference(s0).len(),
                added <= i,
            decreases cands@.len() - i,
        {
            let h = cands[i].0;
            let ghost before = self.selected@;
            proof {
                assert(cands@.take(i + 1).drop_last() =~= cands@.take(i as int));
            }
            let hit = match &cands[i].1 {
                Some(k) => key_in(k, seeds),
                None => false,
            };
            if hit && !self.selected.contains(&h) {
                self.selected.insert(h);
                added = added + 1;
                proof {
                    assert(self.selected@.difference(s0) =~= before.difference(s0).insert(h));
                }
            }
            proof {
                let p0 = similar_prefix(seeds@, cands@, i as int);
                let p1 = similar_prefix(seeds@, cands@, i + 1);
                let t1 = cands@.take(i + 1);
                assert forall|x: u64| p1.contains(x) <==> (p0.contains(x) || (hit && x == h)) by {
                    if p1.contains(x) {
                        let k = choose|k: int|
                            0 <= k < t1.len() && t1[k].0 == x && t1[k].1 is Some && exists|j: int|
                                0 <= j < seeds@.len() && key_view(seeds@[j]) == key_view(t1[k].1->0);
                        if k < i {
                            assert(cands@.take(i as int)[k] == t1[k]);
                        }
                    }
                    if p0.contains(x) {
                        let k = choose|k: int|
                            0 <= k < cands@.take(i as int).len() && cands@.take(i as int)[k].0 == x
                                && cands@.take(i as int)[k].1 is Some && exists|j: int|
                                0 <= j < seeds@.len() && key_view(seeds@[j]) == key_view(
                                cands@.take(i as int)[k].1->0,
                            );
                        assert(t1[k] == cands@.take(i as int)[k]);
                    }
                    if hit && x == h {
                        assert(t1[i as int] == cands@[i as int]);
                    }
                }
                assert(self.selected@ =~= s0.union(p1));
            }
            i = i + 1;
        }
        proof {
            assert(cands@.take(cands@.len() as int) =~= cands@);
        }
        added
    }

    /// Adds every member of each selectable group holding one of `handles`.
    pub fn expand_selection_for_groups(&mut self, groups: &Vec<GroupRec>, handles: &Vec<u64>)
        ensures
            final(self).selected@ == old(self).selected@.union(group_expansion(groups@, handles@)),
    {
        let ghost s0 = self.selected@;
        let mut g: usize = 0;
        proof {
            assert(group_expansion(groups@.take(0), handles@) =~= Set::<u64>::empty());
            assert(self.selected@ =~= s0.union(Set::<u64>::empty()));
        }
        while g < groups.len()
            invariant
                g <= groups@.len(),
                self.selected@ == s0.union(group_expansion(groups@.take(g as int), handles@)),
            decreases groups@.len() - g,
        {
            let grp = &groups[g];
            let ghost before = self.selected@;
            let hit = grp.selectable && holds_any(&grp.entities, handles);
            if hit {
                let mut k: usize = 0;
                while k < grp.entities.len()
                    invariant
                        k <= grp.entities@.len(),
                        self.selected@ == before.union(grp.entities@.take(k as int).to_set()),
                    decreases grp.entities@.len() - k,
                {
                    self.selected.insert(grp.entities[k]);
                    proof {
                        grp.entities@.take(k as int).lemma_push_to_set_commute(grp.entities@[k as int]);
                        assert(grp.entities@.take(k + 1) =~= grp.entities@.take(k as int).push(
                            grp.entities@[k as int],
                        ));
                    }
                    k = k + 1;
                    assert(self.selected@ =~= before.union(grp.entities@.take(k as int).to_set()));
                }
                assert(grp.entities@.take(grp.entities@.len() as int) =~= grp.entities@);
            }
            proof {
                lemma_group_expansion_step(groups@, handles@, g as int);
                assert(self.selected@ =~= s0.union(group_expansion(groups@.take(g + 1), handles@)));
            }
            g = g + 1;
        }
        assert(groups@.take(groups@.len() as int) =~= groups@);
    }
}

// ── groups ─────────────────────────────────────────────────────────────

/// A named selection group.
pub struct GroupRec {
    pub handle: u64,
    pub name: String,
    pub entities: Vec<u64>,
    pub selectable: bool,
}

/// `ents` holds one of `handles`.
pub open spec fn holds_any_spec(ents: Seq<u64>, handles: Seq<u64>) -> bool {
    exists|i: int| 0 <= i < handles.len() && ents.contains(handles[i])
}

fn holds(ents: &Vec<u64>, h: u64) -> (r: bool)
    ensures
        r == ents@.contains(h),
{
    let mut i: usize = 0;
    while i < ents.len()
        invariant
            i <= ents@.len(),
            forall|j: int| 0 <= j < i ==> ents@[j] != h,
        decreases ents@.len() - i,
    {
        if ents[i] == h {
            assert(ents@[i as int] == h);
            return true;
        }
        i = i + 1;
    }
    false
}

fn holds_any(ents: &Vec<u64>, handles: &Vec<u64>) -> (r: bool)
    ensures
        r == holds_any_spec(ents@, handles@),
{
    let mut i: usize = 0;
    while i < handles.len()
        invariant
            i <= handles@.len(),
            forall|j: int| 0 <= j < i ==> !ents@.contains(handles@[j]),
        decreases handles@.len() - i,
    {
        if holds(ents, handles[i]) {
            return true;
        }
        i = i + 1;
    }
    false
}

/// Members of the selectable groups that hold one of `handles`.
pub open spec fn group_expansion(groups: Seq<GroupRec>, handles: Seq<u64>) -> Set<u64> {
    Set::new(
        |h: u64|
            exists|g: int|
                0 <= g < groups.len() && groups[g].selectable && holds_any_spec(
                    groups[g].entities@,
                    handles,
                ) && groups[g].entities@.contains(h),
    )
}

proof fn lemma_group_expansion_step(groups: Seq<GroupRec>, handles: Seq<u64>, g: int)
    requires
        0 <= g < groups.len(),
    ensures
        group_expansion(groups.take(g + 1), handles) == group_expansion(groups.take(g), handles).union(
            if groups[g].selectable && holds_any_spec(groups[g].entities@, handles) {
                groups[g].entities@.to_set()
            } else {
                Set::empty()
            },
        ),
{
    let a = groups.take(g + 1);
    let b = groups.take(g);
    assert forall|x: int| 0 <= x < g implies a[x] == b[x] by {}
    assert(a[g] == groups[g]);
    assert(group_expansion(a, handles) =~= group_expansion(b, handles).union(
        if groups[g].selectable && holds_any_spec(groups[g].entities@, handles) {
            groups[g].entities@.to_set()
        } else {
            Set::empty()
        },
    ));
}

/// Names of the groups holding `handle`, in the order of `groups`.
pub open spec fn names_holding(groups: Seq<GroupRec>, handle: u64) -> Seq<Seq<char>>
    decreases groups.len(),
{
    if groups.len() == 0 {
        Seq::empty()
    } else {
        let rest = names_holding(groups.drop_last(), handle);
        if groups.last().entities@.contains(handle) {
            rest.push(groups.last().name@)
        } else {
            rest
        }
    }
}

/// Names of all groups that hold `handle`.
pub fn group_names_for_entity(groups: &Vec<GroupRec>, handle: u64) -> (names: Vec<String>)
    ensures
        names@.map_values(|s: String| s@) == names_holding(groups@, handle),
{
    let mut names: Vec<String> = Vec::new();
    let mut g: usize = 0;
    while g < groups.len()
        invariant
            g <= groups@.len(),
            names@.map_values(|s: String| s@) == names_holding(groups@.take(g as int), handle),
        decreases groups@.len() - g,
    {
        proof {
            assert(groups@.take(g + 1).drop_last() =~= groups@.take(g as int));
        }
        if holds(&groups[g].entities, handle) {
            let n = groups[g].name.clone();
            names.push(n);
            assert(names@.map_values(|s: String| s@) =~= names_holding(groups@.take(g as int), handle).push(
                groups@[g as int].name@,
            ));
        }
        g = g + 1;
    }
    assert(groups@.take(groups@.len() as int) =~= groups@);
    names
}

pub struct GroupView {
    pub handle: u64,
    pub name: Seq<char>,
    pub entities: Seq<u64>,
    pub selectable: bool,
}

pub open spec fn gview(g: GroupRec) -> GroupView {
    GroupView { handle: g.handle, name: g.name@, entities: g.entities@, selectable: g.selectable }
}

pub open spec fn groups_view(s: Seq<GroupRec>) -> Seq<GroupView> {
    s.map_values(|g: GroupRec| gview(g))
}

/// A group dictionary entry as `(name, group handle)`.
pub open spec fn dict_view(d: Seq<(String, u64)>) -> Seq<(Seq<char>, u64)> {
    d.map_values(|e: (String, u64)| (e.0@, e.1))
}

/// Groups of a drawing with the group dictionary's `(name, group handle)`
/// entries.
pub struct GroupTable {
    pub groups: Vec<GroupRec>,
    pub dict: Vec<(String, u64)>,
}

/// `e` without the handles in `handles`, in order.
pub open spec fn drop_handles(e: Seq<u64>, handles: Seq<u64>) -> Seq<u64>
    decreases e.len(),
{
    if e.len() == 0 {
        Seq::empty()
    } else {
        let rest = drop_handles(e.drop_last(), handles);
        if handles.contains(e.last()) {
            rest
        } else {
            rest.push(e.last())
        }
    }
}

/// Groups left after deleting those that hold one of `handles`.
pub open spec fn groups_kept(gs: Seq<GroupView>, handles: Seq<u64>) -> Seq<GroupView>
    decreases gs.len(),
{
    if gs.len() == 0 {
        Seq::empty()
    } else {
        let rest = groups_kept(gs.drop_last(), handles);
        if holds_any_spec(gs.last().entities, handles) {
            rest
        } else {
            rest.push(gs.last())
        }
    }
}

/// Handles of the groups that hold one of `handles`.
pub open spec fn groups_hit(gs: Seq<GroupView>, handles: Seq<u64>) -> Set<u64> {
    Set::new(
        |gh: u64|
            exists|i: int| 0 <= i < gs.len() && gs[i].handle == gh && holds_any_spec(gs[i].entities, handles),
    )
}

/// Groups after erasing `handles`: each loses those members, and a group left
/// empty goes.
pub open spec fn groups_erased(gs: Seq<GroupView>, handles: Seq<u64>) -> Seq<GroupView>
    decreases gs.len(),
{
    if gs.len() == 0 {
        Seq::empty()
    } else {
        let rest = groups_erased(gs.drop_last(), handles);
        let g = gs.last();
        let e = drop_handles(g.entities, handles);
        if e.len() == 0 {
            rest
        } else {
            rest.push(GroupView { entities: e, ..g })
        }
    }
}

/// Handles of the groups that erasing `handles` leaves empty.
pub open spec fn groups_emptied(gs: Seq<GroupView>, handles: Seq<u64>) -> Set<u64> {
    Set::new(
        |gh: u64|
            exists|i: int|
                0 <= i < gs.len() && gs[i].handle == gh && drop_handles(gs[i].entities, handles).len()
                    == 0,
    )
}

/// Dictionary entries that do not name a group in `gone`, in order.
pub open spec fn dict_kept(d: Seq<(Seq<char>, u64)>, gone: Set<u64>) -> Seq<(Seq<char>, u64)>
    decreases d.len(),
{
    if d.len() == 0 {
        Seq::empty()
    } else {
        let rest = dict_kept(d.drop_last(), gone);
        if gone.contains(d.last().1) {
            rest
        } else {
            rest.push(d.last())
        }
    }
}

fn drop_handles_vec(e: &Vec<u64>, handles: &Vec<u64>) -> (r: Vec<u64>)
    ensures
        r@ == drop_handles(e@, handles@),
{
    let mut r: Vec<u64> = Vec::new();
    let mut i: usize = 0;
    while i < e.len()
        invariant
            i <= e@.len(),
            r@ == drop_handles(e@.take(i as int), handles@),
        decreases e@.len() - i,
    {
        proof {
            assert(e@.take(i + 1).drop_last() =~= e@.take(i as int));
        }
        if !holds(handles, e[i]) {
            r.push(e[i]);
        }
        i = i + 1;
    }
    assert(e@.take(e@.len() as int) =~= e@);
    r
}

/// Removes from `dict` the entries naming a group in `gone` (given as a list).
fn prune_dict(dict: &mut Vec<(String, u64)>, gone: &Vec<u64>)
    ensures
        dict_view(final(dict)@) == dict_kept(dict_view(old(dict)@), gone@.to_set()),
{
    let ghost d0 = dict_view(dict@);
    let mut old_entries: Vec<(String, u64)> = Vec::new();
    std::mem::swap(&mut old_entries, dict);
    let ghost src = old_entries@;
    let n = old_entries.len();
    let mut i: usize = 0;
    proof {
        assert(dict_view(src).take(0) =~= Seq::<(Seq<char>, u64)>::empty());
        assert(dict_view(dict@) =~= Seq::<(Seq<char>, u64)>::empty());
    }
    while i < n
        invariant
            n == src.len(),
            d0 == dict_view(src),
            i <= n,
            old_entries@ == src.skip(i as int),
            dict_view(dict@) == dict_kept(d0.take(i as int), gone@.to_set()),
        decreases n - i,
    {
        let entry = old_entries.remove(0);
        proof {
            assert(entry == src[i as int]);
            assert(src.skip(i as int).remove(0) =~= src.skip(i + 1));
            assert(d0.take(i + 1).drop_last() =~= d0.take(i as int));
            assert(d0.take(i + 1).last() == (entry.0@, entry.1));
        }
        let h = entry.1;
        if !holds(gone, h) {
            let ghost before = dict_view(dict@);
            dict.push(entry);
            assert(dict_view(dict@) =~= before.push((entry.0@, entry.1)));
        }
        i = i + 1;
    }
    assert(d0.take(n as int) =~= d0);
}

impl GroupTable {
    /// Dissolves every group holding one of `handles`, dropping its dictionary
    /// entry too; returns how many groups went.
    pub fn delete_groups_containing(&mut self, handles: &Vec<u64>) -> (count: usize)
        ensures
            groups_view(final(self).groups@) == groups_kept(groups_view(old(self).groups@), handles@),
            dict_view(final(self).dict@) == dict_kept(
                dict_view(old(self).dict@),
                groups_hit(groups_view(old(self).groups@), handles@),
            ),
            count == old(self).groups@.len() - final(self).groups@.len(),
    {
        let ghost g0 = groups_view(self.groups@);
        let mut old_groups: Vec<GroupRec> = Vec::new();
        std::mem::swap(&mut old_groups, &mut self.groups);
        let ghost src = old_groups@;
        let n = old_groups.len();
        let mut gone: Vec<u64> = Vec::new();
        let mut i: usize = 0;
        proof {
            assert(groups_view(self.groups@) =~= Seq::<GroupView>::empty());
            assert(g0.take(0) =~= Seq::<GroupView>::empty());
        }
        while i < n
            invariant
                n == src.len(),
                g0 == groups_view(src),
                i <= n,
                old_groups@ == src.skip(i as int),
                self.dict@ == old(self).dict@,
                groups_view(self.groups@) == groups_kept(g0.take(i as int), handles@),
                gone@.to_set() == groups_hit(g0.take(i as int), handles@),
                self.groups@.len() + gone@.len() == i,
            decreases n - i,
        {
            let grp = old_groups.remove(0);
            proof {
                assert(grp == src[i as int]);
                assert(src.skip(i as int).remove(0) =~= src.skip(i + 1));
                assert(g0.take(i + 1).drop_last() =~= g0.take(i as int));
                assert(g0.take(i + 1).last() == gview(grp));
            }
            let ghost gb = gone@;
            if holds_any(&grp.entities, handles) {
                gone.push(grp.handle);
                proof {
                    gb.lemma_push_to_set_commute(grp.handle);
                }
            } else {
                let ghost before = groups_view(self.groups@);
                self.groups.push(grp);
                assert(groups_view(self.groups@) =~= before.push(gview(grp)));
            }
            proof {
                let t0 = g0.take(i as int);
                let t1 = g0.take(i + 1);
                assert forall|gh: u64| groups_hit(t1, handles@).contains(gh) <==> (groups_hit(t0, handles@).contains(gh)
                    || (gh == grp.handle && holds_any_spec(grp.entities@, handles@))) by {
                    if groups_hit(t1, handles@).contains(gh) {
                        let k = choose|k: int| 0 <= k < t1.len() && t1[k].handle == gh && holds_any_spec(t1[k].entities, handles@);
                        if k < i {
                            assert(t0[k] == t1[k]);
                        }
                    }
                    if groups_hit(t0, handles@).contains(gh) {
                        let k = choose|k: int| 0 <= k < t0.len() && t0[k].handle == gh && holds_any_spec(t0[k].entities, handles@);
                        assert(t1[k] == t0[k]);
                    }
                    if gh == grp.handle && holds_any_spec(grp.entities@, handles@) {
                        assert(t1[i as int] == gview(grp));
                    }
                }
                assert(gone@.to_set() =~= groups_hit(t1, handles@));
            }
            i = i + 1;
        }
        proof {
            assert(g0.take(n as int) =~= g0);
        }
        prune_dict(&mut self.dict, &gone);
        n - self.groups.len()
    }

    /// After erasing `handles`: each group loses them, and a group left empty is
    /// dissolved along with its dictionary entry.
    pub fn erase_from_groups(&mut self, handles: &Vec<u64>)
        ensures
            groups_view(final(self).groups@) == groups_erased(groups_view(old(self).groups@), handles@),
            dict_view(final(self).dict@) == dict_kept(
                dict_view(old(self).dict@),
                groups_emptied(groups_view(old(self).groups@), handles@),
            ),
    {
        let ghost g0 = groups_view(self.groups@);
        let mut old_groups: Vec<GroupRec> = Vec::new();
        std::mem::swap(&mut old_groups, &mut self.groups);
        let ghost src = old_groups@;
        let n = old_groups.len();
        let mut gone: Vec<u64> = Vec::new();
        let mut i: usize = 0;
        proof {
            assert(groups_view(self.groups@) =~= Seq::<GroupView>::empty());
            assert(g0.take(0) =~= Seq::<GroupView>::empty());
        }
        while i < n
            invariant
                n == src.len(),
                g0 == groups_view(src),
                i <= n,
                old_groups@ == src.skip(i as int),
                self.dict@ == old(self).dict@,
                groups_view(self.groups@) == groups_erased(g0.take(i as int), handles@),
                gone@.to_set() == groups_emptied(g0.take(i as int), handles@),
            decreases n - i,
        {
            let mut grp = old_groups.remove(0);
            proof {
                assert(grp == src[i as int]);
                assert(src.skip(i as int).remove(0) =~= src.skip(i + 1));
                assert(g0.take(i + 1).drop_last() =~= g0.take(i as int));
                assert(g0.take(i + 1).last() == gview(grp));
            }
            let ghost gv0 = gview(grp);
            let kept = drop_handles_vec(&grp.entities, handles);
            let ghost gb = gone@;
            if kept.len() == 0 {
                gone.push(grp.handle);
                proof {
                    gb.lemma_push_to_set_commute(grp.handle);
                }
            } else {
                grp.entities = kept;
                let ghost before = groups_view(self.groups@);
                self.groups.push(grp);
                assert(groups_view(self.groups@) =~= before.push(
                    GroupView { entities: drop_handles(gv0.entities, handles@), ..gv0 },
                ));
            }
            proof {
                let t0 = g0.take(i as int);
                let t1 = g0.take(i + 1);
                assert forall|gh: u64| groups_emptied(t1, handles@).contains(gh) <==> (groups_emptied(t0, handles@).contains(gh)
                    || (gh == gv0.handle && drop_handles(gv0.entities, handles@).len() == 0)) by {
                    if groups_emptied(t1, handles@).contains(gh) {
                        let k = choose|k: int| 0 <= k < t1.len() && t1[k].handle == gh && drop_handles(t1[k].entities, handles@).len() == 0;
                        if k < i {
                            assert(t0[k] == t1[k]);
                        }
                    }
                    if groups_emptied(t0, handles@).contains(gh) {
                        let k = choose|k: int| 0 <= k < t0.len() && t0[k].handle == gh && drop_handles(t0[k].entities, handles@).len() == 0;
                        assert(t1[k] == t0[k]);
                    }
                    if gh == gv0.handle && drop_handles(gv0.entities, handles@).len() == 0 {
                        assert(t1[i as int] == gv0);
                    }
                }
                assert(gone@.to_set() =~= groups_emptied(t1, handles@));
            }
            i = i + 1;
        }
        proof {
            assert(g0.take(n as int) =~= g0);
        }
        prune_dict(&mut self.dict, &gone);
    }
}

/// `e` with each of `hs` appended in turn unless already there
/// (`acadrust::objects::Group::add_entities`).
pub open spec fn add_unique(e: Seq<u64>, hs: Seq<u64>) -> Seq<u64>
    decreases hs.len(),
{
    if hs.len() == 0 {
        e
    } else {
        let p = add_unique(e, hs.drop_last());
        if p.contains(hs.last()) {
            p
        } else {
            p.push(hs.last())
        }
    }
}

/// Position of the first group with handle `h`, or -1.
pub open spec fn group_from(gs: Seq<GroupView>, h: u64, i: int) -> int
    decreases gs.len() - i,
{
    if i < 0 || i >= gs.len() {
        -1
    } else if gs[i].handle == h {
        i
    } else {
        group_from(gs, h, i + 1)
    }
}

/// Groups after storing `g` under its handle: it takes the place of a group
/// with that handle, or comes last.
pub open spec fn groups_stored(gs: Seq<GroupView>, g: GroupView) -> Seq<GroupView> {
    let p = group_from(gs, g.handle, 0);
    if p < 0 {
        gs.push(g)
    } else {
        gs.update(p, g)
    }
}

impl GroupTable {
    /// Creates the selectable group `name` with handle `handle` (a fresh one
    /// from the drawing), holding `handles` without repeats, and registers it
    /// in the group dictionary. Returns its handle.
    pub fn create_group(&mut self, handle: u64, name: String, handles: Vec<u64>) -> (gh: u64)
        ensures
            gh == handle,
            groups_view(final(self).groups@) == groups_stored(
                groups_view(old(self).groups@),
                GroupView {
                    handle,
                    name: name@,
                    entities: add_unique(Seq::empty(), handles@),
                    selectable: true,
                },
            ),
            dict_view(final(self).dict@) == dict_view(old(self).dict@).push((name@, handle)),
    {
        let mut ents: Vec<u64> = Vec::new();
        let mut i: usize = 0;
        while i < handles.len()
            invariant
                i <= handles@.len(),
                ents@ == add_unique(Seq::empty(), handles@.take(i as int)),
            decreases handles@.len() - i,
        {
            proof {
                assert(handles@.take(i + 1).drop_last() =~= handles@.take(i as int));
            }
            if !holds(&ents, handles[i]) {
                ents.push(handles[i]);
            }
            i = i + 1;
        }
        assert(handles@.take(handles@.len() as int) =~= handles@);
        let ghost g0 = groups_view(self.groups@);
        let entry_name = name.clone();
        assert(entry_name@ == name@);
        let g = GroupRec { handle, name, entities: ents, selectable: true };
        let ghost gv = gview(g);
        let mut k: usize = 0;
        while k < self.groups.len()
            invariant
                g0 == groups_view(self.groups@),
                g0 == groups_view(old(self).groups@),
                self.dict@ == old(self).dict@,
                entry_name@ == name@,
                gv == gview(g),
                gv == (GroupView {
                    handle,
                    name: name@,
                    entities: add_unique(Seq::empty(), handles@),
                    selectable: true,
                }),
                k <= self.groups@.len(),
                group_from(g0, handle, k as int) == group_from(g0, handle, 0),
            decreases self.groups@.len() - k,
        {
            if self.groups[k].handle == handle {
                assert(g0[k as int].handle == handle);
                assert(group_from(g0, handle, k as int) == k as int);
                self.groups.set(k, g);
                assert(groups_view(self.groups@) =~= g0.update(k as int, gv));
                self.dict.push((entry_name, handle));
                assert(dict_view(self.dict@) =~= dict_view(old(self).dict@).push((name@, handle)));
                return handle;
            }
            k = k + 1;
        }
        self.groups.push(g);
        assert(groups_view(self.groups@) =~= g0.push(gv));
        self.dict.push((entry_name, handle));
        assert(dict_view(self.dict@) =~= dict_view(old(self).dict@).push((name@, handle)));
        handle
    }
}

proof fn lemma_add_unique_contains(hs: Seq<u64>, x: u64)
    ensures
        add_unique(Seq::empty(), hs).contains(x) == hs.contains(x),
    decreases hs.len(),
{
    if hs.len() > 0 {
        lemma_add_unique_contains(hs.drop_last(), x);
        assert(hs =~= hs.drop_last().push(hs.last()));
        if hs.drop_last().contains(x) {
            let i = choose|i: int| 0 <= i < hs.drop_last().len() && hs.drop_last()[i] == x;
            assert(hs[i] == x);
        }
        if hs.contains(x) && x != hs.last() {
            let i = choose|i: int| 0 <= i < hs.len() && hs[i] == x;
            assert(hs.drop_last()[i] == x);
        }
        let p = add_unique(Seq::<u64>::empty(), hs.drop_last());
        if !p.contains(hs.last()) {
            assert(p.push(hs.last())[p.len() as int] == hs.last());
            if p.contains(x) {
                let i = choose|i: int| 0 <= i < p.len() && p[i] == x;
                assert(p.push(hs.last())[i] == x);
            }
            if p.push(hs.last()).contains(x) && x != hs.last() {
                let i = choose|i: int| 0 <= i < p.len() + 1 && p.push(hs.last())[i] == x;
                assert(p[i] == x);
            }
        }
    }
}

proof fn lemma_names_holding_view(a: Seq<GroupRec>, b: Seq<GroupRec>, e: u64)
    requires
        groups_view(a) == groups_view(b),
    ensures
        names_holding(a, e) == names_holding(b, e),
    decreases a.len(),
{
    assert(a.len() == groups_view(a).len());
    assert(b.len() == groups_view(b).len());
    if a.len() > 0 {
        assert(gview(a.last()) == groups_view(a)[a.len() - 1]);
        assert(gview(b.last()) == groups_view(b)[b.len() - 1]);
        assert(groups_view(a.drop_last()) =~= groups_view(a).drop_last());
        assert(groups_view(b.drop_last()) =~= groups_view(b).drop_last());
        lemma_names_holding_view(a.drop_last(), b.drop_last(), e);
    }
}

/// A group just created under a fresh handle is listed, last, among the groups
/// holding each of the entities it was created with.
pub proof fn law_created_group_lists_members(
    before: Seq<GroupRec>,
    after: Seq<GroupRec>,
    handle: u64,
    name: Seq<char>,
    handles: Seq<u64>,
    e: u64,
)
    requires
        group_from(groups_view(before), handle, 0) < 0,
        groups_view(after) == groups_stored(
            groups_view(before),
            GroupView {
                handle,
                name,
                entities: add_unique(Seq::empty(), handles),
                selectable: true,
            },
        ),
        handles.contains(e),
    ensures
        names_holding(after, e) == names_holding(before, e).push(name),
{
    let gv = GroupView {
        handle,
        name,
        entities: add_unique(Seq::empty(), handles),
        selectable: true,
    };
    assert(groups_view(after) == groups_view(before).push(gv));
    assert(after.len() == before.len() + 1);
    assert forall|i: int| 0 <= i < before.len() implies #[trigger] groups_view(after.drop_last())[i]
        == groups_view(before)[i] by {
        assert(groups_view(after)[i] == gview(after[i]));
    }
    assert(groups_view(after.drop_last()) =~= groups_view(before));
    lemma_names_holding_view(after.drop_last(), before, e);
    assert(gview(after.last()) == groups_view(after)[after.len() - 1]);
    lemma_add_unique_contains(handles, e);
}

proof fn lemma_drop_handles_excludes(e: Seq<u64>, handles: Seq<u64>, x: u64)
    requires
        handles.contains(x),
    ensures
        !drop_handles(e, handles).contains(x),
    decreases e.len(),
{
    if e.len() > 0 {
        lemma_drop_handles_excludes(e.drop_last(), handles, x);
        let rest = drop_handles(e.drop_last(), handles);
        if !handles.contains(e.last()) {
            if rest.push(e.last()).contains(x) {
                let i = choose|i: int| 0 <= i < rest.len() + 1 && rest.push(e.last())[i] == x;
                if i < rest.len() {
                    assert(rest[i] == x);
                }
            }
        }
    }
}

proof fn lemma_erased_exclude(gs: Seq<GroupView>, handles: Seq<u64>, x: u64)
    requires
        handles.contains(x),
    ensures
        forall|k: int|
            0 <= k < groups_erased(gs, handles).len() ==> !(#[trigger] groups_erased(gs, handles)[k]).entities.contains(x),
    decreases gs.len(),
{
    if gs.len() > 0 {
        lemma_erased_exclude(gs.drop_last(), handles, x);
        lemma_drop_handles_excludes(gs.last().entities, handles, x);
        let rest = groups_erased(gs.drop_last(), handles);
        let r = groups_erased(gs, handles);
        assert forall|k: int| 0 <= k < r.len() implies !(#[trigger] r[k]).entities.contains(x) by {
            if k < rest.len() {
                assert(r[k] == rest[k]);
            }
        }
    }
}

proof fn lemma_names_holding_none(groups: Seq<GroupRec>, x: u64)
    requires
        forall|k: int| 0 <= k < groups.len() ==> !(#[trigger] groups[k]).entities@.contains(x),
    ensures
        names_holding(groups, x) == Seq::<Seq<char>>::empty(),
    decreases groups.len(),
{
    if groups.len() > 0 {
        assert forall|k: int| 0 <= k < groups.drop_last().len() implies !(
        #[trigger] groups.drop_last()[k]).entities@.contains(x) by {
            assert(groups.drop_last()[k] == groups[k]);
        }
        lemma_names_holding_none(groups.drop_last(), x);
        assert(groups.last() == groups[groups.len() - 1]);
    }
}

/// Once entities are erased, no group is listed as holding any of them.
pub proof fn law_erased_entities_leave_groups(
    before: Seq<GroupRec>,
    after: Seq<GroupRec>,
    handles: Seq<u64>,
    e: u64,
)
    requires
        groups_view(after) == groups_erased(groups_view(before), handles),
        handles.contains(e),
    ensures
        names_holding(after, e) == Seq::<Seq<char>>::empty(),
{
    lemma_erased_exclude(groups_view(before), handles, e);
    assert(groups_view(after).len() == after.len());
    assert forall|k: int| 0 <= k < after.len() implies !(#[trigger] after[k]).entities@.contains(e) by {
        assert(groups_view(after)[k] == gview(after[k]));
    }
    lemma_names_holding_none(after, e);
}

impl Selection {
    /// Deselects each of `handles`.
    pub fn deselect_many(&mut self, handles: &Vec<u64>)
        ensures
            final(self).selected@ == old(self).selected@.difference(handles@.to_set()),
    {
        let ghost s0 = self.selected@;
        let mut i: usize = 0;
        while i < handles.len()
            invariant
                i <= handles@.len(),
                self.selected@ == s0.difference(handles@.take(i as int).to_set()),
            decreases handles@.len() - i,
        {
            self.selected.remove(&handles[i]);
            proof {
                handles@.take(i as int).lemma_push_to_set_commute(handles@[i as int]);
                assert(handles@.take(i + 1) =~= handles@.take(i as int).push(handles@[i as int]));
            }
            i = i + 1;
            assert(self.selected@ =~= s0.difference(handles@.take(i as int).to_set()));
        }
        assert(handles@.take(handles@.len() as int) =~= handles@);
    }
}

// ── type names ─────────────────────────────────────────────────────────

pub open spec fn names_view(v: Seq<String>) -> Seq<Seq<char>> {
    v.map_values(|s: String| s@)
}

/// `s` is in strictly increasing string order.
pub open spec fn strictly_sorted(s: Seq<Seq<char>>) -> bool {
    forall|i: int, j: int| 0 <= i < j < s.len() ==> seq_le(s[i], s[j]) && s[i] != s[j]
}

/// The distinct type names of the active layout's entities (`kinds`, one per
/// entity), in string order.
pub fn entity_type_names_in_layout(kinds: &Vec<String>) -> (names: Vec<String>)
    ensures
        strictly_sorted(names_view(names@)),
        names_view(names@).to_set() == names_view(kinds@).to_set(),
{
    let mut out: Vec<String> = Vec::new();
    let mut i: usize = 0;
    while i < kinds.len()
        invariant
            i <= kinds@.len(),
            strictly_sorted(names_view(out@)),
            names_view(out@).to_set() == names_view(kinds@.take(i as int)).to_set(),
        decreases kinds@.len() - i,
    {
        let k = kinds[i].as_str();
        let ghost ov = names_view(out@);
        let mut j: usize = 0;
        while j < out.len() && !str_le(k, out[j].as_str())
            invariant
                j <= out@.len(),
                ov == names_view(out@),
                strictly_sorted(ov),
                ov.to_set() == names_view(kinds@.take(i as int)).to_set(),
                forall|m: int| 0 <= m < j ==> seq_le(ov[m], k@) && ov[m] != k@,
            decreases out@.len() - j,
        {
            proof {
                lemma_seq_le_total(k@, ov[j as int]);
                if ov[j as int] == k@ {
                    lemma_seq_le_total(k@, k@);
                }
            }
            j = j + 1;
        }
        proof {
            assert(kinds@.take(i + 1) =~= kinds@.take(i as int).push(kinds@[i as int]));
            assert(names_view(kinds@.take(i + 1)) =~= names_view(kinds@.take(i as int)).push(k@));
        }
        let dup = j < out.len() && str_eq(out[j].as_str(), k);
        if dup {
            proof {
                assert(ov.contains(k@)) by {
                    assert(ov[j as int] == k@);
                }
                assert(ov.to_set().insert(k@) =~= ov.to_set());
            }
        } else {
            let ghost before = ov;
            let name = kinds[i].clone();
            out.insert(j, name);
            proof {
                if j < before.len() {
                    assert(before[j as int] == out@[j as int + 1]@);
                }
                lemma_insert_keeps_sorted(before, j as int, k@);
                assert(names_view(out@) =~= before.insert(j as int, k@));
            }
        }
        proof {
            lemma_to_set_push(names_view(kinds@.take(i as int)), k@);
        }
        i = i + 1;
    }
    assert(kinds@.take(kinds@.len() as int) =~= kinds@);
    out
}

#[verifier::spinoff_prover]
#[verifier::rlimit(40)]
proof fn lemma_insert_pair(before: Seq<Seq<char>>, j: int, k: Seq<char>, p: int, q: int)
    requires
        strictly_sorted(before),
        0 <= j <= before.len(),
        forall|m: int| 0 <= m < j ==> seq_le(#[trigger] before[m], k) && before[m] != k,
        j < before.len() ==> seq_le(k, before[j]) && before[j] != k,
        0 <= p < q < before.len() + 1,
    ensures
        seq_le(before.insert(j, k)[p], before.insert(j, k)[q]),
        before.insert(j, k)[p] != before.insert(j, k)[q],
{
    let after = before.insert(j, k);
    before.insert_ensures(j, k);
    if q < j {
        assert(after[p] == before[p] && after[q] == before[q]);
    } else if q == j {
        assert(after[p] == before[p] && after[q] == k);
    } else if p == j {
        assert(after[p] == k && after[q] == before[q - 1]);
        if q - 1 > j {
            assert(seq_le(before[j], before[q - 1]) && before[j] != before[q - 1]);
            lemma_seq_le_transitive(k, before[j], before[q - 1]);
            if before[q - 1] == k {
                lemma_seq_le_antisymmetric(k, before[j]);
            }
        }
    } else if p < j {
        assert(after[p] == before[p] && after[q] == before[q - 1]);
        assert(seq_le(before[p], before[q - 1]) && before[p] != before[q - 1]);
    } else {
        assert(after[p] == before[p - 1] && after[q] == before[q - 1]);
        assert(seq_le(before[p - 1], before[q - 1]) && before[p - 1] != before[q - 1]);
    }
}

proof fn lemma_insert_keeps_sorted(before: Seq<Seq<char>>, j: int, k: Seq<char>)
    requires
        strictly_sorted(before),
        0 <= j <= before.len(),
        forall|m: int| 0 <= m < j ==> seq_le(#[trigger] before[m], k) && before[m] != k,
        j < before.len() ==> seq_le(k, before[j]) && before[j] != k,
    ensures
        strictly_sorted(before.insert(j, k)),
        before.insert(j, k).to_set() == before.to_set().insert(k),
{
    let after = before.insert(j, k);
    before.insert_ensures(j, k);
    assert forall|p: int, q: int| 0 <= p < q < after.len() implies seq_le(after[p], after[q])
        && after[p] != after[q] by {
        lemma_insert_pair(before, j, k, p, q);
    }
    assert forall|x: Seq<char>| after.to_set().contains(x) <==> before.to_set().insert(k).contains(x) by {
        if after.contains(x) {
            let p = choose|p: int| 0 <= p < after.len() && after[p] == x;
            if p < j {
                assert(before[p] == x);
            } else if p > j {
                assert(before[p - 1] == x);
            }
        }
        if before.contains(x) {
            let p = choose|p: int| 0 <= p < before.len() && before[p] == x;
            if p < j {
                assert(after[p] == x);
            } else {
                assert(after[p + 1] == x);
            }
        }
        if x == k {
            assert(after[j] == x);
        }
    }
    assert(after.to_set() =~= before.to_set().insert(k));
}

proof fn lemma_to_set_push(s: Seq<Seq<char>>, x: Seq<char>)
    ensures
        s.push(x).to_set() == s.to_set().insert(x),
{
    assert forall|y: Seq<char>| s.push(x).to_set().contains(y) <==> s.to_set().insert(x).contains(y) by {
        if s.push(x).contains(y) {
            let p = choose|p: int| 0 <= p < s.len() + 1 && s.push(x)[p] == y;
            if p < s.len() {
                assert(s[p] == y);
            }
        }
        if s.contains(y) {
            let p = choose|p: int| 0 <= p < s.len() && s[p] == y;
            assert(s.push(x)[p] == y);
        }
        if y == x {
            assert(s.push(x)[s.len() as int] == y);
        }
    }
    assert(s.push(x).to_set() =~= s.to_set().insert(x));
}

// ── quick select ───────────────────────────────────────────────────────

/// Quick-select comparison.
#[derive(Clone, Copy, Debug, PartialEq, Eq, Structural)]
pub enum QSelectOp {
    /// Any value matches.
    Any,
    /// Equal, ignoring ASCII case.
    Eq,
    /// Not equal, ignoring ASCII case.
    Neq,
    /// Numerically greater.
    Gt,
    /// Numerically less.
    Lt,
}

/// How a property's number compares with the wanted number.
#[derive(Clone, Copy, Debug, PartialEq, Eq, Structural)]
pub enum NumOrder {
    Less,
    Equal,
    Greater,
    /// Not comparable (a NaN).
    Unordered,
}

/// An entity of the active layout as quick select sees it.
pub struct QCandidate {
    pub handle: u64,
    /// Type name; `None` when the handle names no entity.
    pub kind: Option<String>,
    /// Text of the property tested, when the entity has it.
    pub value: Option<String>,
    /// The property compared as a number with the wanted value; `None` when
    /// either side is not a number.
    pub num: Option<NumOrder>,
}

pub open spec fn lower_ascii(c: char) -> char {
    if 'A' <= c && c <= 'Z' {
        ((c as u32) + 32) as char
    } else {
        c
    }
}

/// `str::eq_ignore_ascii_case`.
pub open spec fn eq_ignore_case(a: Seq<char>, b: Seq<char>) -> bool {
    &&& a.len() == b.len()
    &&& forall|i: int| 0 <= i < a.len() ==> lower_ascii(a[i]) == lower_ascii(b[i])
}

/// Candidate `c` passes quick select.
pub open spec fn qmatch(
    c: QCandidate,
    kind: Option<Seq<char>>,
    has_field: bool,
    op: QSelectOp,
    value: Seq<char>,
) -> bool {
    &&& c.kind is Some
    &&& (kind is Some ==> c.kind->0@ == kind->0)
    &&& (!has_field || op == QSelectOp::Any || match op {
        QSelectOp::Eq => c.value is Some && eq_ignore_case(c.value->0@, value),
        QSelectOp::Neq => c.value is Some && !eq_ignore_case(c.value->0@, value),
        QSelectOp::Gt => c.value is Some && c.num == Some(NumOrder::Greater),
        QSelectOp::Lt => c.value is Some && c.num == Some(NumOrder::Less),
        QSelectOp::Any => true,
    })
}

/// A candidate of the wanted type, or of any type when none is wanted.
pub open spec fn type_passes(c: QCandidate, kind: Option<Seq<char>>) -> bool {
    c.kind is Some && (kind is Some ==> c.kind->0@ == kind->0)
}

/// With a property tested, `<` picks exactly the candidates of the wanted type
/// whose value is less than the wanted one, and `>` those whose value is
/// greater; neither picks a candidate whose value is not a number.
pub proof fn law_qselect_order(c: QCandidate, kind: Option<Seq<char>>, value: Seq<char>)
    ensures
        qmatch(c, kind, true, QSelectOp::Lt, value) <==> (type_passes(c, kind) && c.value is Some
            && c.num == Some(NumOrder::Less)),
        qmatch(c, kind, true, QSelectOp::Gt, value) <==> (type_passes(c, kind) && c.value is Some
            && c.num == Some(NumOrder::Greater)),
        !(qmatch(c, kind, true, QSelectOp::Lt, value) && qmatch(c, kind, true, QSelectOp::Gt, value)),
{
}

/// A handle whose every candidate compares greater than the wanted value is
/// never picked by `<`, and one whose every candidate compares less is never
/// picked by `>`.
pub proof fn law_qselect_order_excludes(cs: Seq<QCandidate>, kind: Option<Seq<char>>, value: Seq<char>, h: u64)
    ensures
        (forall|i: int| 0 <= i < cs.len() && #[trigger] cs[i].handle == h ==> cs[i].num == Some(NumOrder::Greater))
            ==> !qmatched(cs, kind, true, QSelectOp::Lt, value).contains(h),
        (forall|i: int| 0 <= i < cs.len() && #[trigger] cs[i].handle == h ==> cs[i].num == Some(NumOrder::Less))
            ==> !qmatched(cs, kind, true, QSelectOp::Gt, value).contains(h),
{
}

/// Handles of the candidates in `cs` that pass.
pub open spec fn qmatched(
    cs: Seq<QCandidate>,
    kind: Option<Seq<char>>,
    has_field: bool,
    op: QSelectOp,
    value: Seq<char>,
) -> Set<u64> {
    Set::new(|h: u64| exists|i: int| 0 <= i < cs.len() && cs[i].handle == h && qmatch(cs[i], kind, has_field, op, value))
}

/// Number of candidates in `cs` that pass (a handle listed twice counts twice).
pub open spec fn qcount(
    cs: Seq<QCandidate>,
    kind: Option<Seq<char>>,
    has_field: bool,
    op: QSelectOp,
    value: Seq<char>,
) -> int
    decreases cs.len(),
{
    if cs.len() == 0 {
        0
    } else {
        qcount(cs.drop_last(), kind, has_field, op, value) + if qmatch(cs.last(), kind, has_field, op, value) {
            1int
        } else {
            0
        }
    }
}

fn lower_ascii_char(c: char) -> (r: char)
    ensures
        r == lower_ascii(c),
{
    if 'A' <= c && c <= 'Z' {
        let v: u32 = (c as u32) + 32;
        match core::char::from_u32(v) {
            Some(r) => r,
            None => c,
        }
    } else {
        c
    }
}

/// `str::eq_ignore_ascii_case`.
pub fn eq_ignore_ascii_case(a: &str, b: &str) -> (r: bool)
    ensures
        r == eq_ignore_case(a@, b@),
{
    let x = str_chars(a);
    let y = str_chars(b);
    if x.len() != y.len() {
        return false;
    }
    let mut i: usize = 0;
    while i < x.len()
        invariant
            x@ == a@,
            y@ == b@,
            x@.len() == y@.len(),
            i <= x@.len(),
            forall|j: int| 0 <= j < i ==> lower_ascii(x@[j]) == lower_ascii(y@[j]),
        decreases x@.len() - i,
    {
        if lower_ascii_char(x[i]) != lower_ascii_char(y[i]) {
            assert(lower_ascii(x@[i as int]) != lower_ascii(y@[i as int]));
            return false;
        }
        i = i + 1;
    }
    true
}

/// `a == b` for string slices.
pub fn str_eq(a: &str, b: &str) -> (r: bool)
    ensures
        r == (a@ == b@),
{
    let x = str_chars(a);
    let y = str_chars(b);
    if x.len() != y.len() {
        return false;
    }
    let mut i: usize = 0;
    while i < x.len()
        invariant
            x@ == a@,
            y@ == b@,
            x@.len() == y@.len(),
            i <= x@.len(),
            forall|j: int| 0 <= j < i ==> x@[j] == y@[j],
        decreases x@.len() - i,
    {
        if x[i] != y[i] {
            return false;
        }
        i = i + 1;
    }
    assert(x@ =~= y@);
    true
}

fn qmatch_exec(c: &QCandidate, kind: Option<&str>, has_field: bool, op: QSelectOp, value: &str) -> (r: bool)
    ensures
        r == qmatch(*c, match kind { Some(k) => Some(k@), None => None }, has_field, op, value@),
{
    let ck = match &c.kind {
        Some(k) => k,
        None => {
            return false;
        },
    };
    match kind {
        Some(t) => {
            if !str_eq(ck.as_str(), t) {
                return false;
            }
        },
        None => {},
    }
    if !has_field {
        return true;
    }
    match op {
        QSelectOp::Any => true,
        QSelectOp::Eq => match &c.value {
            Some(v) => eq_ignore_ascii_case(v.as_str(), value),
            None => false,
        },
        QSelectOp::Neq => match &c.value {
            Some(v) => !eq_ignore_ascii_case(v.as_str(), value),
            None => false,
        },
        QSelectOp::Gt => c.value.is_some() && c.num == Some(NumOrder::Greater),
        QSelectOp::Lt => c.value.is_some() && c.num == Some(NumOrder::Less),
    }
}

impl Selection {
    /// Quick select over the candidates of the active layout: keeps the type
    /// filter `kind` (when given) and, when a property is tested (`has_field`),
    /// the comparison `op` against `value`. Replaces the selection, or extends it
    /// with `append`. Returns how many candidates matched.
    pub fn qselect(
        &mut self,
        cands: &Vec<QCandidate>,
        kind: Option<&str>,
        has_field: bool,
        op: QSelectOp,
        value: &str,
        append: bool,
    ) -> (matched: usize)
        ensures
            final(self).selected@ == (if append {
                old(self).selected@
            } else {
                Set::<u64>::empty()
            }).union(
                qmatched(
                    cands@,
                    match kind {
                        Some(k) => Some(k@),
                        None => None,
                    },
                    has_field,
                    op,
                    value@,
                ),
            ),
            matched == qcount(
                cands@,
                match kind {
                    Some(k) => Some(k@),
                    None => None,
                },
                has_field,
                op,
                value@,
            ),
    {
        let ghost kv = match kind {
            Some(k) => Some(k@),
            None => None,
        };
        if !append {
            self.selected.clear();
        }
        let ghost s0 = self.selected@;
        let mut matched: usize = 0;
        let mut i: usize = 0;
        proof {
            assert(cands@.take(0) =~= Seq::<QCandidate>::empty());
            assert(self.selected@ =~= s0.union(qmatched(cands@.take(0), kv, has_field, op, value@)));
        }
        while i < cands.len()
            invariant
                i <= cands@.len(),
                kv == (match kind {
                    Some(k) => Some(k@),
                    None => None,
                }),
                self.selected@ == s0.union(qmatched(cands@.take(i as int), kv, has_field, op, value@)),
                matched == qcount(cands@.take(i as int), kv, has_field, op, value@),
                matched <= i,
            decreases cands@.len() - i,
        {
            proof {
                assert(cands@.take(i + 1).drop_last() =~= cands@.take(i as int));
                assert(cands@.take(i + 1).last() == cands@[i as int]);
            }
            let ok = qmatch_exec(&cands[i], kind, has_field, op, value);
            if ok {
                self.selected.insert(cands[i].handle);
                matched = matched + 1;
            }
            proof {
                let t0 = cands@.take(i as int);
                let t1 = cands@.take(i + 1);
                assert forall|h: u64| qmatched(t1, kv, has_field, op, value@).contains(h) <==> (qmatched(t0, kv, has_field, op, value@).contains(h)
                    || (ok && h == cands@[i as int].handle)) by {
                    if qmatched(t1, kv, has_field, op, value@).contains(h) {
                        let k = choose|k: int| 0 <= k < t1.len() && t1[k].handle == h && qmatch(t1[k], kv, has_field, op, value@);
                        if k < i {
                            assert(t0[k] == t1[k]);
                        }
                    }
                    if qmatched(t0, kv, has_field, op, value@).contains(h) {
                        let k = choose|k: int| 0 <= k < t0.len() && t0[k].handle == h && qmatch(t0[k], kv, has_field, op, value@);
                        assert(t1[k] == t0[k]);
                    }
                    if ok && h == cands@[i as int].handle {
                        assert(t1[i as int] == cands@[i as int]);
                    }
                }
                assert(self.selected@ =~= s0.union(qmatched(t1, kv, has_field, op, value@)));
            }
            i = i + 1;
        }
        assert(cands@.take(cands@.len() as int) =~= cands@);
        matched
    }
}

} // verus!
