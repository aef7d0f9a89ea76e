//! Spatial index for 2D entities. Each leaf holds up to `LEAF_CAPACITY`
//! items; on overflow the leaf splits into 4 children and re-distributes.
//! Items whose box straddles a child boundary stay at the parent.
//!
//! Items are keyed by entity handle. Boxes are in integer world units.
//! Items outside the root rectangle go to an overflow list that every
//! query scans.

use vstd::prelude::*;
use std::collections::HashMap;
use rustc_hash::FxBuildHasher;

verus! {

/// Items per leaf before it splits.
pub const LEAF_CAPACITY: usize = 32;

/// Hard cap on tree depth.
pub const MAX_DEPTH: u8 = 16;

/// Axis-aligned box `[xmin, ymin, xmax, ymax]`.
#[derive(Clone, Copy, Debug, PartialEq, Eq, Structural)]
pub struct Aabb {
    pub xmin: i64,
    pub ymin: i64,
    pub xmax: i64,
    pub ymax: i64,
}

/// `inner` lies inside `outer` (boundaries included).
pub open spec fn spec_contained(outer: Aabb, inner: Aabb) -> bool {
    inner.xmin >= outer.xmin && inner.ymin >= outer.ymin && inner.xmax <= outer.xmax
        && inner.ymax <= outer.ymax
}

/// `a` and `b` overlap (touching counts).
pub open spec fn spec_intersects(a: Aabb, b: Aabb) -> bool {
    a.xmin <= b.xmax && a.xmax >= b.xmin && a.ymin <= b.ymax && a.ymax >= b.ymin
}

pub fn aabb_contained(outer: Aabb, inner: Aabb) -> (r: bool)
    ensures
        r == spec_contained(outer, inner),
{
    inner.xmin >= outer.xmin && inner.ymin >= outer.ymin && inner.xmax <= outer.xmax
        && inner.ymax <= outer.ymax
}

pub fn aabb_intersects(a: Aabb, b: Aabb) -> (r: bool)
    ensures
        r == spec_intersects(a, b),
{
    a.xmin <= b.xmax && a.xmax >= b.xmin && a.ymin <= b.ymax && a.ymax >= b.ymin
}

/// A box contained in `outer` that meets `q` makes `outer` meet `q`.
pub proof fn lemma_contained_intersects(outer: Aabb, inner: Aabb, q: Aabb)
    requires
        spec_contained(outer, inner),
        spec_intersects(inner, q),
    ensures
        spec_intersects(outer, q),
{
}

// ── outside collection: the handle locator ─────────────────────────────

#[verifier::external_type_specification]
#[verifier::external_body]
pub struct ExFxBuildHasher(FxBuildHasher);

/// Position of an item: node index and index within that node.
pub type Slot = (usize, usize);

/// `rustc_hash::FxHashMap<u64, Slot>`.
pub type Locator = HashMap<u64, Slot, FxBuildHasher>;

/// What the locator map holds.
pub uninterp spec fn locator_entries(m: Locator) -> Map<u64, Slot>;

/// `FxHashMap::default()`: a map with no entries.
#[verifier::external_body]
fn locator_new() -> (fresh: Locator)
    ensures
        locator_entries(fresh).dom() == Set::<u64>::empty(),
{
    HashMap::default()
}

/// `HashMap::len`: the number of keys.
#[verifier::external_body]
fn locator_len(m: &Locator) -> (n: usize)
    ensures
        n == locator_entries(*m).dom().len(),
{
    m.len()
}

/// `HashMap::insert`: maps `k` to `v`, replacing any previous value.
#[verifier::external_body]
fn locator_insert(m: &mut Locator, k: u64, v: Slot)
    ensures
        locator_entries(*final(m)) == locator_entries(*old(m)).insert(k, v),
{
    m.insert(k, v);
}

/// `HashMap::remove`: takes `k` out and returns the value it had.
#[verifier::external_body]
fn locator_remove(m: &mut Locator, k: u64) -> (r: Option<Slot>)
    ensures
        locator_entries(*final(m)) == locator_entries(*old(m)).remove(k),
        r == (if locator_entries(*old(m)).contains_key(k) {
            Some(locator_entries(*old(m))[k])
        } else {
            None
        }),
{
    m.remove(&k)
}

// ── tree storage ───────────────────────────────────────────────────────

#[derive(Clone, Copy)]
struct Item {
    handle: u64,
    aabb: Aabb,
}

struct Node {
    bounds: Aabb,
    /// Items stored at this node: the leaf's items, or straddlers kept
    /// at an internal node.
    items: Vec<Item>,
    /// NW, NE, SW, SE. `None` until the node splits.
    children: Option<[usize; 4]>,
    depth: u8,
}

/// Spatial index keyed by entity handle.
pub struct QuadTree {
    nodes: Vec<Node>,
    /// `handle → (node index, item index within node)`.
    locator: Locator,
    /// Items whose box falls outside the root bounds.
    overflow: Vec<Item>,
    /// Parent of each node (the root's entry is unused).
    parent: Ghost<Seq<int>>,
}

spec fn has_child(c: [usize; 4], j: int) -> bool {
    c[0] as int == j || c[1] as int == j || c[2] as int == j || c[3] as int == j
}

/// `a` is `j` or an ancestor of `j`.
spec fn is_anc(parent: Seq<int>, a: int, j: int) -> bool
    decreases j,
{
    if j == a {
        true
    } else if 0 < j < parent.len() && 0 <= parent[j] < j {
        is_anc(parent, a, parent[j])
    } else {
        false
    }
}

spec fn node_items(nodes: Seq<Node>, j: int) -> Seq<Item> {
    nodes[j].items@
}

/// Parent links and child arrays describe one tree rooted at node 0.
spec fn structure_wf(nodes: Seq<Node>, parent: Seq<int>) -> bool {
    &&& nodes.len() >= 1
    &&& nodes.len() <= usize::MAX
    &&& parent.len() == nodes.len()
    &&& forall|j: int|
        #![trigger parent[j]]
        1 <= j < nodes.len() ==> {
            &&& 0 <= parent[j] < j
            &&& nodes[parent[j]].children is Some
            &&& has_child(nodes[parent[j]].children->0, j)
        }
    &&& forall|i: int, k: int|
        #![trigger nodes[i].children, nodes[i].children->0[k]]
        0 <= i < nodes.len() && nodes[i].children is Some && 0 <= k < 4 ==> {
            let c = nodes[i].children->0;
            &&& i < c[k] < nodes.len()
            &&& parent[c[k] as int] == i
        }
    &&& forall|i: int|
        #![trigger nodes[i].children]
        0 <= i < nodes.len() && nodes[i].children is Some ==> {
            let c = nodes[i].children->0;
            c[0] != c[1] && c[0] != c[2] && c[0] != c[3] && c[1] != c[2] && c[1] != c[3] && c[2]
                != c[3]
        }
}

/// Every stored item lies inside the bounds of its node and of all its ancestors.
spec fn containment_wf(nodes: Seq<Node>, parent: Seq<int>) -> bool {
    forall|a: int, j: int, k: int|
        #![trigger is_anc(parent, a, j), nodes[j].items@[k]]
        0 <= a < nodes.len() && 0 <= j < nodes.len() && 0 <= k < nodes[j].items@.len()
            && is_anc(parent, a, j) ==> spec_contained(nodes[a].bounds, nodes[j].items@[k].aabb)
}

/// The locator and the stored items are in one-to-one correspondence.
spec fn locator_wf(nodes: Seq<Node>, loc: Map<u64, Slot>) -> bool {
    &&& loc.dom().finite()
    &&& nodes.len() <= usize::MAX
    &&& forall|n: int|
        #![trigger nodes[n].items@.len()]
        0 <= n < nodes.len() ==> nodes[n].items@.len() <= usize::MAX
    &&& forall|h: u64|
        #![trigger loc[h]]
        loc.contains_key(h) ==> {
            let (n, k) = loc[h];
            &&& n < nodes.len()
            &&& k < nodes[n as int].items@.len()
            &&& nodes[n as int].items@[k as int].handle == h
        }
    &&& forall|n: int, k: int|
        #![trigger nodes[n].items@[k]]
        0 <= n < nodes.len() && 0 <= k < nodes[n].items@.len() ==> {
            let h = nodes[n].items@[k].handle;
            &&& loc.contains_key(h)
            &&& loc[h] == (n as usize, k as usize)
        }
}

spec fn overflow_has(ov: Seq<Item>, h: u64) -> bool {
    exists|k: int| 0 <= k < ov.len() && ov[k].handle == h
}

spec fn handles_of(s: Seq<Item>) -> Seq<u64> {
    s.map_values(|x: Item| x.handle)
}

/// Overflow handles are distinct and never located in the tree.
spec fn overflow_wf(ov: Seq<Item>, loc: Map<u64, Slot>) -> bool {
    &&& handles_of(ov).no_duplicates()
    &&& forall|k: int| #![trigger ov[k]] 0 <= k < ov.len() ==> !loc.contains_key(ov[k].handle)
}

/// Handles of the items of `s` that meet `q`, in order.
spec fn item_hits(s: Seq<Item>, q: Aabb) -> Seq<u64>
    decreases s.len(),
{
    if s.len() == 0 {
        Seq::empty()
    } else {
        let rest = item_hits(s.drop_last(), q);
        if spec_intersects(s.last().aabb, q) {
            rest.push(s.last().handle)
        } else {
            rest
        }
    }
}

/// Handles a query for `q` collects from the subtree rooted at `i`.
spec fn sub_hits(nodes: Seq<Node>, i: int, q: Aabb) -> Seq<u64>
    decreases nodes.len() - i,
{
    if 0 <= i < nodes.len() {
        if !spec_intersects(nodes[i].bounds, q) {
            Seq::empty()
        } else {
            let own = item_hits(nodes[i].items@, q);
            match nodes[i].children {
                None => own,
                Some(c) => {
                    own + (if i < c[0] && c[0] < nodes.len() {
                        sub_hits(nodes, c[0] as int, q)
                    } else {
                        Seq::empty()
                    }) + (if i < c[1] && c[1] < nodes.len() {
                        sub_hits(nodes, c[1] as int, q)
                    } else {
                        Seq::empty()
                    }) + (if i < c[2] && c[2] < nodes.len() {
                        sub_hits(nodes, c[2] as int, q)
                    } else {
                        Seq::empty()
                    }) + (if i < c[3] && c[3] < nodes.len() {
                        sub_hits(nodes, c[3] as int, q)
                    } else {
                        Seq::empty()
                    })
                },
            }
        }
    } else {
        Seq::empty()
    }
}

// ── lemmas on the tree shape ───────────────────────────────────────────

proof fn lemma_anc_le(parent: Seq<int>, a: int, j: int)
    requires
        is_anc(parent, a, j),
    ensures
        a <= j,
    decreases j,
{
    if j != a {
        lemma_anc_le(parent, a, parent[j]);
    }
}

proof fn lemma_anc_step(parent: Seq<int>, a: int, c: int)
    requires
        is_anc(parent, a, parent[c]),
        0 < c < parent.len(),
        0 <= parent[c] < c,
    ensures
        is_anc(parent, a, c),
{
    if c == a {
    } else {
        assert(is_anc(parent, a, c) == is_anc(parent, a, parent[c]));
    }
}

/// The ancestors of a node form a chain.
proof fn lemma_anc_linear(parent: Seq<int>, a: int, b: int, j: int)
    requires
        is_anc(parent, a, j),
        is_anc(parent, b, j),
    ensures
        is_anc(parent, a, b) || is_anc(parent, b, a),
    decreases j,
{
    if j == a {
    } else if j == b {
    } else {
        lemma_anc_linear(parent, a, b, parent[j]);
    }
}

/// The root is an ancestor of every node.
proof fn lemma_root_anc(nodes: Seq<Node>, parent: Seq<int>, j: int)
    requires
        structure_wf(nodes, parent),
        0 <= j < nodes.len(),
    ensures
        is_anc(parent, 0, j),
    decreases j,
{
    if j > 0 {
        assert(0 <= parent[j] < j);
        lemma_root_anc(nodes, parent, parent[j]);
        lemma_anc_step(parent, 0, j);
    }
}

/// A proper descendant of `i` lies below one of `i`'s children.
proof fn lemma_below_child(nodes: Seq<Node>, parent: Seq<int>, i: int, j: int)
    requires
        structure_wf(nodes, parent),
        0 <= i < nodes.len(),
        0 <= j < nodes.len(),
        is_anc(parent, i, j),
        j != i,
    ensures
        nodes[i].children is Some,
        exists|k: int| 0 <= k < 4 && is_anc(parent, nodes[i].children->0[k] as int, j),
    decreases j,
{
    assert(0 <= parent[j] < j);
    let p = parent[j];
    if p == i {
        let c = nodes[i].children->0;
        assert(has_child(c, j));
        if c[0] as int == j {
            assert(is_anc(parent, c[0] as int, j));
        } else if c[1] as int == j {
            assert(is_anc(parent, c[1] as int, j));
        } else if c[2] as int == j {
            assert(is_anc(parent, c[2] as int, j));
        } else {
            assert(is_anc(parent, c[3] as int, j));
        }
    } else {
        lemma_below_child(nodes, parent, i, p);
        let k = choose|k: int| 0 <= k < 4 && is_anc(parent, nodes[i].children->0[k] as int, p);
        lemma_anc_step(parent, nodes[i].children->0[k] as int, j);
    }
}

// ── lemmas on query results ────────────────────────────────────────────

proof fn lemma_item_hits(s: Seq<Item>, q: Aabb, h: u64)
    ensures
        item_hits(s, q).contains(h) <==> exists|k: int|
            0 <= k < s.len() && s[k].handle == h && spec_intersects(s[k].aabb, q),
    decreases s.len(),
{
    if s.len() > 0 {
        let rest = s.drop_last();
        lemma_item_hits(rest, q, h);
        let rh = item_hits(rest, q);
        let last = s[s.len() - 1];
        if spec_intersects(last.aabb, q) {
            assert(item_hits(s, q) == rh.push(last.handle));
            assert(rh.push(last.handle).contains(h) <==> (rh.contains(h) || last.handle == h)) by {
                if rh.push(last.handle).contains(h) {
                    let t = rh.push(last.handle).index_of(h);
                    if t < rh.len() {
                        assert(rh[t] == h);
                    }
                }
                if rh.contains(h) {
                    assert(rh.push(last.handle)[rh.index_of(h)] == h);
                }
                if last.handle == h {
                    assert(rh.push(last.handle)[rh.len() as int] == h);
                }
            }
        } else {
            assert(item_hits(s, q) == rh);
        }
        if exists|k: int| 0 <= k < s.len() && s[k].handle == h && spec_intersects(s[k].aabb, q) {
            let k = choose|k: int|
                0 <= k < s.len() && s[k].handle == h && spec_intersects(s[k].aabb, q);
            if k < s.len() - 1 {
                assert(rest[k] == s[k]);
            }
        }
        if rh.contains(h) {
            let k = choose|k: int|
                0 <= k < rest.len() && rest[k].handle == h && spec_intersects(rest[k].aabb, q);
            assert(s[k] == rest[k]);
        }
    }
}

/// `item_hits` lists distinct handles when the items' handles are distinct.
proof fn lemma_item_hits_distinct(s: Seq<Item>, q: Aabb)
    requires
        forall|a: int, b: int|
            0 <= a < s.len() && 0 <= b < s.len() && s[a].handle == s[b].handle ==> a == b,
    ensures
        item_hits(s, q).no_duplicates(),
    decreases s.len(),
{
    if s.len() > 0 {
        let rest = s.drop_last();
        assert forall|a: int, b: int|
            0 <= a < rest.len() && 0 <= b < rest.len() && rest[a].handle
                == rest[b].handle implies a == b by {
            assert(rest[a] == s[a] && rest[b] == s[b]);
        }
        lemma_item_hits_distinct(rest, q);
        if spec_intersects(s.last().aabb, q) {
            lemma_item_hits(rest, q, s.last().handle);
            if item_hits(rest, q).contains(s.last().handle) {
                let k = choose|k: int|
                    0 <= k < rest.len() && rest[k].handle == s.last().handle && spec_intersects(
                        rest[k].aabb,
                        q,
                    );
                assert(s[k].handle == s[s.len() - 1].handle);
            }
        }
    }
}

/// A handle in `sub_hits(i)` comes from an item of a node below `i` that meets `q`;
/// conversely every such item is reported.
proof fn lemma_sub_hits(nodes: Seq<Node>, parent: Seq<int>, i: int, q: Aabb, h: u64)
    requires
        structure_wf(nodes, parent),
        containment_wf(nodes, parent),
        0 <= i < nodes.len(),
    ensures
        sub_hits(nodes, i, q).contains(h) <==> exists|j: int, k: int|
            #![trigger nodes[j].items@[k]]
            0 <= j < nodes.len() && 0 <= k < nodes[j].items@.len() && is_anc(parent, i, j)
                && nodes[j].items@[k].handle == h && spec_intersects(nodes[j].items@[k].aabb, q),
    decreases nodes.len() - i,
{
    let own = item_hits(nodes[i].items@, q);
    lemma_item_hits(nodes[i].items@, q, h);
    if sub_hits(nodes, i, q).contains(h) {
        assert(spec_intersects(nodes[i].bounds, q));
        if own.contains(h) {
            let k = choose|k: int|
                0 <= k < nodes[i].items@.len() && nodes[i].items@[k].handle == h
                    && spec_intersects(nodes[i].items@[k].aabb, q);
            assert(is_anc(parent, i, i));
        } else {
            let c = nodes[i].children->0;
            assert(nodes[i].children is Some);
            assert(i < c[0] < nodes.len() && parent[c[0] as int] == i);
            assert(i < c[1] < nodes.len() && parent[c[1] as int] == i);
            assert(i < c[2] < nodes.len() && parent[c[2] as int] == i);
            assert(i < c[3] < nodes.len() && parent[c[3] as int] == i);
            let s0 = sub_hits(nodes, c[0] as int, q);
            let s1 = sub_hits(nodes, c[1] as int, q);
            let s2 = sub_hits(nodes, c[2] as int, q);
            let s3 = sub_hits(nodes, c[3] as int, q);
            assert(sub_hits(nodes, i, q) == own + s0 + s1 + s2 + s3);
            let ci: int = if s0.contains(h) {
                c[0] as int
            } else if s1.contains(h) {
                c[1] as int
            } else if s2.contains(h) {
                c[2] as int
            } else {
                assert(s3.contains(h));
                c[3] as int
            };
            lemma_sub_hits(nodes, parent, ci, q, h);
            let (j, k) = choose|j: int, k: int|
                0 <= j < nodes.len() && 0 <= k < nodes[j].items@.len() && is_anc(parent, ci, j)
                    && nodes[j].items@[k].handle == h && spec_intersects(
                    nodes[j].items@[k].aabb,
                    q,
                );
            lemma_anc_le(parent, ci, j);
            lemma_anc_reach(parent, i, ci, j);
            assert(nodes[j].items@[k].handle == h);
        }
    }
    if exists|j: int, k: int|
        #![trigger nodes[j].items@[k]]
        0 <= j < nodes.len() && 0 <= k < nodes[j].items@.len() && is_anc(parent, i, j)
            && nodes[j].items@[k].handle == h && spec_intersects(nodes[j].items@[k].aabb, q) {
        let (j, k) = choose|j: int, k: int|
            #![trigger nodes[j].items@[k]]
            0 <= j < nodes.len() && 0 <= k < nodes[j].items@.len() && is_anc(parent, i, j)
                && nodes[j].items@[k].handle == h && spec_intersects(nodes[j].items@[k].aabb, q);
        assert(spec_contained(nodes[i].bounds, nodes[j].items@[k].aabb));
        lemma_contained_intersects(nodes[i].bounds, nodes[j].items@[k].aabb, q);
        if j == i {
            assert(own.contains(h));
            assert(sub_hits(nodes, i, q).subrange(0, own.len() as int) == own);
            assert(own[own.index_of(h)] == sub_hits(nodes, i, q)[own.index_of(h)]);
        } else {
            lemma_below_child(nodes, parent, i, j);
            let c = nodes[i].children->0;
            let kk = choose|kk: int| 0 <= kk < 4 && is_anc(parent, c[kk] as int, j);
            assert(i < c[kk] < nodes.len() && parent[c[kk] as int] == i);
            assert(containment_wf(nodes, parent));
            lemma_sub_hits(nodes, parent, c[kk] as int, q, h);
            let s0 = sub_hits(nodes, c[0] as int, q);
            let s1 = sub_hits(nodes, c[1] as int, q);
            let s2 = sub_hits(nodes, c[2] as int, q);
            let s3 = sub_hits(nodes, c[3] as int, q);
            assert(i < c[0] < nodes.len() && i < c[1] < nodes.len());
            assert(i < c[2] < nodes.len() && i < c[3] < nodes.len());
            assert(sub_hits(nodes, i, q) == own + s0 + s1 + s2 + s3);
            lemma_concat_contains(own, s0, s1, s2, s3, h);
        }
    }
}

/// `a` reaches `j` through its child `c`.
proof fn lemma_anc_reach(parent: Seq<int>, a: int, c: int, j: int)
    requires
        is_anc(parent, c, j),
        0 < c < parent.len(),
        parent[c] == a,
        0 <= a < c,
    ensures
        is_anc(parent, a, j),
    decreases j,
{
    if j == c {
        lemma_anc_step(parent, a, c);
    } else {
        lemma_anc_reach(parent, a, c, parent[j]);
        lemma_anc_step(parent, a, j);
    }
}

proof fn lemma_concat_contains(a: Seq<u64>, b: Seq<u64>, c: Seq<u64>, d: Seq<u64>, e: Seq<u64>, h: u64)
    requires
        a.contains(h) || b.contains(h) || c.contains(h) || d.contains(h) || e.contains(h),
    ensures
        (a + b + c + d + e).contains(h),
{
    let s = a + b + c + d + e;
    if a.contains(h) {
        assert(s[a.index_of(h)] == h);
    } else if b.contains(h) {
        assert(s[a.len() + b.index_of(h)] == h);
    } else if c.contains(h) {
        assert(s[a.len() + b.len() + c.index_of(h)] == h);
    } else if d.contains(h) {
        assert(s[a.len() + b.len() + c.len() + d.index_of(h)] == h);
    } else {
        assert(s[a.len() + b.len() + c.len() + d.len() + e.index_of(h)] == h);
    }
}


proof fn lemma_concat_has(a: Seq<u64>, b: Seq<u64>, h: u64)
    ensures
        (a + b).contains(h) <==> a.contains(h) || b.contains(h),
{
    if (a + b).contains(h) {
        let t = (a + b).index_of(h);
        if t < a.len() {
            assert(a[t] == h);
        } else {
            assert(b[t - a.len()] == h);
        }
    }
    if a.contains(h) {
        assert((a + b)[a.index_of(h)] == h);
    }
    if b.contains(h) {
        assert((a + b)[a.len() + b.index_of(h)] == h);
    }
}

proof fn lemma_concat_distinct(a: Seq<u64>, b: Seq<u64>)
    requires
        a.no_duplicates(),
        b.no_duplicates(),
        forall|h: u64| a.contains(h) ==> !b.contains(h),
    ensures
        (a + b).no_duplicates(),
{
    let s = a + b;
    assert forall|x: int, y: int| 0 <= x < s.len() && 0 <= y < s.len() && x != y implies s[x]
        != s[y] by {
        if x < a.len() && y >= a.len() {
            assert(a.contains(s[x]));
            assert(b.contains(s[y]));
        } else if y < a.len() && x >= a.len() {
            assert(a.contains(s[y]));
            assert(b.contains(s[x]));
        } else if x >= a.len() && y >= a.len() {
            assert(s[x] == b[x - a.len()] && s[y] == b[y - a.len()]);
        }
    }
}

/// Items at distinct slots carry distinct handles.
proof fn lemma_slot_unique(nodes: Seq<Node>, loc: Map<u64, Slot>, n1: int, k1: int, n2: int, k2: int)
    requires
        locator_wf(nodes, loc),
        0 <= n1 < nodes.len(),
        0 <= k1 < nodes[n1].items@.len(),
        0 <= n2 < nodes.len(),
        0 <= k2 < nodes[n2].items@.len(),
        nodes[n1].items@[k1].handle == nodes[n2].items@[k2].handle,
    ensures
        n1 == n2 && k1 == k2,
{
    assert(nodes[n1].items@.len() <= usize::MAX && nodes[n2].items@.len() <= usize::MAX);
    assert(loc[nodes[n1].items@[k1].handle] == (n1 as usize, k1 as usize));
    assert(loc[nodes[n2].items@[k2].handle] == (n2 as usize, k2 as usize));
    assert(n1 as usize as int == n1 && k1 as usize as int == k1);
    assert(n2 as usize as int == n2 && k2 as usize as int == k2);
}

/// A query never reports a handle twice.
proof fn lemma_sub_hits_distinct(nodes: Seq<Node>, parent: Seq<int>, loc: Map<u64, Slot>, i: int, q: Aabb)
    requires
        structure_wf(nodes, parent),
        containment_wf(nodes, parent),
        locator_wf(nodes, loc),
        0 <= i < nodes.len(),
    ensures
        sub_hits(nodes, i, q).no_duplicates(),
    decreases nodes.len() - i,
{
    if spec_intersects(nodes[i].bounds, q) {
        let items = nodes[i].items@;
        assert forall|a: int, b: int|
            0 <= a < items.len() && 0 <= b < items.len() && items[a].handle
                == items[b].handle implies a == b by {
            lemma_slot_unique(nodes, loc, i, a, i, b);
        }
        lemma_item_hits_distinct(items, q);
        let own = item_hits(items, q);
        if nodes[i].children is Some {
            let c = nodes[i].children->0;
            assert(i < c[0] < nodes.len() && parent[c[0] as int] == i);
            assert(i < c[1] < nodes.len() && parent[c[1] as int] == i);
            assert(i < c[2] < nodes.len() && parent[c[2] as int] == i);
            assert(i < c[3] < nodes.len() && parent[c[3] as int] == i);
            let s0 = sub_hits(nodes, c[0] as int, q);
            let s1 = sub_hits(nodes, c[1] as int, q);
            let s2 = sub_hits(nodes, c[2] as int, q);
            let s3 = sub_hits(nodes, c[3] as int, q);
            lemma_sub_hits_distinct(nodes, parent, loc, c[0] as int, q);
            lemma_sub_hits_distinct(nodes, parent, loc, c[1] as int, q);
            lemma_sub_hits_distinct(nodes, parent, loc, c[2] as int, q);
            lemma_sub_hits_distinct(nodes, parent, loc, c[3] as int, q);
            // A handle reported under child `ca` is never reported at `i` or under another child.
            assert forall|h: u64, ka: int|
                0 <= ka < 4 && sub_hits(nodes, c[ka] as int, q).contains(h) implies !own.contains(h)
                && (forall|kb: int|
                0 <= kb < 4 && kb != ka ==> !sub_hits(nodes, c[kb] as int, q).contains(h)) by {
                let ca = c[ka] as int;
                assert(i < ca < nodes.len() && parent[ca] == i);
                lemma_sub_hits(nodes, parent, ca, q, h);
                let (j, k) = choose|j: int, k: int|
                    #![trigger nodes[j].items@[k]]
                    0 <= j < nodes.len() && 0 <= k < nodes[j].items@.len() && is_anc(parent, ca, j)
                        && nodes[j].items@[k].handle == h && spec_intersects(
                        nodes[j].items@[k].aabb,
                        q,
                    );
                lemma_item_hits(items, q, h);
                if own.contains(h) {
                    let k2 = choose|k2: int|
                        0 <= k2 < items.len() && items[k2].handle == h && spec_intersects(
                            items[k2].aabb,
                            q,
                        );
                    lemma_slot_unique(nodes, loc, j, k, i, k2);
                    lemma_anc_le(parent, ca, j);
                }
                assert forall|kb: int|
                    0 <= kb < 4 && kb != ka implies !sub_hits(nodes, c[kb] as int, q).contains(h) by {
                    let cb = c[kb] as int;
                    assert(i < cb < nodes.len() && parent[cb] == i);
                    lemma_sub_hits(nodes, parent, cb, q, h);
                    if sub_hits(nodes, cb, q).contains(h) {
                        let (j2, k2) = choose|j2: int, k2: int|
                            #![trigger nodes[j2].items@[k2]]
                            0 <= j2 < nodes.len() && 0 <= k2 < nodes[j2].items@.len() && is_anc(
                                parent,
                                cb,
                                j2,
                            ) && nodes[j2].items@[k2].handle == h && spec_intersects(
                                nodes[j2].items@[k2].aabb,
                                q,
                            );
                        lemma_slot_unique(nodes, loc, j, k, j2, k2);
                        lemma_anc_linear(parent, ca, cb, j);
                        assert(ca != cb);
                        if is_anc(parent, ca, cb) {
                            assert(is_anc(parent, ca, parent[cb]));
                            lemma_anc_le(parent, ca, i);
                        } else {
                            assert(is_anc(parent, cb, parent[ca]));
                            lemma_anc_le(parent, cb, i);
                        }
                    }
                }
            }
            assert forall|h: u64| own.contains(h) implies !s0.contains(h) by {}
            lemma_concat_distinct(own, s0);
            assert forall|h: u64| (own + s0).contains(h) implies !s1.contains(h) by {
                lemma_concat_has(own, s0, h);
            }
            lemma_concat_distinct(own + s0, s1);
            assert forall|h: u64| (own + s0 + s1).contains(h) implies !s2.contains(h) by {
                lemma_concat_has(own + s0, s1, h);
                lemma_concat_has(own, s0, h);
            }
            lemma_concat_distinct(own + s0 + s1, s2);
            assert forall|h: u64| (own + s0 + s1 + s2).contains(h) implies !s3.contains(h) by {
                lemma_concat_has(own + s0 + s1, s2, h);
                lemma_concat_has(own + s0, s1, h);
                lemma_concat_has(own, s0, h);
            }
            lemma_concat_distinct(own + s0 + s1 + s2, s3);
        }
    }
}

/// Two node vectors that differ at most in the items they hold.
spec fn same_shape(a: Seq<Node>, b: Seq<Node>) -> bool {
    &&& a.len() == b.len()
    &&& forall|j: int|
        #![trigger b[j]]
        0 <= j < a.len() ==> {
            &&& b[j].bounds == a[j].bounds
            &&& b[j].children == a[j].children
            &&& b[j].depth == a[j].depth
        }
}

/// An item may be stored at node `n`: it lies inside the bounds of `n` and of
/// every ancestor of `n`.
spec fn fits_at(nodes: Seq<Node>, parent: Seq<int>, n: int, b: Aabb) -> bool {
    forall|a: int|
        #![trigger is_anc(parent, a, n)]
        0 <= a < nodes.len() && is_anc(parent, a, n) ==> spec_contained(nodes[a].bounds, b)
}

/// The first of the four children `c` whose bounds contain `b`, or -1.
spec fn first_fit(nodes: Seq<Node>, c: [usize; 4], b: Aabb) -> int {
    if spec_contained(nodes[c[0] as int].bounds, b) {
        c[0] as int
    } else if spec_contained(nodes[c[1] as int].bounds, b) {
        c[1] as int
    } else if spec_contained(nodes[c[2] as int].bounds, b) {
        c[2] as int
    } else if spec_contained(nodes[c[3] as int].bounds, b) {
        c[3] as int
    } else {
        -1
    }
}

/// The node reached from `n` by following, while there is one, the first
/// child that contains `b`.
spec fn descend_from(nodes: Seq<Node>, n: int, b: Aabb) -> int
    decreases nodes.len() - n,
{
    if 0 <= n < nodes.len() && nodes[n].children is Some {
        let f = first_fit(nodes, nodes[n].children->0, b);
        if n < f < nodes.len() {
            descend_from(nodes, f, b)
        } else {
            n
        }
    } else {
        n
    }
}

/// Boxes land at the same node in trees of the same shape.
proof fn lemma_descend_same_shape(a: Seq<Node>, b: Seq<Node>, p: Seq<int>, n: int, x: Aabb)
    requires
        same_shape(a, b),
        structure_wf(a, p),
    ensures
        descend_from(a, n, x) == descend_from(b, n, x),
    decreases a.len() - n,
{
    if 0 <= n < a.len() && a[n].children is Some {
        assert(b[n].children == a[n].children);
        let c = a[n].children->0;
        assert(n < c[0] < a.len() && n < c[1] < a.len() && n < c[2] < a.len() && n < c[3] < a.len());
        assert(b[c[0] as int].bounds == a[c[0] as int].bounds);
        assert(b[c[1] as int].bounds == a[c[1] as int].bounds);
        assert(b[c[2] as int].bounds == a[c[2] as int].bounds);
        assert(b[c[3] as int].bounds == a[c[3] as int].bounds);
        let f = first_fit(a, c, x);
        assert(first_fit(b, c, x) == f);
        if n < f < a.len() {
            lemma_descend_same_shape(a, b, p, f, x);
        }
    } else if 0 <= n < a.len() {
        assert(b[n].children == a[n].children);
    }
}

/// With distinct overflow handles, the chosen overflow index is the only one.
proof fn lemma_overflow_index(ov: Seq<Item>, k: int)
    requires
        handles_of(ov).no_duplicates(),
        0 <= k < ov.len(),
    ensures
        overflow_index(ov, ov[k].handle) == k,
{
    let h = ov[k].handle;
    assert(ov[k].handle == h);
    let c = overflow_index(ov, h);
    assert(0 <= c < ov.len() && ov[c].handle == h);
    assert(handles_of(ov)[c] == handles_of(ov)[k]);
}

/// `is_anc` over a parent vector that extends `p0` agrees with `p0` on `p0`'s nodes.
proof fn lemma_anc_extend(p0: Seq<int>, p1: Seq<int>, a: int, j: int)
    requires
        p0.len() <= p1.len(),
        forall|x: int| 0 <= x < p0.len() ==> p1[x] == p0[x],
        0 <= j < p0.len(),
    ensures
        is_anc(p1, a, j) == is_anc(p0, a, j),
    decreases j,
{
    if j != a && 0 < j && 0 <= p0[j] < j {
        lemma_anc_extend(p0, p1, a, p0[j]);
    }
}

/// Dropping one more element from the front of a duplicate-free sequence
/// removes exactly that element from its set.
proof fn lemma_skip_set(s: Seq<u64>, t: int)
    requires
        s.no_duplicates(),
        0 <= t < s.len(),
    ensures
        s.skip(t).to_set() == s.skip(t + 1).to_set().insert(s[t]),
        !s.skip(t + 1).to_set().contains(s[t]),
{
    let a = s.skip(t);
    let b = s.skip(t + 1);
    assert forall|x: u64| a.to_set().contains(x) <==> b.to_set().insert(s[t]).contains(x) by {
        if a.to_set().contains(x) && x != s[t] {
            let m = a.index_of(x);
            assert(m != 0);
            assert(b[m - 1] == x);
        }
        if b.to_set().contains(x) {
            let m = b.index_of(x);
            assert(a[m + 1] == x);
        }
        if x == s[t] {
            assert(a[0] == x);
        }
    }
    assert(a.to_set() =~= b.to_set().insert(s[t]));
    if b.to_set().contains(s[t]) {
        let m = b.index_of(s[t]);
        assert(s[t + 1 + m] == s[t]);
    }
}

/// The state in the middle of a split: node `i` has four fresh empty children,
/// its items are taken out, and their handles are gone from the locator.
proof fn lemma_split_mid(
    n0: Seq<Node>,
    p0: Seq<int>,
    l0: Map<u64, Slot>,
    ov: Seq<Item>,
    n1: Seq<Node>,
    p1: Seq<int>,
    i: int,
    c: [usize; 4],
)
    requires
        structure_wf(n0, p0),
        containment_wf(n0, p0),
        locator_wf(n0, l0),
        overflow_wf(ov, l0),
        0 <= i < n0.len(),
        n0[i].children is None,
        n1.len() == n0.len() + 4,
        n1.len() <= usize::MAX,
        p1 == p0 + seq![i, i, i, i],
        c[0] == n0.len(),
        c[1] == n0.len() + 1,
        c[2] == n0.len() + 2,
        c[3] == n0.len() + 3,
        forall|j: int| #![trigger n1[j]] 0 <= j < n0.len() && j != i ==> n1[j] == n0[j],
        n1[i].bounds == n0[i].bounds,
        n1[i].items@.len() == 0,
        n1[i].children == Some(c),
        forall|k: int|
            #![trigger n1[n0.len() + k]]
            0 <= k < 4 ==> n1[n0.len() + k].items@.len() == 0 && n1[n0.len() + k].children
                is None,
    ensures
        structure_wf(n1, p1),
        containment_wf(n1, p1),
        locator_wf(n1, l0.remove_keys(handles_of(n0[i].items@).to_set())),
        overflow_wf(ov, l0.remove_keys(handles_of(n0[i].items@).to_set())),
        forall|j: int|
            #![trigger is_anc(p1, j, i)]
            0 <= j < n1.len() ==> is_anc(p1, j, i) == is_anc(p0, j, i),
{
    let len0 = n0.len();
    let e = n0[i].items@;
    let es = handles_of(e).to_set();
    let l1 = l0.remove_keys(es);
    assert forall|x: int| 0 <= x < p0.len() implies p1[x] == p0[x] by {}
    assert forall|j: int| 1 <= j < len0 implies p0[j] != i by {
        assert(n0[p0[j]].children is Some);
    }
    assert forall|j: int|
        #![trigger p1[j]]
        1 <= j < n1.len() implies {
        &&& 0 <= p1[j] < j
        &&& n1[p1[j]].children is Some
        &&& has_child(n1[p1[j]].children->0, j)
    } by {
        if j < len0 {
            assert(p1[j] == p0[j]);
            assert(n1[p0[j]] == n0[p0[j]]);
        } else {
            assert(p1[j] == i);
            assert(j == c[j - len0]);
        }
    }
    assert forall|a: int, k: int|
        #![trigger n1[a].children, n1[a].children->0[k]]
        0 <= a < n1.len() && n1[a].children is Some && 0 <= k < 4 implies {
        let cc = n1[a].children->0;
        &&& a < cc[k] < n1.len()
        &&& p1[cc[k] as int] == a
    } by {
        if a < len0 && a != i {
            assert(n1[a] == n0[a]);
            let cc = n0[a].children->0;
            assert(a < cc[k] < len0 && p0[cc[k] as int] == a);
        } else if a >= len0 {
            assert(n1[len0 + (a - len0)].children is None);
        }
    }
    assert forall|a: int|
        #![trigger n1[a].children]
        0 <= a < n1.len() && n1[a].children is Some implies {
        let cc = n1[a].children->0;
        cc[0] != cc[1] && cc[0] != cc[2] && cc[0] != cc[3] && cc[1] != cc[2] && cc[1] != cc[3]
            && cc[2] != cc[3]
    } by {
        if a < len0 && a != i {
            assert(n1[a] == n0[a]);
        } else if a >= len0 {
            assert(n1[len0 + (a - len0)].children is None);
        }
    }
    assert(structure_wf(n1, p1));
    assert forall|a: int, j: int, k: int|
        #![trigger is_anc(p1, a, j), n1[j].items@[k]]
        0 <= a < n1.len() && 0 <= j < n1.len() && 0 <= k < n1[j].items@.len() && is_anc(p1, a, j)
            implies spec_contained(n1[a].bounds, n1[j].items@[k].aabb) by {
        if j >= len0 {
            assert(n1[len0 + (j - len0)].items@.len() == 0);
        }
        assert(j < len0 && j != i);
        lemma_anc_extend(p0, p1, a, j);
        lemma_anc_le(p0, a, j);
        assert(n1[j] == n0[j]);
        if a != i {
            assert(n1[a] == n0[a]);
        }
        assert(is_anc(p0, a, j) && n0[j].items@[k] == n1[j].items@[k]);
    }
    assert(containment_wf(n1, p1));
    assert forall|h: u64| #![trigger l1[h]] l1.contains_key(h) implies {
        let (nn, kk) = l1[h];
        &&& nn < n1.len()
        &&& kk < n1[nn as int].items@.len()
        &&& n1[nn as int].items@[kk as int].handle == h
    } by {
        let (nn, kk) = l0[h];
        assert(n0[nn as int].items@[kk as int].handle == h);
        if nn as int == i {
            assert(handles_of(e)[kk as int] == h);
            assert(es.contains(h));
        }
        assert(n1[nn as int] == n0[nn as int]);
    }
    assert forall|nn: int, kk: int|
        #![trigger n1[nn].items@[kk]]
        0 <= nn < n1.len() && 0 <= kk < n1[nn].items@.len() implies {
        let h = n1[nn].items@[kk].handle;
        &&& l1.contains_key(h)
        &&& l1[h] == (nn as usize, kk as usize)
    } by {
        if nn >= len0 {
            assert(n1[len0 + (nn - len0)].items@.len() == 0);
        }
        assert(nn < len0 && nn != i);
        assert(n1[nn] == n0[nn]);
        let h = n0[nn].items@[kk].handle;
        assert(l0.contains_key(h) && l0[h] == (nn as usize, kk as usize));
        if es.contains(h) {
            let t = handles_of(e).index_of(h);
            assert(e[t].handle == h);
            assert(n0[i].items@[t].handle == h);
            lemma_slot_unique(n0, l0, nn, kk, i, t);
        }
    }
    assert forall|nn: int| #![trigger n1[nn].items@.len()] 0 <= nn < n1.len() implies n1[nn].items@.len()
        <= usize::MAX by {
        if nn < len0 && nn != i {
            assert(n1[nn] == n0[nn]);
            assert(n0[nn].items@.len() <= usize::MAX);
        } else if nn >= len0 {
            assert(n1[len0 + (nn - len0)].items@.len() == 0);
        }
    }
    assert(l1.dom() =~= l0.dom().difference(es));
    assert(l1.dom().finite());
    assert(locator_wf(n1, l1));
    assert forall|j: int| 0 <= j < n1.len() implies #[trigger] is_anc(p1, j, i) == is_anc(p0, j, i) by {
        lemma_anc_extend(p0, p1, j, i);
    }
}

/// Midpoint of `a` and `b`, rounded down.
fn midpoint(a: i64, b: i64) -> (m: i64)
    ensures
        m == (a + b) / 2,
        a <= b ==> a <= m <= b,
        b < a ==> b <= m <= a,
{
    if a <= b {
        let d: i128 = b as i128 - a as i128;
        assert((a + b) / 2 == a + d / 2) by {
            assert(a + b == 2 * a + d);
        }
        (a as i128 + d / 2) as i64
    } else {
        let d: i128 = a as i128 - b as i128;
        assert((a + b) / 2 == b + d / 2) by {
            assert(a + b == 2 * b + d);
        }
        (b as i128 + d / 2) as i64
    }
}

// ── the index ──────────────────────────────────────────────────────────

spec fn overflow_index(ov: Seq<Item>, h: u64) -> int {
    choose|k: int| 0 <= k < ov.len() && ov[k].handle == h
}

impl View for QuadTree {
    type V = Map<u64, Aabb>;

    /// Each stored handle with its box.
    closed spec fn view(&self) -> Map<u64, Aabb> {
        let loc = locator_entries(self.locator);
        Map::new(
            |h: u64| loc.contains_key(h) || overflow_has(self.overflow@, h),
            |h: u64|
                if loc.contains_key(h) {
                    self.nodes@[loc[h].0 as int].items@[loc[h].1 as int].aabb
                } else {
                    self.overflow@[overflow_index(self.overflow@, h)].aabb
                },
        )
    }
}

/// Handles whose box meets `q`.
pub open spec fn spec_hits(m: Map<u64, Aabb>, q: Aabb) -> Set<u64> {
    Set::new(|h: u64| m.contains_key(h) && spec_intersects(m[h], q))
}

impl QuadTree {
    /// The tree's internal invariant: a well-shaped tree, every item inside its
    /// ancestors' bounds, the locator in step with the items, overflow handles
    /// distinct and disjoint from the tree's.
    pub closed spec fn wf(&self) -> bool {
        let loc = locator_entries(self.locator);
        &&& structure_wf(self.nodes@, self.parent@)
        &&& containment_wf(self.nodes@, self.parent@)
        &&& locator_wf(self.nodes@, loc)
        &&& overflow_wf(self.overflow@, loc)
    }

    /// Bounds of the root rectangle.
    pub closed spec fn root_bounds(&self) -> Aabb {
        self.nodes@[0].bounds
    }

    /// An empty tree spanning `world_bounds`.
    pub fn new(world_bounds: Aabb) -> (t: Self)
        ensures
            t.wf(),
            t@ == Map::<u64, Aabb>::empty(),
            t.root_bounds() == world_bounds,
            t.spec_node_count() == 1,
            t.items_at(0) == 0,
            t.is_leaf_at(0),
            t.depth_at(0) == 0,
            forall|b: Aabb| #[trigger] t.leaf_for(b) == 0,
    {
        let root = Node { bounds: world_bounds, items: Vec::new(), children: None, depth: 0 };
        let mut nodes: Vec<Node> = Vec::new();
        nodes.push(root);
        let ghost root_parent: Seq<int> = seq![0int];
        let t = QuadTree {
            nodes,
            locator: locator_new(),
            overflow: Vec::new(),
            parent: Ghost(root_parent),
        };
        proof {
            let loc = locator_entries(t.locator);
            assert(loc.dom() =~= Set::<u64>::empty());
            assert(containment_wf(t.nodes@, t.parent@));
            assert(t@ =~= Map::<u64, Aabb>::empty());
        }
        t
    }

    proof fn lemma_dom(&self)
        requires
            self.wf(),
        ensures
            self@.dom() == locator_entries(self.locator).dom() + handles_of(self.overflow@).to_set(),
            locator_entries(self.locator).dom().disjoint(handles_of(self.overflow@).to_set()),
            handles_of(self.overflow@).to_set().len() == self.overflow@.len(),
            self@.dom().finite(),
    {
        let loc = locator_entries(self.locator);
        let hs = handles_of(self.overflow@);
        assert forall|h: u64| overflow_has(self.overflow@, h) <==> hs.to_set().contains(h) by {
            if overflow_has(self.overflow@, h) {
                let k = choose|k: int| 0 <= k < self.overflow@.len() && self.overflow@[k].handle == h;
                assert(hs[k] == h);
            }
            if hs.to_set().contains(h) {
                let k = hs.index_of(h);
                assert(self.overflow@[k].handle == h);
            }
        }
        assert(self@.dom() =~= loc.dom() + hs.to_set());
        assert forall|h: u64| loc.dom().contains(h) implies !hs.to_set().contains(h) by {
            if hs.to_set().contains(h) {
                let k = hs.index_of(h);
                assert(self.overflow@[k].handle == h);
            }
        }
        hs.unique_seq_to_set();
    }

    /// Number of stored handles (saturating at `usize::MAX`).
    pub fn len(&self) -> (n: usize)
        requires
            self.wf(),
        ensures
            n as int == if self@.len() <= usize::MAX { self@.len() as int } else { usize::MAX as int },
    {
        proof {
            self.lemma_dom();
            vstd::set_lib::lemma_set_disjoint_lens(
                locator_entries(self.locator).dom(),
                handles_of(self.overflow@).to_set(),
            );
        }
        locator_len(&self.locator).saturating_add(self.overflow.len())
    }

    /// True when nothing is stored.
    pub fn is_empty(&self) -> (b: bool)
        requires
            self.wf(),
        ensures
            b == (self@.len() == 0),
    {
        self.len() == 0
    }

    /// Every handle whose stored box meets `query`, each once.
    pub fn query_rect(&self, query: Aabb) -> (out: Vec<u64>)
        requires
            self.wf(),
        ensures
            out@.no_duplicates(),
            out@.to_set() == spec_hits(self@, query),
    {
        let mut out: Vec<u64> = Vec::new();
        let n = self.overflow.len();
        let mut k: usize = 0;
        // Overflow items carry no usable position in the tree; scan them all.
        while k < n
            invariant
                n == self.overflow@.len(),
                k <= n,
                out@ == item_hits(self.overflow@.take(k as int), query),
            decreases n - k,
        {
            let it = self.overflow[k];
            proof {
                assert(self.overflow@.take(k + 1).drop_last() =~= self.overflow@.take(k as int));
            }
            if aabb_intersects(it.aabb, query) {
                out.push(it.handle);
            }
            k = k + 1;
        }
        proof {
            assert(self.overflow@.take(n as int) =~= self.overflow@);
        }
        let ghost ov_hits = out@;
        self.query_node(0, query, &mut out);
        proof {
            let nodes = self.nodes@;
            let parent = self.parent@;
            let loc = locator_entries(self.locator);
            let ov = self.overflow@;
            let th = sub_hits(nodes, 0, query);
            assert(out@ == ov_hits + th);
            assert forall|a: int, b: int|
                0 <= a < ov.len() && 0 <= b < ov.len() && ov[a].handle == ov[b].handle implies a
                == b by {
                assert(handles_of(ov)[a] == ov[a].handle && handles_of(ov)[b] == ov[b].handle);
            }
            lemma_item_hits_distinct(ov, query);
            lemma_sub_hits_distinct(nodes, parent, loc, 0, query);
            assert forall|h: u64| ov_hits.contains(h) implies !th.contains(h) by {
                lemma_item_hits(ov, query, h);
                lemma_sub_hits(nodes, parent, 0, query, h);
                let k = choose|k: int| 0 <= k < ov.len() && ov[k].handle == h && spec_intersects(ov[k].aabb, query);
                assert(!loc.contains_key(ov[k].handle));
                if th.contains(h) {
                    let (j, k2) = choose|j: int, k2: int|
                        #![trigger nodes[j].items@[k2]]
                        0 <= j < nodes.len() && 0 <= k2 < nodes[j].items@.len() && is_anc(parent, 0, j)
                            && nodes[j].items@[k2].handle == h && spec_intersects(nodes[j].items@[k2].aabb, query);
                    assert(loc.contains_key(nodes[j].items@[k2].handle));
                }
            }
            lemma_concat_distinct(ov_hits, th);
            assert forall|h: u64| out@.contains(h) <==> spec_hits(self@, query).contains(h) by {
                lemma_concat_has(ov_hits, th, h);
                lemma_item_hits(ov, query, h);
                lemma_sub_hits(nodes, parent, 0, query, h);
                if loc.contains_key(h) {
                    let (n1, k1) = loc[h];
                    lemma_root_anc(nodes, parent, n1 as int);
                    if th.contains(h) {
                        let (j, k2) = choose|j: int, k2: int|
                            #![trigger nodes[j].items@[k2]]
                            0 <= j < nodes.len() && 0 <= k2 < nodes[j].items@.len() && is_anc(parent, 0, j)
                                && nodes[j].items@[k2].handle == h && spec_intersects(nodes[j].items@[k2].aabb, query);
                        lemma_slot_unique(nodes, loc, j, k2, n1 as int, k1 as int);
                    }
                    if ov_hits.contains(h) {
                        let k = choose|k: int| 0 <= k < ov.len() && ov[k].handle == h && spec_intersects(ov[k].aabb, query);
                        assert(!loc.contains_key(ov[k].handle));
                    }
                } else {
                    if th.contains(h) {
                        let (j, k2) = choose|j: int, k2: int|
                            #![trigger nodes[j].items@[k2]]
                            0 <= j < nodes.len() && 0 <= k2 < nodes[j].items@.len() && is_anc(parent, 0, j)
                                && nodes[j].items@[k2].handle == h && spec_intersects(nodes[j].items@[k2].aabb, query);
                        assert(loc.contains_key(nodes[j].items@[k2].handle));
                    }
                    if overflow_has(ov, h) {
                        let oi = overflow_index(ov, h);
                        assert(0 <= oi < ov.len() && ov[oi].handle == h);
                        if ov_hits.contains(h) {
                            let k = choose|k: int| 0 <= k < ov.len() && ov[k].handle == h && spec_intersects(ov[k].aabb, query);
                            assert(handles_of(ov)[k] == handles_of(ov)[oi]);
                        }
                        if spec_intersects(ov[oi].aabb, query) {
                            assert(ov[oi].handle == h);
                        }
                    }
                }
            }
            assert(out@.to_set() =~= spec_hits(self@, query));
        }
        out
    }

    /// Number of tree nodes, as a spec value.
    pub closed spec fn spec_node_count(&self) -> nat {
        self.nodes@.len()
    }

    /// Number of tree nodes: 1 until the root first splits, then 4 more per split.
    pub fn node_count(&self) -> (n: usize)
        ensures
            n == self.spec_node_count(),
    {
        self.nodes.len()
    }

    /// Node that a box inside the root is stored at: from the root, the first
    /// child containing it is followed while there is one.
    pub closed spec fn leaf_for(&self, aabb: Aabb) -> int {
        descend_from(self.nodes@, 0, aabb)
    }

    /// The two trees have the same nodes, with the same items.
    pub closed spec fn same_nodes(&self, other: Self) -> bool {
        self.nodes@ == other.nodes@
    }

    /// Number of items stored at node `n`.
    pub closed spec fn items_at(&self, n: int) -> nat {
        self.nodes@[n].items@.len()
    }

    /// Depth of node `n` (the root is at depth 0).
    pub closed spec fn depth_at(&self, n: int) -> int {
        self.nodes@[n].depth as int
    }

    /// Node `n` has not split.
    pub closed spec fn is_leaf_at(&self, n: int) -> bool {
        self.nodes@[n].children is None
    }

    /// Storing a new box `aabb` splits the leaf it lands in: the box lies inside
    /// the root, and its node is a leaf below `MAX_DEPTH` that the new item takes
    /// past `LEAF_CAPACITY` items (and room is left for four more nodes).
    pub open spec fn splits_on(&self, aabb: Aabb) -> bool {
        let n = self.leaf_for(aabb);
        &&& spec_contained(self.root_bounds(), aabb)
        &&& self.items_at(n) + 1 > LEAF_CAPACITY
        &&& self.depth_at(n) < MAX_DEPTH
        &&& self.is_leaf_at(n)
        &&& self.spec_node_count() + 4 <= usize::MAX
    }

    /// `new` has the nodes of `self` with one more item at node `n`: the same
    /// number of nodes, the same leaves and depths, every box landing where it
    /// did, and every other node holding as many items as before.
    pub open spec fn one_more_at(&self, new: QuadTree, n: int) -> bool {
        &&& new.spec_node_count() == self.spec_node_count()
        &&& new.items_at(n) == self.items_at(n) + 1
        &&& forall|j: int|
            0 <= j < self.spec_node_count() && j != n ==> #[trigger] new.items_at(j) == self.items_at(j)
        &&& forall|j: int|
            0 <= j < self.spec_node_count() ==> #[trigger] new.is_leaf_at(j) == self.is_leaf_at(j)
                && new.depth_at(j) == self.depth_at(j)
        &&& forall|b: Aabb| #[trigger] new.leaf_for(b) == self.leaf_for(b)
    }

    /// Adds `handle` with box `aabb`. A box that is not inside the root rectangle
    /// goes to the overflow list. Otherwise it is stored at the deepest node whose
    /// quadrant contains it; a leaf that grows past `LEAF_CAPACITY` items splits
    /// into four unless it is at `MAX_DEPTH`. Handles are keys: a handle already
    /// stored is first taken out, so that inserting it again moves it.
    pub fn insert(&mut self, handle: u64, aabb: Aabb)
        requires
            old(self).wf(),
        ensures
            final(self).wf(),
            final(self)@ == old(self)@.insert(handle, aabb),
            final(self).root_bounds() == old(self).root_bounds(),
            final(self).spec_node_count() >= old(self).spec_node_count(),
            !old(self)@.contains_key(handle) ==> final(self).spec_node_count() == old(self).spec_node_count()
                + if old(self).splits_on(aabb) {
                4nat
            } else {
                0nat
            },
            !old(self)@.contains_key(handle) && !spec_contained(old(self).root_bounds(), aabb)
                ==> final(self).same_nodes(*old(self)),
            !old(self)@.contains_key(handle) && spec_contained(old(self).root_bounds(), aabb)
                && !old(self).splits_on(aabb) ==> old(self).one_more_at(*final(self), old(self).leaf_for(aabb)),
    {
        let ghost v0 = self@;
        let _ = self.remove(handle);
        self.insert_new(handle, aabb);
        proof {
            assert(v0.remove(handle).insert(handle, aabb) =~= v0.insert(handle, aabb));
        }
    }

    /// Adds a handle not stored yet (see `insert`).
    fn insert_new(&mut self, handle: u64, aabb: Aabb)
        requires
            old(self).wf(),
            !old(self)@.contains_key(handle),
        ensures
            final(self).wf(),
            final(self)@ == old(self)@.insert(handle, aabb),
            final(self).root_bounds() == old(self).root_bounds(),
            final(self).spec_node_count() == old(self).spec_node_count() + if old(self).splits_on(aabb) {
                4nat
            } else {
                0nat
            },
            !spec_contained(old(self).root_bounds(), aabb) ==> final(self).same_nodes(*old(self)),
            spec_contained(old(self).root_bounds(), aabb) && !old(self).splits_on(aabb) ==> old(
                self,
            ).one_more_at(*final(self), old(self).leaf_for(aabb)),
    {
        let item = Item { handle, aabb };
        if !aabb_contained(self.nodes[0].bounds, aabb) {
            let ghost v0 = self@;
            let ghost ov0 = self.overflow@;
            let ghost l0 = locator_entries(self.locator);
            self.overflow.push(item);
            proof {
                let ov1 = self.overflow@;
                assert(!l0.contains_key(handle));
                assert forall|x: int| 0 <= x < ov0.len() implies ov0[x].handle != handle by {
                    if ov0[x].handle == handle {
                        assert(overflow_has(ov0, handle));
                    }
                }
                assert(handles_of(ov1) =~= handles_of(ov0).push(handle));
                assert(handles_of(ov1).no_duplicates()) by {
                    assert forall|a: int, b: int|
                        0 <= a < ov1.len() && 0 <= b < ov1.len() && a != b implies handles_of(ov1)[a]
                        != handles_of(ov1)[b] by {
                        if a < ov0.len() && b < ov0.len() {
                            assert(handles_of(ov0)[a] != handles_of(ov0)[b]);
                        } else if a < ov0.len() {
                            assert(ov0[a].handle != handle);
                        } else if b < ov0.len() {
                            assert(ov0[b].handle != handle);
                        }
                    }
                }
                assert(overflow_wf(ov1, l0));
                assert forall|h: u64| overflow_has(ov1, h) <==> (overflow_has(ov0, h) || h == handle) by {
                    if overflow_has(ov1, h) {
                        let x = choose|x: int| 0 <= x < ov1.len() && ov1[x].handle == h;
                        if x < ov0.len() {
                            assert(ov0[x].handle == h);
                        }
                    }
                    if overflow_has(ov0, h) {
                        let x = choose|x: int| 0 <= x < ov0.len() && ov0[x].handle == h;
                        assert(ov1[x].handle == h);
                    }
                    if h == handle {
                        assert(ov1[ov0.len() as int].handle == h);
                    }
                }
                assert forall|x: int| 0 <= x < ov0.len() implies overflow_index(ov1, #[trigger] ov0[x].handle)
                    == x && overflow_index(ov0, ov0[x].handle) == x by {
                    assert(ov1[x] == ov0[x]);
                    lemma_overflow_index(ov1, x);
                    lemma_overflow_index(ov0, x);
                }
                lemma_overflow_index(ov1, ov0.len() as int);
                assert forall|h: u64| #[trigger] overflow_has(ov0, h) implies overflow_index(ov1, h) == overflow_index(ov0, h) by {
                    let x = choose|x: int| 0 <= x < ov0.len() && ov0[x].handle == h;
                    assert(overflow_index(ov1, ov0[x].handle) == x);
                }
                assert(self@ =~= v0.insert(handle, aabb));
            }
            return;
        }
        let ghost n0 = self.nodes@;
        let ghost p0 = self.parent@;
        let n = self.descend_to_leaf(aabb);
        self.place(n, item);
        proof {
            assert forall|b: Aabb| #[trigger] descend_from(self.nodes@, 0, b) == descend_from(n0, 0, b) by {
                lemma_descend_same_shape(n0, self.nodes@, p0, 0, b);
            }
        }
        if self.nodes[n].items.len() > LEAF_CAPACITY && self.nodes[n].depth < MAX_DEPTH
            && self.nodes[n].children.is_none() && self.nodes.len() <= usize::MAX - 4 {
            self.split(n);
        }
    }

    /// Removes `handle`; true when it was stored. The last item of its node takes
    /// its slot.
    pub fn remove(&mut self, handle: u64) -> (found: bool)
        requires
            old(self).wf(),
        ensures
            final(self).wf(),
            final(self)@ == old(self)@.remove(handle),
            found == old(self)@.contains_key(handle),
            final(self).root_bounds() == old(self).root_bounds(),
            final(self).spec_node_count() == old(self).spec_node_count(),
            !found ==> final(self).same_nodes(*old(self)),
    {
        let ghost v0 = self@;
        let ghost n0 = self.nodes@;
        let ghost l0 = locator_entries(self.locator);
        let ghost ov0 = self.overflow@;
        let ghost p = self.parent@;
        match locator_remove(&mut self.locator, handle) {
            Some(slot) => {
                let (n, k) = slot;
                proof {
                    assert(n0[n as int].items@[k as int].handle == handle);
                }
                let _ = self.nodes[n].items.swap_remove(k);
                let ghost l1 = locator_entries(self.locator);
                let ghost ek = n0[n as int].items@;
                let ghost last = ek.len() - 1;
                if k < self.nodes[n].items.len() {
                    let moved = self.nodes[n].items[k].handle;
                    locator_insert(&mut self.locator, moved, (n, k));
                }
                proof {
                    let n1 = self.nodes@;
                    let l2 = locator_entries(self.locator);
                    assert(n1 == n0.update(n as int, n1[n as int]));
                    assert(n1[n as int].items@ == ek.update(k as int, ek.last()).drop_last());
                    assert(same_shape(n0, n1));
                    assert forall|j: int|
                        #![trigger p[j]]
                        1 <= j < n1.len() implies {
                        &&& 0 <= p[j] < j
                        &&& n1[p[j]].children is Some
                        &&& has_child(n1[p[j]].children->0, j)
                    } by {
                        assert(n1[p[j]].children == n0[p[j]].children);
                    }
                    assert forall|i: int, kk: int|
                        #![trigger n1[i].children, n1[i].children->0[kk]]
                        0 <= i < n1.len() && n1[i].children is Some && 0 <= kk < 4 implies {
                        let c = n1[i].children->0;
                        &&& i < c[kk] < n1.len()
                        &&& p[c[kk] as int] == i
                    } by {
                        assert(n1[i].children == n0[i].children);
                    }
                    assert forall|i: int|
                        #![trigger n1[i].children]
                        0 <= i < n1.len() && n1[i].children is Some implies {
                        let c = n1[i].children->0;
                        c[0] != c[1] && c[0] != c[2] && c[0] != c[3] && c[1] != c[2] && c[1] != c[3]
                            && c[2] != c[3]
                    } by {
                        assert(n1[i].children == n0[i].children);
                    }
                    assert(structure_wf(n1, p));
                    // item `x` of node `j` now was item `src(j, x)` before
                    assert forall|j: int, x: int|
                        0 <= j < n1.len() && 0 <= x < n1[j].items@.len() implies #[trigger] n1[j].items@[x]
                        == n0[j].items@[if j == n && x == k { last } else { x }] by {
                        if j != n {
                            assert(n1[j] == n0[j]);
                        }
                    }
                    assert forall|a: int, j: int, x: int|
                        #![trigger is_anc(p, a, j), n1[j].items@[x]]
                        0 <= a < n1.len() && 0 <= j < n1.len() && 0 <= x < n1[j].items@.len()
                            && is_anc(p, a, j) implies spec_contained(n1[a].bounds, n1[j].items@[x].aabb) by {
                        let src = if j == n && x == k { last } else { x };
                        assert(n1[j].items@[x] == n0[j].items@[src]);
                        assert(n1[a].bounds == n0[a].bounds);
                    }
                    assert(containment_wf(n1, p));
                    assert forall|hh: u64| #![trigger l2[hh]] l2.contains_key(hh) implies {
                        let (nn, kk) = l2[hh];
                        &&& nn < n1.len()
                        &&& kk < n1[nn as int].items@.len()
                        &&& n1[nn as int].items@[kk as int].handle == hh
                    } by {
                        if k < ek.len() - 1 && hh == ek.last().handle {
                        } else {
                            let (nn, kk) = l0[hh];
                            assert(n0[nn as int].items@[kk as int].handle == hh);
                            if nn == n && kk as int == last {
                                assert(hh == ek.last().handle);
                            }
                            if nn == n && kk == k {
                                assert(hh == handle);
                            }
                            assert(n1[nn as int].items@[kk as int] == n0[nn as int].items@[kk as int]);
                        }
                    }
                    assert forall|nn: int, kk: int|
                        #![trigger n1[nn].items@[kk]]
                        0 <= nn < n1.len() && 0 <= kk < n1[nn].items@.len() implies {
                        let hh = n1[nn].items@[kk].handle;
                        &&& l2.contains_key(hh)
                        &&& l2[hh] == (nn as usize, kk as usize)
                    } by {
                        let src = if nn == n && kk == k { last } else { kk };
                        assert(n1[nn].items@[kk] == n0[nn].items@[src]);
                        let hh = n0[nn].items@[src].handle;
                        assert(l0.contains_key(hh));
                        if hh == handle {
                            lemma_slot_unique(n0, l0, nn, src, n as int, k as int);
                        }
                        if nn == n && kk != k && hh == ek.last().handle {
                            lemma_slot_unique(n0, l0, nn, kk, n as int, last);
                        }
                    }
                    assert forall|nn: int| #![trigger n1[nn].items@.len()] 0 <= nn < n1.len() implies n1[nn].items@.len()
                        <= usize::MAX by {
                        assert(n0[nn].items@.len() <= usize::MAX);
                    }
                    assert(l2.dom().finite());
                    assert(locator_wf(n1, l2));
                    assert(overflow_wf(ov0, l2));
                    assert(self@ =~= v0.remove(handle)) by {
                        assert forall|x: int| 0 <= x < ov0.len() implies ov0[x].handle != handle by {}
                    }
                }
                return true;
            },
            None => {},
        }
        let len = self.overflow.len();
        let mut pos: usize = 0;
        while pos < len
            invariant
                len == ov0.len(),
                self.overflow@ == ov0,
                pos <= len,
                forall|x: int| 0 <= x < pos ==> ov0[x].handle != handle,
            ensures
                pos < len ==> ov0[pos as int].handle == handle,
            decreases len - pos,
        {
            if self.overflow[pos].handle == handle {
                break;
            }
            pos = pos + 1;
        }
        if pos == len {
            proof {
                assert(!overflow_has(ov0, handle));
                assert(self@ =~= v0.remove(handle));
            }
            return false;
        }
        let _ = self.overflow.swap_remove(pos);
        proof {
            let ov1 = self.overflow@;
            let last = ov0.len() - 1;
            assert forall|x: int| 0 <= x < ov1.len() implies #[trigger] ov1[x] == ov0[if x == pos { last } else { x }] by {}
            assert(handles_of(ov1).no_duplicates()) by {
                assert forall|a: int, b: int|
                    0 <= a < ov1.len() && 0 <= b < ov1.len() && a != b implies handles_of(ov1)[a]
                    != handles_of(ov1)[b] by {
                    let sa = if a == pos { last } else { a };
                    let sb = if b == pos { last } else { b };
                    assert(handles_of(ov0)[sa] != handles_of(ov0)[sb]);
                }
            }
            assert(overflow_wf(ov1, l0));
            assert forall|h: u64| overflow_has(ov1, h) <==> (overflow_has(ov0, h) && h != handle) by {
                if overflow_has(ov1, h) {
                    let x = choose|x: int| 0 <= x < ov1.len() && ov1[x].handle == h;
                    let sx = if x == pos { last } else { x };
                    assert(ov0[sx].handle == h);
                    assert(handles_of(ov0)[sx] != handles_of(ov0)[pos as int]);
                }
                if overflow_has(ov0, h) && h != handle {
                    let x = choose|x: int| 0 <= x < ov0.len() && ov0[x].handle == h;
                    if x == last {
                        assert(x != pos);
                        assert(ov1[pos as int].handle == h);
                    } else {
                        assert(x != pos);
                        assert(ov1[x].handle == h);
                    }
                }
            }
            assert forall|h: u64| #[trigger] overflow_has(ov1, h) implies ov1[overflow_index(ov1, h)].aabb
                == ov0[overflow_index(ov0, h)].aabb by {
                let x = choose|x: int| 0 <= x < ov1.len() && ov1[x].handle == h;
                lemma_overflow_index(ov1, x);
                let sx = if x == pos { last } else { x };
                lemma_overflow_index(ov0, sx);
            }
            assert(overflow_has(ov0, handle)) by {
                assert(ov0[pos as int].handle == handle);
            }
            assert(self@ =~= v0.remove(handle));
        }
        true
    }

    /// Moves `handle` to box `aabb`, adding it when it was not stored.
    pub fn update(&mut self, handle: u64, aabb: Aabb)
        requires
            old(self).wf(),
        ensures
            final(self).wf(),
            final(self)@ == old(self)@.insert(handle, aabb),
            final(self).root_bounds() == old(self).root_bounds(),
    {
        let ghost v0 = self@;
        let _ = self.remove(handle);
        self.insert(handle, aabb);
        proof {
            assert(v0.remove(handle).insert(handle, aabb) =~= v0.insert(handle, aabb));
        }
    }

    /// Stores `it` at the end of node `n`'s items and records its slot.
    fn place(&mut self, n: usize, it: Item)
        requires
            old(self).wf(),
            n < old(self).nodes@.len(),
            !old(self)@.contains_key(it.handle),
            fits_at(old(self).nodes@, old(self).parent@, n as int, it.aabb),
        ensures
            final(self).wf(),
            final(self)@ == old(self)@.insert(it.handle, it.aabb),
            same_shape(old(self).nodes@, final(self).nodes@),
            final(self).parent@ == old(self).parent@,
            final(self).overflow@ == old(self).overflow@,
            final(self).nodes@[n as int].items@ == old(self).nodes@[n as int].items@.push(it),
            forall|j: int|
                #![trigger final(self).nodes@[j]]
                0 <= j < old(self).nodes@.len() && j != n ==> final(self).nodes@[j].items@
                    == old(self).nodes@[j].items@,
    {
        let ghost n0 = self.nodes@;
        let ghost l0 = locator_entries(self.locator);
        let ghost v0 = self@;
        let k = self.nodes[n].items.len();
        self.nodes[n].items.push(it);
        locator_insert(&mut self.locator, it.handle, (n, k));
        proof {
            let n1 = self.nodes@;
            let l1 = locator_entries(self.locator);
            let p = self.parent@;
            let ov = self.overflow@;
            let h = it.handle;
            assert(n1 == n0.update(n as int, n1[n as int]));
            assert(same_shape(n0, n1));
            assert forall|j: int| 0 <= j < n0.len() && j != n implies n1[j].items@ == n0[j].items@ by {}
            assert(!l0.contains_key(h));
            assert forall|x: int| 0 <= x < ov.len() implies ov[x].handle != h by {
                if ov[x].handle == h {
                    assert(overflow_has(ov, h));
                }
            }
            // the tree shape is untouched
            assert forall|j: int|
                #![trigger p[j]]
                1 <= j < n1.len() implies {
                &&& 0 <= p[j] < j
                &&& n1[p[j]].children is Some
                &&& has_child(n1[p[j]].children->0, j)
            } by {
                assert(n1[p[j]].children == n0[p[j]].children);
            }
            assert forall|i: int, kk: int|
                #![trigger n1[i].children, n1[i].children->0[kk]]
                0 <= i < n1.len() && n1[i].children is Some && 0 <= kk < 4 implies {
                let c = n1[i].children->0;
                &&& i < c[kk] < n1.len()
                &&& p[c[kk] as int] == i
            } by {
                assert(n1[i].children == n0[i].children);
            }
            assert forall|i: int|
                #![trigger n1[i].children]
                0 <= i < n1.len() && n1[i].children is Some implies {
                let c = n1[i].children->0;
                c[0] != c[1] && c[0] != c[2] && c[0] != c[3] && c[1] != c[2] && c[1] != c[3]
                    && c[2] != c[3]
            } by {
                assert(n1[i].children == n0[i].children);
            }
            assert(structure_wf(n1, p));
            assert forall|a: int, j: int, x: int|
                #![trigger is_anc(p, a, j), n1[j].items@[x]]
                0 <= a < n1.len() && 0 <= j < n1.len() && 0 <= x < n1[j].items@.len() && is_anc(
                    p,
                    a,
                    j,
                ) implies spec_contained(n1[a].bounds, n1[j].items@[x].aabb) by {
                assert(n1[a].bounds == n0[a].bounds);
                if j != n || x < k {
                    assert(n1[j].items@[x] == n0[j].items@[x]);
                }
            }
            assert(containment_wf(n1, p));
            assert forall|hh: u64| #![trigger l1[hh]] l1.contains_key(hh) implies {
                let (nn, kk) = l1[hh];
                &&& nn < n1.len()
                &&& kk < n1[nn as int].items@.len()
                &&& n1[nn as int].items@[kk as int].handle == hh
            } by {
                if hh != h {
                    let (nn, kk) = l0[hh];
                    assert(n0[nn as int].items@[kk as int].handle == hh);
                    assert(n1[nn as int].items@[kk as int] == n0[nn as int].items@[kk as int]);
                }
            }
            assert forall|nn: int, kk: int|
                #![trigger n1[nn].items@[kk]]
                0 <= nn < n1.len() && 0 <= kk < n1[nn].items@.len() implies {
                let hh = n1[nn].items@[kk].handle;
                &&& l1.contains_key(hh)
                &&& l1[hh] == (nn as usize, kk as usize)
            } by {
                if nn != n || kk < k {
                    assert(n1[nn].items@[kk] == n0[nn].items@[kk]);
                    assert(l0.contains_key(n0[nn].items@[kk].handle));
                }
            }
            assert forall|nn: int| #![trigger n1[nn].items@.len()] 0 <= nn < n1.len() implies n1[nn].items@.len()
                <= usize::MAX by {
                if nn != n {
                    assert(n0[nn].items@.len() <= usize::MAX);
                } else {
                    assert(n1[nn].items.len() == n1[nn].items@.len());
                }
            }
            assert(locator_wf(n1, l1));
            assert(overflow_wf(ov, l1));
            assert(self@ =~= v0.insert(h, it.aabb));
        }
    }

    /// The node where a box inside the root belongs: follow the first child that
    /// contains it until a leaf is reached or no child contains it.
    fn descend_to_leaf(&self, aabb: Aabb) -> (r: usize)
        requires
            self.wf(),
            spec_contained(self.nodes@[0].bounds, aabb),
        ensures
            r < self.nodes@.len(),
            r as int == descend_from(self.nodes@, 0, aabb),
            fits_at(self.nodes@, self.parent@, r as int, aabb),
            self.nodes@[r as int].children is Some ==> first_fit(
                self.nodes@,
                self.nodes@[r as int].children->0,
                aabb,
            ) == -1,
    {
        let ghost nodes = self.nodes@;
        let ghost p = self.parent@;
        let mut cur: usize = 0;
        proof {
            assert forall|a: int| 0 <= a < nodes.len() && is_anc(p, a, 0) implies spec_contained(
                nodes[a].bounds,
                aabb,
            ) by {
                lemma_anc_le(p, a, 0);
            }
        }
        loop
            invariant
                self.wf(),
                nodes == self.nodes@,
                p == self.parent@,
                cur < nodes.len(),
                fits_at(nodes, p, cur as int, aabb),
                descend_from(nodes, cur as int, aabb) == descend_from(nodes, 0, aabb),
            decreases nodes.len() - cur,
        {
            let children = match self.nodes[cur].children {
                None => {
                    return cur;
                },
                Some(c) => c,
            };
            proof {
                let i = cur as int;
                assert(i < children[0] < nodes.len() && p[children[0] as int] == i);
                assert(i < children[1] < nodes.len() && p[children[1] as int] == i);
                assert(i < children[2] < nodes.len() && p[children[2] as int] == i);
                assert(i < children[3] < nodes.len() && p[children[3] as int] == i);
            }
            let next = if aabb_contained(self.nodes[children[0]].bounds, aabb) {
                children[0]
            } else if aabb_contained(self.nodes[children[1]].bounds, aabb) {
                children[1]
            } else if aabb_contained(self.nodes[children[2]].bounds, aabb) {
                children[2]
            } else if aabb_contained(self.nodes[children[3]].bounds, aabb) {
                children[3]
            } else {
                return cur;
            };
            proof {
                assert forall|a: int| 0 <= a < nodes.len() && is_anc(p, a, next as int) implies spec_contained(
                    nodes[a].bounds,
                    aabb,
                ) by {
                    if a != next as int {
                        assert(is_anc(p, a, next as int) == is_anc(p, a, p[next as int]));
                    }
                }
            }
            cur = next;
        }
    }

    /// Splits leaf `i` into four quadrants (NW, NE, SW, SE) and moves each of its
    /// items into the first quadrant that contains it; straddlers stay at `i`.
    fn split(&mut self, i: usize)
        requires
            old(self).wf(),
            i < old(self).nodes@.len(),
            old(self).nodes@[i as int].children is None,
            old(self).nodes@[i as int].depth < MAX_DEPTH,
            old(self).nodes@.len() + 4 <= usize::MAX,
        ensures
            final(self).wf(),
            final(self)@ == old(self)@,
            final(self).root_bounds() == old(self).root_bounds(),
            final(self).nodes@.len() == old(self).nodes@.len() + 4,
    {
        let ghost n0 = self.nodes@;
        let ghost p0 = self.parent@;
        let ghost l0 = locator_entries(self.locator);
        let ghost ov = self.overflow@;
        let ghost v0 = self@;
        let ghost e = n0[i as int].items@;
        let ghost he = handles_of(e);
        proof {
            assert forall|a: int, b: int| 0 <= a < he.len() && 0 <= b < he.len() && a != b implies he[a]
                != he[b] by {
                if he[a] == he[b] {
                    lemma_slot_unique(n0, l0, i as int, a, i as int, b);
                }
            }
        }
        // The moved items are re-recorded as they land, so their old slots go first.
        let cnt = self.nodes[i].items.len();
        let mut t: usize = 0;
        while t < cnt
            invariant
                self.nodes@ == n0,
                self.parent@ == p0,
                self.overflow@ == ov,
                i < n0.len(),
                e == n0[i as int].items@,
                he == handles_of(e),
                cnt == e.len(),
                t <= cnt,
                locator_entries(self.locator) == l0.remove_keys(he.take(t as int).to_set()),
            decreases cnt - t,
        {
            let h = self.nodes[i].items[t].handle;
            let _ = locator_remove(&mut self.locator, h);
            proof {
                assert(he.take(t + 1) == he.take(t as int).push(h));
                he.take(t as int).lemma_push_to_set_commute(h);
                assert(l0.remove_keys(he.take(t as int).to_set()).remove(h) =~= l0.remove_keys(
                    he.take(t + 1).to_set(),
                ));
            }
            t = t + 1;
        }
        let bounds = self.nodes[i].bounds;
        let depth = self.nodes[i].depth + 1;
        let mx = midpoint(bounds.xmin, bounds.xmax);
        let my = midpoint(bounds.ymin, bounds.ymax);
        let quads: [Aabb; 4] = [
            Aabb { xmin: bounds.xmin, ymin: my, xmax: mx, ymax: bounds.ymax },
            Aabb { xmin: mx, ymin: my, xmax: bounds.xmax, ymax: bounds.ymax },
            Aabb { xmin: bounds.xmin, ymin: bounds.ymin, xmax: mx, ymax: my },
            Aabb { xmin: mx, ymin: bounds.ymin, xmax: bounds.xmax, ymax: my },
        ];
        let first = self.nodes.len();
        self.nodes.push(Node { bounds: quads[0], items: Vec::new(), children: None, depth });
        self.nodes.push(Node { bounds: quads[1], items: Vec::new(), children: None, depth });
        self.nodes.push(Node { bounds: quads[2], items: Vec::new(), children: None, depth });
        self.nodes.push(Node { bounds: quads[3], items: Vec::new(), children: None, depth });
        let children: [usize; 4] = [first, first + 1, first + 2, first + 3];
        self.nodes[i].children = Some(children);
        let mut existing: Vec<Item> = Vec::new();
        std::mem::swap(&mut existing, &mut self.nodes[i].items);
        let ghost p1 = p0 + seq![i as int, i as int, i as int, i as int];
        self.parent = Ghost(p1);
        let ghost n1 = self.nodes@;
        proof {
            assert(he.take(cnt as int) =~= he);
            assert forall|j: int| #![trigger n1[j]] 0 <= j < n0.len() && j != i implies n1[j] == n0[j] by {}
            assert forall|k: int| #![trigger n1[n0.len() + k]] 0 <= k < 4 implies n1[n0.len()
                + k].items@.len() == 0 && n1[n0.len() + k].children is None by {}
            lemma_split_mid(n0, p0, l0, ov, n1, p1, i as int, children);
            assert(self.wf());
            let hs = he.to_set();
            assert(he.skip(0) =~= he);
            assert(self@ =~= v0.remove_keys(hs)) by {
                let l1 = locator_entries(self.locator);
                assert forall|h: u64| hs.contains(h) implies !overflow_has(ov, h) by {
                    if overflow_has(ov, h) {
                        let x = choose|x: int| 0 <= x < ov.len() && ov[x].handle == h;
                        let t2 = he.index_of(h);
                        assert(e[t2].handle == h);
                        assert(l0.contains_key(n0[i as int].items@[t2].handle));
                    }
                }
            }
            // every taken item fits at `i`
            assert forall|x: int| 0 <= x < e.len() implies fits_at(n1, p1, i as int, #[trigger] e[x].aabb) by {
                assert forall|a: int| 0 <= a < n1.len() && is_anc(p1, a, i as int) implies spec_contained(
                    n1[a].bounds,
                    e[x].aabb,
                ) by {
                    assert(is_anc(p0, a, i as int));
                    lemma_anc_le(p0, a, i as int);
                    if a != i {
                        assert(n1[a] == n0[a]);
                    }
                    assert(n0[i as int].items@[x] == e[x]);
                }
            }
            assert forall|x: int| 0 <= x < e.len() implies v0.contains_key(#[trigger] e[x].handle) && v0[e[x].handle]
                == e[x].aabb by {
                assert(n0[i as int].items@[x] == e[x]);
                assert(l0[e[x].handle] == (i, x as usize));
            }
        }
        let mut t: usize = 0;
        while t < cnt
            invariant
                self.wf(),
                existing@ == e,
                he == handles_of(e),
                he.no_duplicates(),
                cnt == e.len(),
                t <= cnt,
                self.parent@ == p1,
                same_shape(n1, self.nodes@),
                self@ == v0.remove_keys(he.skip(t as int).to_set()),
                i < n0.len(),
                n1.len() == n0.len() + 4,
                first == n0.len(),
                n1[first as int].bounds == quads[0],
                n1[first + 1].bounds == quads[1],
                n1[first + 2].bounds == quads[2],
                n1[first + 3].bounds == quads[3],
                p1[first as int] == i,
                p1[first + 1] == i,
                p1[first + 2] == i,
                p1[first + 3] == i,
                n1[0].bounds == n0[0].bounds,
                forall|x: int| 0 <= x < e.len() ==> fits_at(n1, p1, i as int, #[trigger] e[x].aabb),
                forall|x: int|
                    0 <= x < e.len() ==> v0.contains_key(#[trigger] e[x].handle) && v0[e[x].handle]
                        == e[x].aabb,
            decreases cnt - t,
        {
            let it = existing[t];
            let target = if aabb_contained(quads[0], it.aabb) {
                first
            } else if aabb_contained(quads[1], it.aabb) {
                first + 1
            } else if aabb_contained(quads[2], it.aabb) {
                first + 2
            } else if aabb_contained(quads[3], it.aabb) {
                first + 3
            } else {
                i
            };
            proof {
                let nn = self.nodes@;
                assert(fits_at(n1, p1, i as int, e[t as int].aabb));
                assert forall|a: int| 0 <= a < nn.len() && is_anc(p1, a, target as int) implies spec_contained(
                    nn[a].bounds,
                    it.aabb,
                ) by {
                    assert(nn[a].bounds == n1[a].bounds);
                    if target != i && a != target {
                        assert(is_anc(p1, a, target as int) == is_anc(p1, a, p1[target as int]));
                    }
                }
                lemma_skip_set(he, t as int);
            }
            self.place(target, it);
            proof {
                lemma_skip_set(he, t as int);
                assert(self@ =~= v0.remove_keys(he.skip(t + 1).to_set()));
            }
            t = t + 1;
        }
        proof {
            assert(he.skip(cnt as int).to_set() =~= Set::<u64>::empty());
            assert(self@ =~= v0);
        }
    }

    fn query_node(&self, node_idx: usize, query: Aabb, out: &mut Vec<u64>)
        requires
            self.wf(),
            node_idx < self.nodes@.len(),
        ensures
            final(out)@ == old(out)@ + sub_hits(self.nodes@, node_idx as int, query),
        decreases self.nodes@.len() - node_idx,
    {
        let node = &self.nodes[node_idx];
        if !aabb_intersects(node.bounds, query) {
            assert(old(out)@ + sub_hits(self.nodes@, node_idx as int, query) =~= old(out)@);
            return;
        }
        let n = node.items.len();
        let mut k: usize = 0;
        while k < n
            invariant
                n == node.items@.len(),
                k <= n,
                out@ == old(out)@ + item_hits(node.items@.take(k as int), query),
            decreases n - k,
        {
            let it = node.items[k];
            proof {
                assert(node.items@.take(k + 1).drop_last() =~= node.items@.take(k as int));
            }
            if aabb_intersects(it.aabb, query) {
                out.push(it.handle);
            }
            k = k + 1;
        }
        proof {
            assert(node.items@.take(n as int) =~= node.items@);
        }
        match node.children {
            None => {},
            Some(children) => {
                proof {
                    let i = node_idx as int;
                    let c = children;
                    assert(i < c[0] < self.nodes@.len());
                    assert(i < c[1] < self.nodes@.len());
                    assert(i < c[2] < self.nodes@.len());
                    assert(i < c[3] < self.nodes@.len());
                }
                let ghost before = out@;
                self.query_node(children[0], query, out);
                self.query_node(children[1], query, out);
                self.query_node(children[2], query, out);
                self.query_node(children[3], query, out);
                proof {
                    let nodes = self.nodes@;
                    let c = children;
                    assert(out@ =~= old(out)@ + (item_hits(node.items@, query) + sub_hits(nodes, c[0] as int, query)
                        + sub_hits(nodes, c[1] as int, query) + sub_hits(nodes, c[2] as int, query)
                        + sub_hits(nodes, c[3] as int, query)));
                }
            },
        }
    }
}

// ── laws ───────────────────────────────────────────────────────────────

/// After storing `h` with box `a`, a query for `q` reports `h` exactly when `a`
/// meets `q`, and every other handle as before.
pub proof fn law_query_after_insert(m: Map<u64, Aabb>, h: u64, a: Aabb, q: Aabb)
    requires
        !m.contains_key(h),
    ensures
        spec_hits(m.insert(h, a), q) == (if spec_intersects(a, q) {
            spec_hits(m, q).insert(h)
        } else {
            spec_hits(m, q)
        }),
{
    assert(spec_hits(m.insert(h, a), q) =~= (if spec_intersects(a, q) {
        spec_hits(m, q).insert(h)
    } else {
        spec_hits(m, q)
    }));
}

/// After removing `h`, no query reports it, and every other handle is reported
/// as before.
pub proof fn law_query_after_remove(m: Map<u64, Aabb>, h: u64, q: Aabb)
    ensures
        spec_hits(m.remove(h), q) == spec_hits(m, q).remove(h),
{
    assert(spec_hits(m.remove(h), q) =~= spec_hits(m, q).remove(h));
}

/// After moving `h` to box `a`, a query for `q` reports `h` exactly when `a`
/// meets `q`, whatever box it had before.
pub proof fn law_query_after_update(m: Map<u64, Aabb>, h: u64, a: Aabb, q: Aabb)
    ensures
        spec_hits(m.insert(h, a), q).contains(h) == spec_intersects(a, q),
        spec_hits(m.insert(h, a), q).remove(h) == spec_hits(m, q).remove(h),
{
    assert(spec_hits(m.insert(h, a), q).remove(h) =~= spec_hits(m, q).remove(h));
}

/// Removing a handle right after inserting it gives back the stored contents
/// (handles and boxes) from before the insert.
pub proof fn law_remove_undoes_insert(m: Map<u64, Aabb>, h: u64, a: Aabb)
    requires
        !m.contains_key(h),
    ensures
        m.insert(h, a).remove(h) == m,
{
    assert(m.insert(h, a).remove(h) =~= m);
}

/// A query rectangle that contains every stored (non-empty) box reports every
/// stored handle: nothing inserted is ever lost by splits.
pub proof fn law_covering_query_finds_all(m: Map<u64, Aabb>, q: Aabb)
    requires
        forall|h: u64|
            #[trigger] m.contains_key(h) ==> spec_contained(q, m[h]) && m[h].xmin <= m[h].xmax
                && m[h].ymin <= m[h].ymax,
    ensures
        spec_hits(m, q) == m.dom(),
{
    assert(spec_hits(m, q) =~= m.dom());
}

/// Inserting a new handle grows the count by one; removing a stored one shrinks it
/// by one.
pub proof fn law_len_insert_remove(t: QuadTree, h: u64, a: Aabb)
    requires
        t.wf(),
    ensures
        !t@.contains_key(h) ==> t@.insert(h, a).len() == t@.len() + 1,
        t@.contains_key(h) ==> t@.remove(h).len() == t@.len() - 1,
{
    t.lemma_dom();
}

} // verus!
