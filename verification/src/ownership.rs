//! Which block an entity belongs to, when its owner handle is missing: block
//! records may list the handles of their entities, and that list decides.
//! Handles are handle values; 0 is the null handle.

use vstd::prelude::*;
use std::collections::HashMap;

verus! {

broadcast use vstd::std_specs::hash::group_hash_axioms;

/// A block record: its handle and the entity handles it lists.
pub struct BlockRecordRec {
    pub handle: u64,
    pub entity_handles: Vec<u64>,
}

/// `m` with each of `ehs` mapped to `b`, in order.
pub open spec fn map_all(m: Map<u64, u64>, ehs: Seq<u64>, b: u64) -> Map<u64, u64>
    decreases ehs.len(),
{
    if ehs.len() == 0 {
        m
    } else {
        map_all(m, ehs.drop_last(), b).insert(ehs.last(), b)
    }
}

/// Entity handle to the block record listing it; a record later in the table
/// wins over an earlier one.
pub open spec fn spec_block_map(brs: Seq<BlockRecordRec>) -> Map<u64, u64>
    decreases brs.len(),
{
    if brs.len() == 0 {
        Map::empty()
    } else {
        map_all(spec_block_map(brs.drop_last()), brs.last().entity_handles@, brs.last().handle)
    }
}

/// The reverse map of entity handles to the record that lists them.
pub fn entity_block_map(brs: &Vec<BlockRecordRec>) -> (m: HashMap<u64, u64>)
    ensures
        m@ == spec_block_map(brs@),
{
    let mut m: HashMap<u64, u64> = HashMap::new();
    let mut i: usize = 0;
    proof {
        assert(brs@.take(0) =~= Seq::<BlockRecordRec>::empty());
        assert(m@ =~= Map::<u64, u64>::empty());
    }
    while i < brs.len()
        invariant
            i <= brs@.len(),
            m@ == spec_block_map(brs@.take(i as int)),
        decreases brs@.len() - i,
    {
        let br = &brs[i];
        proof {
            assert(brs@.take(i + 1).drop_last() =~= brs@.take(i as int));
            assert(brs@.take(i + 1).last() == *br);
        }
        let ghost m0 = m@;
        let mut k: usize = 0;
        proof {
            assert(br.entity_handles@.take(0) =~= Seq::<u64>::empty());
        }
        while k < br.entity_handles.len()
            invariant
                k <= br.entity_handles@.len(),
                m@ == map_all(m0, br.entity_handles@.take(k as int), br.handle),
            decreases br.entity_handles@.len() - k,
        {
            proof {
                assert(br.entity_handles@.take(k + 1).drop_last() =~= br.entity_handles@.take(k as int));
            }
            m.insert(br.entity_handles[k], br.handle);
            k = k + 1;
        }
        proof {
            assert(br.entity_handles@.take(br.entity_handles@.len() as int) =~= br.entity_handles@);
        }
        i = i + 1;
    }
    proof {
        assert(brs@.take(brs@.len() as int) =~= brs@);
    }
    m
}

/// Position of the first record with handle `b`, or -1.
pub open spec fn record_pos(brs: Seq<BlockRecordRec>, b: u64) -> int
    decreases brs.len(),
{
    if brs.len() == 0 {
        -1
    } else if brs[0].handle == b {
        0
    } else {
        let r = record_pos(brs.drop_first(), b);
        if r < 0 {
            -1
        } else {
            r + 1
        }
    }
}

proof fn lemma_record_pos(brs: Seq<BlockRecordRec>, b: u64)
    ensures
        -1 <= record_pos(brs, b) < brs.len(),
        record_pos(brs, b) >= 0 ==> brs[record_pos(brs, b)].handle == b,
        forall|i: int|
            0 <= i < brs.len() && (record_pos(brs, b) < 0 || i < record_pos(brs, b)) ==> brs[i].handle != b,
    decreases brs.len(),
{
    if brs.len() > 0 && brs[0].handle != b {
        lemma_record_pos(brs.drop_first(), b);
        assert forall|i: int| 1 <= i < brs.len() implies brs[i] == brs.drop_first()[i - 1] by {}
    }
}

/// Entity `e` with owner `owner` is drawn as part of block `block`: no block
/// means everything; otherwise the owner decides, and a missing owner (0) is
/// settled by the block's own entity list when it has one, else by the reverse
/// map, and, when no record lists anything at all, the entity is kept.
pub open spec fn spec_belongs(brs: Seq<BlockRecordRec>, e: u64, owner: u64, block: u64) -> bool {
    let p = record_pos(brs, block);
    let m = spec_block_map(brs);
    if block == 0 {
        true
    } else if owner == block {
        true
    } else if owner != 0 {
        false
    } else if p >= 0 && brs[p].entity_handles@.len() > 0 {
        brs[p].entity_handles@.contains(e)
    } else if m.contains_key(e) {
        m[e] == block
    } else {
        m.is_empty()
    }
}

fn contains_handle(v: &Vec<u64>, h: u64) -> (r: bool)
    ensures
        r == v@.contains(h),
{
    let mut i: usize = 0;
    while i < v.len()
        invariant
            i <= v@.len(),
            forall|j: int| 0 <= j < i ==> v@[j] != h,
        decreases v@.len() - i,
    {
        if v[i] == h {
            assert(v@[i as int] == h);
            return true;
        }
        i = i + 1;
    }
    false
}

/// Decides `spec_belongs`; `map` is the reverse map of `brs`.
pub fn belongs_to_visible_block(
    brs: &Vec<BlockRecordRec>,
    map: &HashMap<u64, u64>,
    e: u64,
    owner: u64,
    block: u64,
) -> (r: bool)
    requires
        map@ == spec_block_map(brs@),
    ensures
        r == spec_belongs(brs@, e, owner, block),
{
    if block == 0 || owner == block {
        return true;
    }
    if owner != 0 {
        return false;
    }
    proof {
        lemma_record_pos(brs@, block);
    }
    let mut i: usize = 0;
    while i < brs.len()
        invariant
            i <= brs@.len(),
            block != 0,
            owner != block,
            owner == 0,
            forall|j: int| 0 <= j < i ==> brs@[j].handle != block,
            -1 <= record_pos(brs@, block) < brs@.len(),
            record_pos(brs@, block) >= 0 ==> brs@[record_pos(brs@, block)].handle == block,
            forall|j: int|
                0 <= j < brs@.len() && (record_pos(brs@, block) < 0 || j < record_pos(brs@, block))
                    ==> brs@[j].handle != block,
        ensures
            record_pos(brs@, block) < 0 || brs@[record_pos(brs@, block)].entity_handles@.len() == 0,
        decreases brs@.len() - i,
    {
        if brs[i].handle == block {
            assert(record_pos(brs@, block) == i);
            if brs[i].entity_handles.len() > 0 {
                return contains_handle(&brs[i].entity_handles, e);
            }
            break;
        }
        i = i + 1;
    }
    match map.get(&e) {
        Some(b) => *b == block,
        None => map.is_empty(),
    }
}

proof fn lemma_map_all(m: Map<u64, u64>, ehs: Seq<u64>, b: u64, e: u64)
    ensures
        map_all(m, ehs, b).contains_key(e) <==> (m.contains_key(e) || ehs.contains(e)),
        ehs.contains(e) ==> map_all(m, ehs, b)[e] == b,
        !ehs.contains(e) && m.contains_key(e) ==> map_all(m, ehs, b)[e] == m[e],
    decreases ehs.len(),
{
    if ehs.len() > 0 {
        lemma_map_all(m, ehs.drop_last(), b, e);
        if ehs.drop_last().contains(e) {
            let k = ehs.drop_last().index_of(e);
            assert(ehs[k] == e);
        }
        if ehs.contains(e) && ehs.last() != e {
            let k = ehs.index_of(e);
            assert(k < ehs.len() - 1);
            assert(ehs.drop_last()[k] == e);
        }
    }
}

/// An entity is in the reverse map exactly when some record lists it, and it
/// maps to the last record in the table that does.
pub proof fn law_block_map_lists(brs: Seq<BlockRecordRec>, e: u64)
    ensures
        spec_block_map(brs).contains_key(e) <==> exists|i: int|
            0 <= i < brs.len() && brs[i].entity_handles@.contains(e),
        spec_block_map(brs).contains_key(e) ==> exists|i: int|
            0 <= i < brs.len() && brs[i].entity_handles@.contains(e) && spec_block_map(brs)[e]
                == brs[i].handle && forall|j: int|
                i < j < brs.len() ==> !brs[j].entity_handles@.contains(e),
    decreases brs.len(),
{
    if brs.len() > 0 {
        let d = brs.drop_last();
        law_block_map_lists(d, e);
        let last = brs.last();
        lemma_map_all(spec_block_map(d), last.entity_handles@, last.handle, e);
        assert forall|i: int| 0 <= i < d.len() implies d[i] == brs[i] by {}
        if last.entity_handles@.contains(e) {
            assert(brs[brs.len() - 1] == last);
        } else if spec_block_map(d).contains_key(e) {
            let i = choose|i: int|
                0 <= i < d.len() && d[i].entity_handles@.contains(e) && spec_block_map(d)[e] == d[i].handle
                    && forall|j: int| i < j < d.len() ==> !d[j].entity_handles@.contains(e);
            assert(brs[i] == d[i]);
            assert forall|j: int| i < j < brs.len() implies !brs[j].entity_handles@.contains(e) by {
                if j < d.len() {
                    assert(brs[j] == d[j]);
                }
            }
        }
        if exists|i: int| 0 <= i < brs.len() && brs[i].entity_handles@.contains(e) {
            let i = choose|i: int| 0 <= i < brs.len() && brs[i].entity_handles@.contains(e);
            if i < d.len() {
                assert(d[i] == brs[i]);
            }
        }
    }
}

} // verus!
