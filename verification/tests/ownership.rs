use cadscene::ownership::{belongs_to_visible_block, entity_block_map, BlockRecordRec};

fn br(handle: u64, ents: Vec<u64>) -> BlockRecordRec {
    BlockRecordRec { handle, entity_handles: ents }
}

#[test]
fn owner_decides_when_present() {
    let brs = vec![br(10, vec![1, 2]), br(20, vec![])];
    let m = entity_block_map(&brs);
    assert!(belongs_to_visible_block(&brs, &m, 5, 10, 0));
    assert!(belongs_to_visible_block(&brs, &m, 5, 10, 10));
    assert!(!belongs_to_visible_block(&brs, &m, 5, 20, 10));
}

#[test]
fn missing_owner_uses_lists_and_reverse_map() {
    let brs = vec![br(10, vec![1, 2]), br(20, vec![]), br(30, vec![3, 1])];
    let m = entity_block_map(&brs);
    assert_eq!(m.get(&1), Some(&30));
    assert_eq!(m.get(&2), Some(&10));
    // the block lists its entities: its list decides
    assert!(belongs_to_visible_block(&brs, &m, 2, 0, 10));
    assert!(!belongs_to_visible_block(&brs, &m, 3, 0, 10));
    // the block lists nothing: the reverse map decides
    assert!(!belongs_to_visible_block(&brs, &m, 1, 0, 20));
    assert!(!belongs_to_visible_block(&brs, &m, 9, 0, 20));
    // unknown block record, entity listed by block 30
    assert!(belongs_to_visible_block(&brs, &m, 3, 0, 30));
    assert!(!belongs_to_visible_block(&brs, &m, 3, 0, 99));
}

#[test]
fn nothing_listed_keeps_everything() {
    let brs = vec![br(10, vec![]), br(20, vec![])];
    let m = entity_block_map(&brs);
    assert!(m.is_empty());
    assert!(belongs_to_visible_block(&brs, &m, 7, 0, 10));
}
