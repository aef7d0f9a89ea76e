use cadscene::quadtree::{Aabb, QuadTree};

/// Boxes are given in drawing units and stored in tenths of a unit.
fn bx(b: [f64; 4]) -> Aabb {
    let s = |v: f64| (v * 10.0).round() as i64;
    Aabb { xmin: s(b[0]), ymin: s(b[1]), xmax: s(b[2]), ymax: s(b[3]) }
}

fn h(v: u64) -> u64 {
    v
}

#[test]
fn empty_tree_returns_nothing() {
    let t = QuadTree::new(bx([0.0, 0.0, 100.0, 100.0]));
    assert!(t.is_empty());
    assert!(t.query_rect(bx([0.0, 0.0, 100.0, 100.0])).is_empty());
}

#[test]
fn insert_and_query_hit() {
    let mut t = QuadTree::new(bx([0.0, 0.0, 100.0, 100.0]));
    t.insert(h(1), bx([10.0, 10.0, 20.0, 20.0]));
    let hits = t.query_rect(bx([0.0, 0.0, 50.0, 50.0]));
    assert_eq!(hits, vec![h(1)]);
}

#[test]
fn query_miss() {
    let mut t = QuadTree::new(bx([0.0, 0.0, 100.0, 100.0]));
    t.insert(h(1), bx([10.0, 10.0, 20.0, 20.0]));
    let hits = t.query_rect(bx([50.0, 50.0, 90.0, 90.0]));
    assert!(hits.is_empty());
}

#[test]
fn split_on_overflow() {
    let mut t = QuadTree::new(bx([0.0, 0.0, 100.0, 100.0]));
    for i in 0..40u64 {
        let x = (i as f64) * 0.5;
        let y = (i as f64) * 0.5;
        t.insert(h(i), bx([x, y, x + 0.1, y + 0.1]));
    }
    assert_eq!(t.len(), 40);
    assert!(t.node_count() > 1);
    let hits = t.query_rect(bx([0.0, 0.0, 100.0, 100.0]));
    assert_eq!(hits.len(), 40);
}

#[test]
fn remove_works() {
    let mut t = QuadTree::new(bx([0.0, 0.0, 100.0, 100.0]));
    t.insert(h(1), bx([10.0, 10.0, 20.0, 20.0]));
    t.insert(h(2), bx([30.0, 30.0, 40.0, 40.0]));
    assert!(t.remove(h(1)));
    assert!(!t.remove(h(1)));
    let hits = t.query_rect(bx([0.0, 0.0, 100.0, 100.0]));
    assert_eq!(hits, vec![h(2)]);
}

#[test]
fn update_moves_item() {
    let mut t = QuadTree::new(bx([0.0, 0.0, 100.0, 100.0]));
    t.insert(h(1), bx([10.0, 10.0, 20.0, 20.0]));
    t.update(h(1), bx([70.0, 70.0, 80.0, 80.0]));
    let lo = t.query_rect(bx([0.0, 0.0, 50.0, 50.0]));
    let hi = t.query_rect(bx([60.0, 60.0, 90.0, 90.0]));
    assert!(lo.is_empty());
    assert_eq!(hi, vec![h(1)]);
}

#[test]
fn out_of_bounds_goes_to_overflow() {
    let mut t = QuadTree::new(bx([0.0, 0.0, 100.0, 100.0]));
    t.insert(h(1), bx([1000.0, 1000.0, 1010.0, 1010.0]));
    let near = t.query_rect(bx([0.0, 0.0, 50.0, 50.0]));
    assert!(near.is_empty());
    let far = t.query_rect(bx([900.0, 900.0, 1100.0, 1100.0]));
    assert_eq!(far, vec![h(1)]);
}

#[test]
fn many_straddlers_dont_orphan_subtree() {
    let mut t = QuadTree::new(bx([0.0, 0.0, 100.0, 100.0]));
    for i in 0..40u64 {
        t.insert(h(i), bx([1.0, 1.0, 2.0, 2.0]));
    }
    for i in 100..200u64 {
        t.insert(h(i), bx([10.0, 10.0, 90.0, 90.0]));
    }
    let huge = bx([-1e9, -1e9, 1e9, 1e9]);
    let hits = t.query_rect(huge);
    let expected = 40 + 100;
    assert_eq!(hits.len(), expected, "lost items: tree.len={} hits.len={}", t.len(), hits.len());
}

#[test]
fn straddler_stays_at_parent() {
    let mut t = QuadTree::new(bx([0.0, 0.0, 100.0, 100.0]));
    for i in 0..40u64 {
        t.insert(h(i + 100), bx([1.0, 1.0, 2.0, 2.0]));
    }
    t.insert(h(1), bx([40.0, 40.0, 60.0, 60.0]));
    let nw_hits = t.query_rect(bx([0.0, 50.0, 50.0, 100.0]));
    assert!(nw_hits.contains(&h(1)));
    let se_hits = t.query_rect(bx([50.0, 0.0, 100.0, 50.0]));
    assert!(se_hits.contains(&h(1)));
}

// ── further cases ──────────────────────────────────────────────────────

#[test]
fn insert_then_remove_restores_empty_index() {
    let mut t = QuadTree::new(bx([0.0, 0.0, 100.0, 100.0]));
    t.insert(7, bx([1.0, 1.0, 3.0, 3.0]));
    assert_eq!(t.len(), 1);
    assert!(t.remove(7));
    assert!(t.is_empty());
    assert!(t.query_rect(bx([-1e6, -1e6, 1e6, 1e6])).is_empty());
}

#[test]
fn remove_from_overflow_and_swapped_slot() {
    let mut t = QuadTree::new(bx([0.0, 0.0, 100.0, 100.0]));
    t.insert(1, bx([-50.0, -50.0, -40.0, -40.0]));
    t.insert(2, bx([200.0, 200.0, 210.0, 210.0]));
    t.insert(3, bx([10.0, 10.0, 11.0, 11.0]));
    t.insert(4, bx([12.0, 12.0, 13.0, 13.0]));
    t.insert(5, bx([14.0, 14.0, 15.0, 15.0]));
    assert!(t.remove(1));
    assert!(t.remove(3));
    let mut all = t.query_rect(bx([-1e6, -1e6, 1e6, 1e6]));
    all.sort();
    assert_eq!(all, vec![2, 4, 5]);
    assert!(t.remove(5));
    assert!(t.remove(4));
    assert!(t.remove(2));
    assert!(t.is_empty());
}

#[test]
fn touching_boxes_intersect() {
    let mut t = QuadTree::new(bx([0.0, 0.0, 100.0, 100.0]));
    t.insert(9, bx([10.0, 10.0, 20.0, 20.0]));
    assert_eq!(t.query_rect(bx([20.0, 20.0, 30.0, 30.0])), vec![9]);
    assert!(t.query_rect(bx([20.1, 20.1, 30.0, 30.0])).is_empty());
}

#[test]
fn deep_splits_keep_every_item() {
    let mut t = QuadTree::new(bx([0.0, 0.0, 100.0, 100.0]));
    for i in 0..300u64 {
        t.insert(i, bx([0.0, 0.0, 0.1, 0.1]));
    }
    assert_eq!(t.len(), 300);
    let hits = t.query_rect(bx([0.0, 0.0, 0.1, 0.1]));
    assert_eq!(hits.len(), 300);
    // splitting stops at the depth cap: at most 4 nodes per level
    assert!(t.node_count() <= 1 + 4 * 16);
}

#[test]
fn update_inserts_missing_handle() {
    let mut t = QuadTree::new(bx([0.0, 0.0, 100.0, 100.0]));
    t.update(42, bx([5.0, 5.0, 6.0, 6.0]));
    assert_eq!(t.len(), 1);
    assert_eq!(t.query_rect(bx([0.0, 0.0, 10.0, 10.0])), vec![42]);
}

#[test]
fn inserting_a_stored_handle_moves_it() {
    let mut t = QuadTree::new(bx([0.0, 0.0, 100.0, 100.0]));
    t.insert(h(1), bx([10.0, 10.0, 20.0, 20.0]));
    t.insert(h(1), bx([70.0, 70.0, 80.0, 80.0]));
    assert_eq!(t.len(), 1);
    assert!(t.query_rect(bx([0.0, 0.0, 50.0, 50.0])).is_empty());
    assert_eq!(t.query_rect(bx([60.0, 60.0, 90.0, 90.0])), vec![h(1)]);
    // out of the root and back in
    t.insert(h(1), bx([150.0, 150.0, 160.0, 160.0]));
    t.insert(h(1), bx([5.0, 5.0, 6.0, 6.0]));
    assert_eq!(t.len(), 1);
    assert_eq!(t.query_rect(bx([-500.0, -500.0, 500.0, 500.0])), vec![h(1)]);
}

#[test]
fn leaf_splits_exactly_past_capacity() {
    let mut t = QuadTree::new(bx([0.0, 0.0, 100.0, 100.0]));
    for i in 0..32u64 {
        let x = i as f64 * 0.5;
        t.insert(h(i), bx([x, x, x + 0.1, x + 0.1]));
    }
    assert_eq!(t.node_count(), 1);
    t.insert(h(32), bx([16.0, 16.0, 16.1, 16.1]));
    assert_eq!(t.node_count(), 5);
}
