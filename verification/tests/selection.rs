use cadscene::selection::{
    entity_type_names_in_layout, eq_ignore_ascii_case, group_names_for_entity, EntityKey, GroupRec, GroupTable, NumOrder,
    QCandidate, QSelectOp, Selection,
};

fn key(k: &str, l: &str) -> EntityKey {
    EntityKey { kind: k.to_string(), layer: l.to_string() }
}

fn sorted(s: &Selection) -> Vec<u64> {
    let mut v: Vec<u64> = s.selected.iter().copied().collect();
    v.sort();
    v
}

#[test]
fn select_and_deselect() {
    let mut s = Selection::new();
    s.select_entity(1, false);
    s.select_entity(2, false);
    assert_eq!(sorted(&s), vec![1, 2]);
    s.select_entity(3, true);
    assert_eq!(sorted(&s), vec![3]);
    assert!(s.deselect_entity(3));
    assert!(!s.deselect_entity(3));
    s.select_entity(4, false);
    s.select_entity(5, false);
    s.deselect_many(&vec![4, 9]);
    assert_eq!(sorted(&s), vec![5]);
    s.deselect_all();
    assert!(s.selected.is_empty());
}

#[test]
fn select_similar_matches_type_and_layer() {
    let mut s = Selection::new();
    // nothing selected: no-op
    let cands = vec![(10, Some(key("LINE", "0")))];
    assert_eq!(s.select_similar(&vec![key("LINE", "0")], &cands), 0);
    assert!(s.selected.is_empty());
    s.select_entity(1, false);
    let cands = vec![
        (1, Some(key("LINE", "0"))),
        (2, Some(key("LINE", "0"))),
        (3, Some(key("LINE", "A"))),
        (4, Some(key("CIRCLE", "0"))),
        (5, None),
        (2, Some(key("LINE", "0"))),
    ];
    let added = s.select_similar(&vec![key("LINE", "0")], &cands);
    assert_eq!(added, 1);
    assert_eq!(sorted(&s), vec![1, 2]);
}

fn cand(h: u64, kind: &str, value: Option<&str>, num: Option<NumOrder>) -> QCandidate {
    QCandidate { handle: h, kind: Some(kind.to_string()), value: value.map(|v| v.to_string()), num }
}

#[test]
fn qselect_filters() {
    let cands = vec![
        cand(1, "LINE", Some("Walls"), Some(NumOrder::Unordered)),
        cand(2, "LINE", Some("walls"), None),
        cand(3, "CIRCLE", Some("Walls"), None),
        cand(4, "LINE", None, None),
        QCandidate { handle: 5, kind: None, value: None, num: None },
        cand(6, "LINE", Some("12"), Some(NumOrder::Greater)),
    ];
    let mut s = Selection::new();
    s.select_entity(99, false);
    let n = s.qselect(&cands, Some("LINE"), true, QSelectOp::Eq, "WALLS", false);
    assert_eq!(n, 2);
    assert_eq!(sorted(&s), vec![1, 2]);
    let n = s.qselect(&cands, Some("LINE"), true, QSelectOp::Neq, "walls", true);
    assert_eq!(n, 1);
    assert_eq!(sorted(&s), vec![1, 2, 6]);
    let n = s.qselect(&cands, None, true, QSelectOp::Gt, "10", false);
    assert_eq!(n, 1);
    assert_eq!(sorted(&s), vec![6]);
    let n = s.qselect(&cands, None, false, QSelectOp::Eq, "x", false);
    assert_eq!(n, 5);
    let n = s.qselect(&cands, Some("CIRCLE"), true, QSelectOp::Any, "", false);
    assert_eq!(n, 1);
    assert!(eq_ignore_ascii_case("ByLayer", "BYLAYER"));
    assert!(!eq_ignore_ascii_case("É", "é"));
}

fn group(h: u64, name: &str, ents: Vec<u64>, selectable: bool) -> GroupRec {
    GroupRec { handle: h, name: name.to_string(), entities: ents, selectable }
}

#[test]
fn groups_expand_names_delete_and_erase() {
    let groups = vec![
        group(100, "G1", vec![1, 2], true),
        group(101, "G2", vec![2, 3], false),
        group(102, "G3", vec![4], true),
    ];
    let mut s = Selection::new();
    s.expand_selection_for_groups(&groups, &vec![2]);
    assert_eq!(sorted(&s), vec![1, 2]);
    assert_eq!(group_names_for_entity(&groups, 2), vec!["G1".to_string(), "G2".to_string()]);
    assert!(group_names_for_entity(&groups, 7).is_empty());

    let mut t = GroupTable {
        groups,
        dict: vec![("G1".to_string(), 100), ("G2".to_string(), 101), ("G3".to_string(), 102)],
    };
    assert_eq!(t.delete_groups_containing(&vec![3]), 1);
    assert_eq!(t.groups.len(), 2);
    assert_eq!(t.dict, vec![("G1".to_string(), 100), ("G3".to_string(), 102)]);

    t.erase_from_groups(&vec![4, 1]);
    assert_eq!(t.groups.len(), 1);
    assert_eq!(t.groups[0].name, "G1");
    assert_eq!(t.groups[0].entities, vec![2]);
    assert_eq!(t.dict, vec![("G1".to_string(), 100)]);
}

#[test]
fn create_group_registers_and_dedups() {
    let mut t = GroupTable { groups: vec![], dict: vec![] };
    let h = t.create_group(40, "Doors".to_string(), vec![3, 5, 3, 9, 5]);
    assert_eq!(h, 40);
    assert_eq!(t.groups.len(), 1);
    assert_eq!(t.groups[0].entities, vec![3, 5, 9]);
    assert!(t.groups[0].selectable);
    assert_eq!(t.dict, vec![("Doors".to_string(), 40)]);
    assert_eq!(group_names_for_entity(&t.groups, 5), vec!["Doors".to_string()]);
    t.create_group(41, "More".to_string(), vec![5]);
    assert_eq!(group_names_for_entity(&t.groups, 5), vec!["Doors".to_string(), "More".to_string()]);
    // Deleting groups that hold 9 dissolves only the first.
    assert_eq!(t.delete_groups_containing(&vec![9]), 1);
    assert_eq!(t.dict, vec![("More".to_string(), 41)]);
}

#[test]
fn create_group_under_used_handle_replaces_group() {
    let mut t = GroupTable {
        groups: vec![GroupRec { handle: 7, name: "Old".to_string(), entities: vec![1], selectable: false }],
        dict: vec![("Old".to_string(), 7)],
    };
    t.create_group(7, "New".to_string(), vec![2]);
    assert_eq!(t.groups.len(), 1);
    assert_eq!(t.groups[0].name, "New");
    assert_eq!(t.groups[0].entities, vec![2]);
    assert_eq!(t.dict.len(), 2);
}

#[test]
fn type_names_sorted_and_distinct() {
    let kinds: Vec<String> =
        ["Line", "Circle", "Line", "Arc", "Text", "Circle", "line"].iter().map(|s| s.to_string()).collect();
    assert_eq!(entity_type_names_in_layout(&kinds), vec!["Arc", "Circle", "Line", "Text", "line"]);
    assert!(entity_type_names_in_layout(&vec![]).is_empty());
}

#[test]
fn erased_entity_is_in_no_group() {
    let mut t = GroupTable {
        groups: vec![
            GroupRec { handle: 1, name: "A".to_string(), entities: vec![5, 6], selectable: true },
            GroupRec { handle: 2, name: "B".to_string(), entities: vec![6], selectable: true },
        ],
        dict: vec![("A".to_string(), 1), ("B".to_string(), 2)],
    };
    t.erase_from_groups(&vec![6]);
    assert!(group_names_for_entity(&t.groups, 6).is_empty());
    assert_eq!(group_names_for_entity(&t.groups, 5), vec!["A".to_string()]);
    assert_eq!(t.dict, vec![("A".to_string(), 1)]);
}
