use cadscene::layouts::{adds_to_layout, delete_layout, layout_names, set_current_layout, rename_layout, swap_layout_order, LayoutRec, OwnedEntity};

fn l(handle: u64, name: &str, br: u64, tab: i16) -> LayoutRec {
    LayoutRec { handle, name: name.to_string(), block_record: br, tab_order: tab, viewport: 0 }
}

#[test]
fn names_model_first_then_by_tab_order() {
    let ls = vec![
        l(1, "Model", 10, 0),
        l(2, "Sheet B", 0, 2),
        l(3, "Sheet A", 20, 1),
        l(4, "", 0, 0),
        l(5, "Sheet B", 30, 3),
        l(6, "Sheet C", 40, 3),
        l(7, "Sheet A", 50, 0),
    ];
    // Sheet B's placeholder (no block record) gives way to the later real one (tab 3);
    // Sheet A keeps its first entry (tab 1).
    assert_eq!(layout_names(&ls), vec!["Model", "Sheet A", "Sheet B", "Sheet C"]);
    assert_eq!(layout_names(&vec![]), vec!["Model"]);
}

#[test]
fn rename_and_swap() {
    let mut ls = vec![l(1, "Model", 10, 0), l(2, "A", 20, 1), l(3, "B", 30, 2)];
    rename_layout(&mut ls, "A", "Plan");
    assert_eq!(ls[1].name, "Plan");
    rename_layout(&mut ls, "missing", "X");
    assert_eq!(layout_names(&ls), vec!["Model", "Plan", "B"]);
    swap_layout_order(&mut ls, "Plan", "B");
    assert_eq!(ls[1].tab_order, 2);
    assert_eq!(ls[2].tab_order, 1);
    assert_eq!(layout_names(&ls), vec!["Model", "B", "Plan"]);
    swap_layout_order(&mut ls, "Plan", "nope");
    assert_eq!(ls[1].tab_order, 2);
}

fn e(handle: u64, owner: u64) -> OwnedEntity {
    OwnedEntity { handle, owner }
}

#[test]
fn delete_layout_removes_layout_and_its_entities() {
    let mut ls = vec![l(1, "Model", 10, 0), l(2, "A", 20, 1), l(3, "B", 30, 2)];
    let mut ents = vec![e(100, 10), e(101, 20), e(102, 30), e(103, 20)];
    let mut current = "A".to_string();
    assert!(delete_layout(&mut ls, &mut ents, &mut current, "A"));
    assert_eq!(layout_names(&ls), vec!["Model", "B"]);
    assert_eq!(ents, vec![e(100, 10), e(102, 30)]);
    assert_eq!(current, "Model");

    let mut cur_b = "B".to_string();
    assert!(delete_layout(&mut ls, &mut ents, &mut cur_b, "B"));
    assert_eq!(ents, vec![e(100, 10)]);
    assert_eq!(layout_names(&ls), vec!["Model"]);
}

#[test]
fn delete_layout_refuses_model_and_unknown() {
    let mut ls = vec![l(1, "Model", 10, 0), l(2, "A", 20, 1)];
    let mut ents = vec![e(100, 10), e(101, 20)];
    let mut current = "Model".to_string();
    assert!(!delete_layout(&mut ls, &mut ents, &mut current, "Model"));
    assert!(!delete_layout(&mut ls, &mut ents, &mut current, "Nope"));
    assert_eq!(ls.len(), 2);
    assert_eq!(ents.len(), 2);
    assert_eq!(current, "Model");
    // Deleting a layout that is not current leaves the current one alone.
    assert!(delete_layout(&mut ls, &mut ents, &mut current, "A"));
    assert_eq!(current, "Model");
    assert_eq!(ents, vec![e(100, 10)]);
}

#[test]
fn switching_and_routing() {
    let mut cur = "Model".to_string();
    assert!(set_current_layout(&mut cur, "Sheet1".to_string()));
    assert_eq!(cur, "Sheet1");
    assert!(!set_current_layout(&mut cur, "Sheet1".to_string()));
    assert!(adds_to_layout("Sheet1", None));
    assert!(!adds_to_layout("Sheet1", Some(7)));
    assert!(!adds_to_layout("Model", None));
}
