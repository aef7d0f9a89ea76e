use cadscene::layouts::LayoutRec;
use cadscene::ownership::BlockRecordRec;
use cadscene::paper::{
    active_viewport_render_mode, current_layout_block_handle, current_layout_entity_handles, custom_block_names,
    first_key_match, first_user_viewport, has_selected_viewport, is_content_viewport, is_content_viewport_in_layout, first_viewport_handle, model_space_block_handle, new_block_name, set_active_viewport_render_mode,
    sheet_viewport_handle, str_le, table_keys, viewport_count, viewport_list, BlockRecordInfo, ViewportInfo,
};
use cadscene::render_mode::RenderMode;

fn l(name: &str, br: u64, tab: i16) -> LayoutRec {
    LayoutRec { handle: 0, name: name.to_string(), block_record: br, tab_order: tab, viewport: 0 }
}

fn r(handle: u64, name: &str) -> BlockRecordInfo {
    BlockRecordInfo { handle, name: name.to_string(), layout: 0 }
}

#[test]
fn block_record_from_link_or_conventional_name() {
    let recs = vec![
        r(1, "*Model_Space"),
        r(2, "*Paper_Space"),
        r(3, "*PAPER_SPACE0"),
        r(4, "*Paper_Space1"),
    ];
    let ls = vec![l("Model", 0, 0), l("Sheet1", 0, 1), l("Sheet2", 0, 2), l("Sheet3", 0, 3), l("Linked", 77, 9)];
    assert_eq!(current_layout_block_handle(&ls, &recs, "Model"), 1);
    assert_eq!(current_layout_block_handle(&ls, &recs, "Sheet1"), 2);
    assert_eq!(current_layout_block_handle(&ls, &recs, "Sheet2"), 3);
    assert_eq!(current_layout_block_handle(&ls, &recs, "Sheet3"), 4);
    assert_eq!(current_layout_block_handle(&ls, &recs, "Linked"), 77);
    assert_eq!(current_layout_block_handle(&ls, &recs, "Nowhere"), 0);
}

#[test]
fn block_record_by_position_when_tab_orders_are_useless() {
    // every tab order 0: all paper layouts map to `*Paper_Space` by name; when that
    // record is missing, the position among paper layouts decides
    let recs = vec![r(1, "*Model_Space"), r(12, "*Paper_Space_B"), r(11, "*Paper_Space_A"), r(5, "Block")];
    let ls = vec![l("Model", 0, 0), l("Zeta", 0, 0), l("Alpha", 0, 0)];
    // sorted layouts: Alpha, Zeta; sorted paper records: *Paper_Space_A, *Paper_Space_B
    assert_eq!(current_layout_block_handle(&ls, &recs, "Alpha"), 11);
    assert_eq!(current_layout_block_handle(&ls, &recs, "Zeta"), 12);
    let ls3 = vec![l("A", 0, 0), l("B", 0, 0), l("C", 0, 0)];
    assert_eq!(current_layout_block_handle(&ls3, &recs, "C"), 0);
    assert_eq!(current_layout_block_handle(&vec![l("Model", 0, 0)], &vec![], "Model"), 0);
}

fn vp(handle: u64, id: i16, owner: u64, centered: bool) -> ViewportInfo {
    ViewportInfo { handle, id, owner, centered, on: true, render_mode: RenderMode::Wireframe2D, frozen_layers: vec![] }
}

#[test]
fn viewport_labels_sorted_as_text() {
    let recs = vec![r(2, "*Paper_Space")];
    let ls = vec![l("Model", 0, 0), l("Sheet1", 0, 1)];
    let vps = vec![
        vp(100, 1, 2, true),
        vp(101, 2, 2, false),
        vp(102, 11, 2, false),
        vp(103, 0, 2, false),
        vp(104, 0, 2, true),
        vp(105, 3, 9, false),
    ];
    let list = viewport_list(&ls, &recs, "Sheet1", &vps);
    let got: Vec<(u64, &str)> = list.iter().map(|(h, s, _)| (*h, s.as_str())).collect();
    assert_eq!(got, vec![(101, "VP 1"), (102, "VP 10"), (103, "VP 3")]);
    assert_eq!(viewport_count(&ls, &recs, "Sheet1", &vps), 3);
    // with the sheet viewport known, only it is left out
    let mut linked = ls.iter().map(|x| l(&x.name, x.block_record, x.tab_order)).collect::<Vec<_>>();
    linked[1].viewport = 100;
    let list = viewport_list(&linked, &recs, "Sheet1", &vps);
    assert_eq!(list.len(), 4);
    assert_eq!(viewport_count(&linked, &recs, "Sheet1", &vps), 4);
    assert_eq!(sheet_viewport_handle(&linked, "Sheet1"), 100);
    assert_eq!(sheet_viewport_handle(&linked, "Nope"), 0);
    assert!(viewport_list(&ls, &recs, "Model", &vps).is_empty());
    assert_eq!(viewport_count(&ls, &recs, "Model", &vps), 0);
    assert!(str_le("VP 10", "VP 3") && !str_le("b", "a") && str_le("", "a"));
}

#[test]
fn custom_blocks_exclude_spaces_and_layout_blocks() {
    let recs = vec![
        BlockRecordInfo { handle: 1, name: "*Model_Space".to_string(), layout: 10 },
        BlockRecordInfo { handle: 2, name: "*paper_space0".to_string(), layout: 0 },
        BlockRecordInfo { handle: 3, name: "Door".to_string(), layout: 0 },
        BlockRecordInfo { handle: 4, name: "LayoutBlk".to_string(), layout: 12 },
        BlockRecordInfo { handle: 5, name: "*MODEL_SPACE".to_string(), layout: 0 },
        BlockRecordInfo { handle: 6, name: "Window".to_string(), layout: 0 },
        BlockRecordInfo { handle: 7, name: "*Model_Space2".to_string(), layout: 0 },
    ];
    assert_eq!(
        custom_block_names(&recs),
        vec!["Door".to_string(), "Window".to_string(), "*Model_Space2".to_string()]
    );
}

#[test]
fn first_user_viewport_skips_sheet_and_off() {
    let recs = vec![r(2, "*Paper_Space")];
    let ls = vec![l("Model", 0, 0), l("Sheet1", 0, 1)];
    let mut vps = vec![
        vp(100, 1, 2, true),
        vp(101, 2, 2, false),
        vp(102, 3, 2, false),
        vp(103, 4, 9, false),
    ];
    vps[1].on = false;
    assert_eq!(first_user_viewport(&ls, &recs, "Sheet1", &vps), Some(102));
    vps[2].on = false;
    assert_eq!(first_user_viewport(&ls, &recs, "Sheet1", &vps), None);
}

#[test]
fn model_space_block_from_layout_or_name() {
    let recs = vec![r(1, "*MODEL_SPACE"), r(2, "*Paper_Space")];
    assert_eq!(model_space_block_handle(&vec![l("Model", 0, 0), l("Sheet1", 0, 1)], &recs), 1);
    assert_eq!(model_space_block_handle(&vec![l("Model", 0, 0), l("Model", 9, 0)], &recs), 9);
    assert_eq!(model_space_block_handle(&vec![], &vec![r(2, "*Paper_Space")]), 0);
}

#[test]
fn layout_entities_from_block_record() {
    let recs = vec![r(1, "*Model_Space"), r(2, "*Paper_Space")];
    let ls = vec![l("Model", 0, 0), l("Sheet1", 0, 1)];
    let brs = vec![
        BlockRecordRec { handle: 1, entity_handles: vec![10, 11] },
        BlockRecordRec { handle: 2, entity_handles: vec![20] },
    ];
    assert_eq!(current_layout_entity_handles(&ls, &recs, &brs, "Model"), vec![10, 11]);
    assert_eq!(current_layout_entity_handles(&ls, &recs, &brs, "Sheet1"), vec![20]);
    assert!(current_layout_entity_handles(&ls, &recs, &brs, "Nope").is_empty());
}

#[test]
fn first_viewport_and_render_modes() {
    let recs = vec![r(2, "*Paper_Space")];
    let ls = vec![l("Model", 0, 0), l("Sheet1", 0, 1)];
    let mut vps = vec![vp(100, 1, 2, true), vp(101, 2, 2, false), vp(102, 3, 2, false)];
    vps[1].on = false;
    assert_eq!(first_viewport_handle(&ls, &recs, "Sheet1", &vps), Some(101));
    assert_eq!(first_viewport_handle(&ls, &recs, "Model", &vps), None);
    assert_eq!(first_viewport_handle(&ls, &recs, "Sheet1", &vec![vp(100, 1, 2, true)]), None);

    assert_eq!(active_viewport_render_mode(None, &vps), None);
    assert_eq!(active_viewport_render_mode(Some(999), &vps), None);
    assert_eq!(active_viewport_render_mode(Some(102), &vps), Some(RenderMode::Wireframe2D));
    assert!(set_active_viewport_render_mode(Some(102), &mut vps, RenderMode::HiddenLine));
    assert_eq!(active_viewport_render_mode(Some(102), &vps), Some(RenderMode::HiddenLine));
    assert!(!set_active_viewport_render_mode(None, &mut vps, RenderMode::HiddenLine));
    assert!(!set_active_viewport_render_mode(Some(5), &mut vps, RenderMode::HiddenLine));
    assert_eq!(vps[1].render_mode, RenderMode::Wireframe2D);
}

#[test]
fn new_block_name_checks() {
    let recs = vec![r(1, "*Model_Space"), r(5, "DOOR")];
    assert_eq!(new_block_name("  Window ", &recs, 2), Ok("Window".to_string()));
    assert_eq!(new_block_name("   ", &recs, 2), Err("Block name cannot be empty.".to_string()));
    assert_eq!(new_block_name(" *U2", &recs, 2), Err("Block name cannot start with '*'.".to_string()));
    assert_eq!(new_block_name("door ", &recs, 2), Err("Block \"door\" already exists.".to_string()));
    assert_eq!(
        new_block_name("Window", &recs, 0),
        Err("No valid entities selected for block creation.".to_string())
    );
}

#[test]
fn table_keys_fold_case_and_first_match_wins() {
    let keys = table_keys(&vec!["Walls", "doors", "WALLS"]);
    assert_eq!(keys[0], keys[2]);
    assert_ne!(keys[0], keys[1]);
    assert_eq!(keys[0], "WALLS");
    let ks: Vec<String> = ["A", "B", "A"].iter().map(|s| s.to_string()).collect();
    assert_eq!(first_key_match(&ks, &"A".to_string()), Some(0));
    assert_eq!(first_key_match(&ks, &"B".to_string()), Some(1));
    assert_eq!(first_key_match(&ks, &"a".to_string()), None);
}

#[test]
fn content_viewport_rules() {
    assert!(!is_content_viewport(&vp(1, 1, 2, false)));
    assert!(is_content_viewport(&vp(1, 2, 2, true)));
    assert!(is_content_viewport(&vp(1, 0, 2, false)));
    assert!(!is_content_viewport(&vp(1, -1, 2, true)));
    assert!(!is_content_viewport_in_layout(&vp(1, 5, 3, false), 2, 0));
    assert!(!is_content_viewport_in_layout(&vp(7, 5, 2, false), 2, 7));
    assert!(is_content_viewport_in_layout(&vp(8, 1, 2, true), 2, 7));
}

#[test]
fn selected_viewport_detected() {
    let vps = vec![vp(100, 1, 2, true), vp(101, 2, 2, false)];
    let mut sel = cadscene::selection::Selection::new();
    sel.select_entity(5, false);
    assert!(!has_selected_viewport(&sel, &vps));
    sel.select_entity(101, false);
    assert!(has_selected_viewport(&sel, &vps));
}

#[test]
fn viewport_list_carries_frozen_layers() {
    let recs = vec![r(2, "*Paper_Space")];
    let ls = vec![l("Model", 0, 0), l("Sheet1", 0, 1)];
    let mut vps = vec![vp(100, 1, 2, true), vp(101, 3, 2, false), vp(102, 2, 2, false)];
    vps[1].frozen_layers = vec![40, 41];
    let list = viewport_list(&ls, &recs, "Sheet1", &vps);
    assert_eq!(list, vec![(102, "VP 1".to_string(), vec![]), (101, "VP 2".to_string(), vec![40, 41])]);
}
