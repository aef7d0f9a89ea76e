use cadscene::ownership::{entity_block_map, BlockRecordRec};
use cadscene::layers::{
    aci_of, by_block_inherit, entity_visible, find_layer, pattern_source, layer_color, linetype_name_for, resolved_color, resolved_lineweight, toggle_layer_lock,
    toggle_layer_visibility, ByBlockInherit, DrawnEntity, LayerInfo, LinetypeInfo,
};
use cadscene::props::{ColorValue, LineWeightValue};

fn layers() -> Vec<LayerInfo> {
    vec![
        LayerInfo { handle: 1, name: "0".to_string(), line_type: "Continuous".to_string(), color: ColorValue::Index(7), line_weight: LineWeightValue::Default, off: false, frozen: false, locked: false },
        LayerInfo { handle: 2, name: "Hidden".to_string(), line_type: "HIDDEN2".to_string(), color: ColorValue::Index(3), line_weight: LineWeightValue::Default, off: false, frozen: false, locked: false },
        LayerInfo {
            handle: 3,
            name: "Walls".to_string(),
            line_type: "DASHED".to_string(),
            color: ColorValue::Rgb { r: 10, g: 20, b: 30 },
            line_weight: LineWeightValue::Value(50),
            off: true,
            frozen: false,
            locked: false,
        },
    ]
}

#[test]
fn bylayer_linetype_comes_from_layer() {
    let ls = layers();
    assert_eq!(linetype_name_for("ByLayer", "Walls", &ls), "DASHED");
    assert_eq!(linetype_name_for("BYLAYER", "hidden", &ls), "HIDDEN2");
    assert_eq!(linetype_name_for("", "walls", &ls), "DASHED");
    assert_eq!(linetype_name_for("bylayer", "Missing", &ls), "Continuous");
}

#[test]
fn own_linetype_is_kept() {
    let ls = layers();
    assert_eq!(linetype_name_for("CENTER", "Walls", &ls), "CENTER");
    assert_eq!(linetype_name_for("ByBlock", "Walls", &ls), "ByBlock");
}

#[test]
fn layer_lookup_ignores_case() {
    let ls = layers();
    assert_eq!(find_layer(&ls, "WALLS"), Some(2));
    assert_eq!(find_layer(&ls, "nope"), None);
    assert_eq!(layer_color("hidden", &ls), ColorValue::Index(3));
    assert_eq!(layer_color("Walls", &ls), ColorValue::Rgb { r: 10, g: 20, b: 30 });
    assert_eq!(layer_color("Nope", &ls), ColorValue::Index(7));
}

#[test]
fn toggle_layer_flags() {
    let mut ls = layers();
    toggle_layer_visibility(&mut ls, "walls");
    assert!(!ls[2].off);
    toggle_layer_visibility(&mut ls, "HIDDEN");
    assert!(ls[1].off);
    toggle_layer_visibility(&mut ls, "Hidden");
    assert!(!ls[1].off);
    toggle_layer_lock(&mut ls, "0");
    assert!(ls[0].locked);
    toggle_layer_visibility(&mut ls, "missing");
    assert!(!ls[0].off && !ls[1].off && !ls[2].off);
}

#[test]
fn bylayer_color_and_weight_resolve() {
    let ls = layers();
    assert_eq!(resolved_color(ColorValue::ByLayer, "hidden", &ls), ColorValue::Index(3));
    assert_eq!(resolved_color(ColorValue::ByLayer, "none", &ls), ColorValue::Index(7));
    assert_eq!(resolved_color(ColorValue::Index(1), "hidden", &ls), ColorValue::Index(1));
    assert_eq!(resolved_color(ColorValue::ByBlock, "hidden", &ls), ColorValue::ByBlock);
    assert_eq!(aci_of(ColorValue::Index(5)), 5);
    assert_eq!(aci_of(ColorValue::Rgb { r: 1, g: 2, b: 3 }), 0);
    assert_eq!(resolved_lineweight(LineWeightValue::ByLayer, "WALLS", &ls), LineWeightValue::Value(50));
    assert_eq!(resolved_lineweight(LineWeightValue::ByBlock, "Walls", &ls), LineWeightValue::Value(50));
    assert_eq!(resolved_lineweight(LineWeightValue::Default, "zz", &ls), LineWeightValue::Default);
    assert_eq!(resolved_lineweight(LineWeightValue::Value(13), "Walls", &ls), LineWeightValue::Value(13));
}

#[test]
fn by_block_parts_are_inherited() {
    assert_eq!(
        by_block_inherit(ColorValue::ByBlock, "BYBLOCK", LineWeightValue::ByBlock),
        ByBlockInherit { color: true, pattern: true, weight: true }
    );
    assert_eq!(
        by_block_inherit(ColorValue::ByLayer, "ByLayer", LineWeightValue::Default),
        ByBlockInherit { color: false, pattern: false, weight: false }
    );
}

#[test]
fn dash_pattern_source() {
    let ts = vec![
        LinetypeInfo { name: "Continuous".to_string(), n_elements: 0 },
        LinetypeInfo { name: "DASHED".to_string(), n_elements: 2 },
        LinetypeInfo { name: "Empty".to_string(), n_elements: 0 },
    ];
    assert_eq!(pattern_source("dashed", &ts), Some(1));
    assert_eq!(pattern_source("CONTINUOUS", &ts), None);
    assert_eq!(pattern_source("ByLayer", &ts), None);
    assert_eq!(pattern_source("BYBLOCK", &ts), None);
    assert_eq!(pattern_source("", &ts), None);
    assert_eq!(pattern_source("empty", &ts), None);
    assert_eq!(pattern_source("Hidden", &ts), None);
}

#[test]
fn entity_visibility_by_layer_and_viewport() {
    let mut ls = layers();
    ls[1].frozen = true;
    let brs = vec![BlockRecordRec { handle: 10, entity_handles: vec![100, 101, 102] }];
    let map = entity_block_map(&brs);
    let e = |h: u64, layer: &str| DrawnEntity {
        handle: h,
        owner: 10,
        layer: layer.to_string(),
        invisible: false,
        block_marker: false,
    };
    assert!(entity_visible(&e(100, "0"), &ls, None, &brs, &map, 10));
    // off layer, frozen layer
    assert!(!entity_visible(&e(101, "walls"), &ls, None, &brs, &map, 10));
    assert!(!entity_visible(&e(102, "HIDDEN"), &ls, None, &brs, &map, 10));
    // frozen in this viewport only
    assert!(!entity_visible(&e(100, "0"), &ls, Some(&vec![1]), &brs, &map, 10));
    assert!(entity_visible(&e(100, "0"), &ls, Some(&vec![]), &brs, &map, 10));
    // layer not in the table
    assert!(entity_visible(&e(100, "nope"), &ls, Some(&vec![1]), &brs, &map, 10));
    let mut inv = e(100, "0");
    inv.invisible = true;
    assert!(!entity_visible(&inv, &ls, None, &brs, &map, 10));
    let mut marker = e(100, "0");
    marker.block_marker = true;
    assert!(!entity_visible(&marker, &ls, None, &brs, &map, 10));
}
