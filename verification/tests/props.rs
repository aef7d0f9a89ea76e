use cadscene::props::{
    entity_property_value, first_of_kind, format_color, format_lineweight, handle_from_wire_name, qselect_properties,
    ColorValue, CommonProps, LineWeightValue, PropRow, PropValue,
};

#[test]
fn colors() {
    assert_eq!(format_color(ColorValue::ByLayer), "ByLayer");
    assert_eq!(format_color(ColorValue::ByBlock), "ByBlock");
    assert_eq!(format_color(ColorValue::NoColor), "None");
    assert_eq!(format_color(ColorValue::Index(7)), "7");
    assert_eq!(format_color(ColorValue::Index(255)), "255");
    assert_eq!(format_color(ColorValue::Rgb { r: 0, g: 128, b: 255 }), "0,128,255");
}

#[test]
fn lineweights_match_two_decimal_millimetres() {
    assert_eq!(format_lineweight(LineWeightValue::ByLayer), "ByLayer");
    assert_eq!(format_lineweight(LineWeightValue::ByBlock), "ByBlock");
    assert_eq!(format_lineweight(LineWeightValue::Default), "Default");
    assert_eq!(format_lineweight(LineWeightValue::Value(30)), "0.30mm");
    assert_eq!(format_lineweight(LineWeightValue::Value(211)), "2.11mm");
    for v in [-32768i16, -105, -5, 0, 5, 9, 13, 30, 100, 211, 999, 32767] {
        assert_eq!(
            format_lineweight(LineWeightValue::Value(v)),
            format!("{:.2}mm", v as f64 / 100.0)
        );
    }
}

#[test]
fn wire_names_are_decimal_handles() {
    assert_eq!(handle_from_wire_name("1234"), Some(1234));
    assert_eq!(handle_from_wire_name("+5"), Some(5));
    assert_eq!(handle_from_wire_name("007"), Some(7));
    assert_eq!(handle_from_wire_name("18446744073709551615"), Some(u64::MAX));
    for bad in ["", "+", "-5", "18446744073709551616", "12a", " 1", "1F"] {
        assert_eq!(handle_from_wire_name(bad), None, "{bad}");
        assert!(bad.parse::<u64>().is_err());
    }
}

fn common() -> CommonProps {
    CommonProps {
        layer: "Walls".to_string(),
        color: ColorValue::Index(3),
        linetype: "ByLayer".to_string(),
        lineweight: LineWeightValue::Value(30),
    }
}

fn rows() -> Vec<PropRow> {
    vec![
        PropRow { field: "radius".to_string(), label: "Radius".to_string(), value: PropValue::EditText("2.5".to_string()) },
        PropRow { field: "closed".to_string(), label: "Closed".to_string(), value: PropValue::BoolToggle { value: true } },
        PropRow { field: "fill".to_string(), label: "Fill".to_string(), value: PropValue::ColorChoice(ColorValue::ByBlock) },
        PropRow { field: "mix".to_string(), label: "Mixed".to_string(), value: PropValue::ColorVaries },
        PropRow { field: "radius".to_string(), label: "Radius 2".to_string(), value: PropValue::EditText("9".to_string()) },
    ]
}

#[test]
fn property_values_common_and_rows() {
    let c = common();
    let rs = rows();
    assert_eq!(entity_property_value(&c, Some(&rs), "layer"), Some("Walls".to_string()));
    assert_eq!(entity_property_value(&c, Some(&rs), "color"), Some("3".to_string()));
    assert_eq!(entity_property_value(&c, None, "linetype"), Some("ByLayer".to_string()));
    assert_eq!(entity_property_value(&c, None, "lineweight"), Some("0.30mm".to_string()));
    assert_eq!(entity_property_value(&c, Some(&rs), "radius"), Some("2.5".to_string()));
    assert_eq!(entity_property_value(&c, Some(&rs), "closed"), Some("true".to_string()));
    assert_eq!(entity_property_value(&c, Some(&rs), "fill"), Some("ByBlock".to_string()));
    assert_eq!(entity_property_value(&c, Some(&rs), "mix"), None);
    assert_eq!(entity_property_value(&c, Some(&rs), "nope"), None);
    assert_eq!(entity_property_value(&c, None, "radius"), None);
}

#[test]
fn qselect_offers_common_then_sample_rows() {
    let rs = rows();
    let p = qselect_properties(None);
    assert_eq!(
        p,
        vec![
            ("layer".to_string(), "Layer".to_string()),
            ("color".to_string(), "Color".to_string()),
            ("linetype".to_string(), "Linetype".to_string()),
            ("lineweight".to_string(), "Lineweight".to_string()),
        ]
    );
    let p = qselect_properties(Some(&rs));
    assert_eq!(p.len(), 9);
    assert_eq!(p[4], ("radius".to_string(), "Radius".to_string()));
    assert_eq!(p[8], ("radius".to_string(), "Radius 2".to_string()));
    let kinds: Vec<String> = ["Line", "Circle", "Circle"].iter().map(|s| s.to_string()).collect();
    assert_eq!(first_of_kind(&kinds, "Circle"), Some(1));
    assert_eq!(first_of_kind(&kinds, "Arc"), None);
}
