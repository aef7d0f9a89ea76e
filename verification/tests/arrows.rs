use cadscene::arrows::{arrow_block_key, arrow_style_for_block, arrow_style_from_block_name, ArrowStyle};
use cadscene::paper::BlockRecordInfo;

#[test]
fn missing_name_is_closed_filled() {
    assert_eq!(arrow_style_from_block_name(None), ArrowStyle::Triangle { filled: true, small: false });
    assert_eq!(arrow_style_from_block_name(Some("")), ArrowStyle::Triangle { filled: true, small: false });
    assert_eq!(arrow_style_from_block_name(Some("  ")), ArrowStyle::Triangle { filled: true, small: false });
}

#[test]
fn standard_arrow_names() {
    assert_eq!(arrow_style_from_block_name(Some("_Open")), ArrowStyle::Open { half_angle_tenths: 95 });
    assert_eq!(arrow_style_from_block_name(Some("_OPEN30")), ArrowStyle::Open { half_angle_tenths: 150 });
    assert_eq!(arrow_style_from_block_name(Some("_Open90")), ArrowStyle::Open { half_angle_tenths: 450 });
    assert_eq!(arrow_style_from_block_name(Some("_ClosedBlank")), ArrowStyle::Triangle { filled: false, small: false });
    assert_eq!(arrow_style_from_block_name(Some("_Closed")), ArrowStyle::Triangle { filled: false, small: false });
    assert_eq!(arrow_style_from_block_name(Some("_Small")), ArrowStyle::Triangle { filled: true, small: true });
    assert_eq!(arrow_style_from_block_name(Some("  _dotsmall ")), ArrowStyle::Dot { filled: true, small: true });
    assert_eq!(arrow_style_from_block_name(Some("_DotBlank")), ArrowStyle::Dot { filled: false, small: false });
    assert_eq!(arrow_style_from_block_name(Some("_DotSmallBlank")), ArrowStyle::Dot { filled: false, small: true });
    assert_eq!(arrow_style_from_block_name(Some("_Dot")), ArrowStyle::Dot { filled: true, small: false });
    assert_eq!(arrow_style_from_block_name(Some("_Origin2")), ArrowStyle::Origin);
    assert_eq!(arrow_style_from_block_name(Some("_OriginIndicator")), ArrowStyle::Origin);
    assert_eq!(arrow_style_from_block_name(Some("_ArchTick")), ArrowStyle::Tick);
    assert_eq!(arrow_style_from_block_name(Some("_Oblique")), ArrowStyle::Tick);
    assert_eq!(arrow_style_from_block_name(Some("__BoxBlank")), ArrowStyle::Square { filled: false });
    assert_eq!(arrow_style_from_block_name(Some("_BoxFilled")), ArrowStyle::Square { filled: true });
    assert_eq!(arrow_style_from_block_name(Some("_DatumTriangle")), ArrowStyle::Datum { filled: false });
    assert_eq!(arrow_style_from_block_name(Some("_DatumFilled")), ArrowStyle::Datum { filled: true });
    assert_eq!(arrow_style_from_block_name(Some("_None")), ArrowStyle::NoArrow);
}

#[test]
fn unknown_arrow_name_is_closed_filled() {
    assert_eq!(arrow_style_from_block_name(Some("_Integral")), ArrowStyle::Triangle { filled: true, small: false });
    assert_eq!(arrow_style_from_block_name(Some("MyArrow")), ArrowStyle::Triangle { filled: true, small: false });
}

#[test]
fn arrow_key_trims_strips_and_upper_cases() {
    let k: String = arrow_block_key(" __open30 ").into_iter().collect();
    assert_eq!(k, "OPEN30");
    let k: String = arrow_block_key("_ x").into_iter().collect();
    assert_eq!(k, " X");
}

#[test]
fn arrow_case_and_prefix_do_not_matter() {
    assert_eq!(arrow_style_from_block_name(Some("_open30")), arrow_style_from_block_name(Some("OPEN30")));
    assert_eq!(arrow_style_from_block_name(Some("_boxblank")), arrow_style_from_block_name(Some("BoxBlank")));
}

#[test]
fn arrow_block_lookup_by_handle() {
    let recs = vec![
        BlockRecordInfo { handle: 5, name: "_DOT".to_string(), layout: 0 },
        BlockRecordInfo { handle: 7, name: "_Oblique".to_string(), layout: 0 },
        BlockRecordInfo { handle: 7, name: "_None".to_string(), layout: 0 },
    ];
    assert_eq!(arrow_style_for_block(&recs, 7), ArrowStyle::Tick);
    assert_eq!(arrow_style_for_block(&recs, 5), ArrowStyle::Dot { filled: true, small: false });
    assert_eq!(arrow_style_for_block(&recs, 0), ArrowStyle::Triangle { filled: true, small: false });
    assert_eq!(arrow_style_for_block(&recs, 9), ArrowStyle::Triangle { filled: true, small: false });
}
