use cadscene::fonts::{build_registry, font_aliases};

fn reg(fonts: &[(&str, &str)]) -> cadscene::fonts::FontRegistry {
    let v: Vec<(String, String)> = fonts.iter().map(|(a, b)| (a.to_string(), b.to_string())).collect();
    build_registry(&v)
}

#[test]
fn names_aliases_and_fallbacks() {
    let r = reg(&[
        ("standard", "Standard"),
        ("iso", "ISO Proportional"),
        ("unicode", "Unicode"),
        ("romans", "Roman Simplex"),
    ]);
    assert_eq!(r.get_font("Standard"), 0);
    assert_eq!(r.get_font("txt"), 0);
    assert_eq!(r.get_font("ISOCP"), 1);
    assert_eq!(r.get_font("  RomanS "), 3);
    assert_eq!(r.get_font("romans.shx"), 3);
    assert_eq!(r.get_font("Roman Simplex"), 3);
    assert_eq!(r.get_font("bigfont"), 2);
    // alias of a font that is not registered, and unknown names
    assert_eq!(r.get_font("gothice"), 0);
    assert_eq!(r.get_font("nope.ttf"), 0);
}

#[test]
fn fallback_order_without_standard() {
    let r = reg(&[("iso", "ISO"), ("unicode", "Unicode")]);
    assert_eq!(r.get_font("whatever"), 1);
    let r = reg(&[("iso", "ISO"), ("greekc", "Greek")]);
    assert_eq!(r.get_font("whatever"), 0);
    assert_eq!(r.get_font("GREEK"), 1);
}

#[test]
fn header_name_does_not_replace_a_stem() {
    // the second font's header names the first font's stem: the stem wins
    let r = reg(&[("alpha", "Alpha"), ("beta", "ALPHA")]);
    assert_eq!(r.get_font("alpha"), 0);
    assert_eq!(r.get_font("beta"), 1);
    assert_eq!(font_aliases().len(), 23);
}

#[test]
fn lookup_ignores_case_space_and_extension() {
    let r = reg(&[("standard", "Standard"), ("romans", "Roman Simplex"), ("iso", "ISO")]);
    for name in ["romans", " RomanS\t", "ROMANS.SHX", "romans.shx"] {
        assert_eq!(r.get_font(name), r.get_font("ROMANS"));
    }
    assert_eq!(r.get_font("no_such_font"), r.get_font("STANDARD"));
    assert_eq!(r.get_font("no_such.font"), 0);
}
