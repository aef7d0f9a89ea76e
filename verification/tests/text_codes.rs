use cadscene::text_codes::{text_ops, LineKind, TextOp};
use TextOp::{Blank, Close, Glyph, Open, Space};

#[test]
fn plain_text_is_glyphs_and_spaces() {
    assert_eq!(text_ops("A b"), vec![Glyph('A'), Space, Glyph('b')]);
    assert!(text_ops("").is_empty());
}

#[test]
fn percent_codes() {
    assert_eq!(
        text_ops("%%d%%P%%c%%%"),
        vec![Glyph('\u{b0}'), Glyph('\u{b1}'), Glyph('\u{2300}'), Glyph('%')]
    );
    // three digits give the character with that code; 032 is a space
    assert_eq!(text_ops("%%065%%032"), vec![Glyph('A'), Space]);
    // one or two digits only advance
    assert_eq!(text_ops("%%7x"), vec![Blank, Glyph('x')]);
    assert_eq!(text_ops("%%12x"), vec![Blank, Glyph('x')]);
    // %% before anything else is dropped; the next character is kept
    assert_eq!(text_ops("%%zq"), vec![Glyph('z'), Glyph('q')]);
    assert_eq!(text_ops("a%%"), vec![Glyph('a')]);
    // a single percent is a glyph
    assert_eq!(text_ops("5%"), vec![Glyph('5'), Glyph('%')]);
}

#[test]
fn underline_toggles_and_closes_at_end() {
    assert_eq!(
        text_ops("%%uab%%uc"),
        vec![
            Open(LineKind::Under),
            Glyph('a'),
            Glyph('b'),
            Close(LineKind::Under),
            Glyph('c')
        ]
    );
    assert_eq!(
        text_ops("%%oX"),
        vec![Open(LineKind::Over), Glyph('X'), Close(LineKind::Over)]
    );
}

#[test]
fn backslash_codes() {
    assert_eq!(
        text_ops("\\Lab\\L\\lc"),
        vec![Open(LineKind::Under), Glyph('a'), Glyph('b'), Close(LineKind::Under), Glyph('c')]
    );
    assert_eq!(text_ops("\\l\\ox"), vec![Glyph('x')]);
    // lines still open at the end close underline, overline, strike in order
    assert_eq!(
        text_ops("\\K\\O\\Ly"),
        vec![
            Open(LineKind::Strike),
            Open(LineKind::Over),
            Open(LineKind::Under),
            Glyph('y'),
            Close(LineKind::Under),
            Close(LineKind::Over),
            Close(LineKind::Strike)
        ]
    );
    // any other backslash is drawn
    assert_eq!(text_ops("\\P"), vec![Glyph('\\'), Glyph('P')]);
    assert_eq!(text_ops("\\"), vec![Glyph('\\')]);
}

#[test]
fn non_ascii_text_passes_through() {
    assert_eq!(text_ops("Aб"), vec![Glyph('A'), Glyph('б')]);
}
