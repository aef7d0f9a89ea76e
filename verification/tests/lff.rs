use cadscene::lff::{parse_font, parse_lff, BlockKey, LffFile, Span};

const FONT: &str = "# Format: LibreCAD Font 1\n\
# Name: Test Font\n\
# LetterSpacing: 3\n\
# WordSpacing: wide\n\
# LineSpacingFactor: 1.5e0\n\
\n\
[0041] A\n\
0,0;3,9;6,0\n\
1.5,3;4.5,3\n\
\n\
[0042] B\n\
C0041\n\
0,0;0,9,A0.5\n\
\n\
[00c9] \u{c9}\n\
C0041\n\
C0301\n\
\n\
[0301] acute\n\
2,10;4,12\n\
\n\
[0043] C\n\
x,1;2,2\n\
5,5\n\
0,0;1,1\n\
";

fn text(f: &LffFile, sp: Span) -> String {
    f.text[sp.0..sp.1].iter().collect()
}

#[test]
fn headers_keep_valid_numbers_only() {
    let f = parse_lff(FONT);
    assert_eq!(text(&f, f.name.unwrap()), "Test Font");
    assert_eq!(text(&f, f.letter_spacing.unwrap()), "3");
    assert!(f.word_spacing.is_none());
    assert_eq!(text(&f, f.line_spacing.unwrap()), "1.5e0");
}

#[test]
fn blocks_strokes_and_refs() {
    let f = parse_lff(FONT);
    let keys: Vec<BlockKey> = f.blocks.iter().map(|b| b.key).collect();
    assert_eq!(keys.len(), 5);
    assert_eq!(keys[0], BlockKey::Glyph('A'));
    assert_eq!(keys[1], BlockKey::Glyph('B'));
    assert_eq!(keys[2], BlockKey::Glyph('\u{c9}'));
    match keys[3] {
        BlockKey::Shape(sp) => assert_eq!(text(&f, sp), "acute"),
        _ => panic!("shape expected"),
    }
    // A: two strokes of 3 and 2 vertices
    let a = f.blocks[0];
    assert_eq!(a.strokes.1 - a.strokes.0, 2);
    let s0 = f.strokes[a.strokes.0];
    assert_eq!(s0.1 - s0.0, 3);
    let v = f.vertices[s0.0 + 1];
    assert_eq!(text(&f, v.x), "3");
    assert_eq!(text(&f, v.y), "9");
    // B: one ref and one stroke whose second vertex carries a bulge
    let b = f.blocks[1];
    assert_eq!(&f.refs[b.refs.0..b.refs.1], &['A']);
    let sb = f.strokes[b.strokes.0];
    let vb = f.vertices[sb.0 + 1];
    assert_eq!(text(&f, vb.bulge.unwrap()), "0.5");
    // C: the line with `x` is dropped, the single-vertex line too
    let c = f.blocks[4];
    assert_eq!(c.strokes.1 - c.strokes.0, 1);
}

#[test]
fn glyph_refs_resolve_and_shapes_by_name() {
    let font = parse_font(FONT);
    let a = font.glyph('A').unwrap();
    assert_eq!(a.strokes.len(), 2);
    let b = font.glyph('B').unwrap();
    assert_eq!(b.strokes.len(), 3);
    assert!(b.refs.is_empty());
    // É includes A (a glyph) but U+0301 is only a shape, so that reference stays open
    let e = font.glyph('\u{c9}').unwrap();
    assert_eq!(e.strokes.len(), 2);
    assert_eq!(e.refs, vec!['\u{301}']);
    assert!(font.glyph('Z').is_none());
    let acute = font.shape("Acute").unwrap();
    assert_eq!(acute.name, "ACUTE".chars().collect::<Vec<char>>());
    assert_eq!(acute.strokes.len(), 1);
    assert!(font.shape("grave").is_none());
}

#[test]
fn later_block_replaces_earlier() {
    let src = "[0041] A\n0,0;1,1\n[0041] A\n0,0;2,2\n2,2;3,3\n";
    let font = parse_font(src);
    assert_eq!(font.glyphs.len(), 1);
    assert_eq!(font.glyph('A').unwrap().strokes.len(), 2);
}

#[test]
fn number_grammar() {
    let ok = ["1", "1.", ".5", "-2.5", "+3", "1e5", "1E-5", "2.5e+3", "inf", "-Infinity", "NaN"];
    for n in ok {
        let src = format!("[0041] A\n{n},0;1,1\n");
        let f = parse_lff(&src);
        assert_eq!(f.strokes.len(), 1, "{n} should be accepted");
        assert!(n.parse::<f32>().is_ok());
    }
    let bad = [".", "e5", "1e", "1.2.3", "0x10", "1_0", "--1", "in"];
    for n in bad {
        let src = format!("[0041] A\n{n},0;1,1\n");
        let f = parse_lff(&src);
        assert_eq!(f.strokes.len(), 0, "{n} should be refused");
        assert!(n.parse::<f32>().is_err());
    }
}

#[test]
fn block_headers_and_lines_outside_blocks() {
    // strokes before any block and after a header without `]` are ignored
    let src = "0,0;1,1\n[0041 A\n0,0;1,1\n[+41] A\n0,0;1,1\n[d800] x\n0,0;1,1\n";
    let f = parse_lff(src);
    assert_eq!(f.blocks.len(), 1);
    assert_eq!(f.blocks[0].key, BlockKey::Glyph('A'));
    assert_eq!(f.strokes.len(), 1);
}
