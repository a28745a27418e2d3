use bios_anim::render::compose_frame;
use bios_anim::render::Glyph;
use bios_anim::render::GlyphEntry;
use bios_anim::render::GlyphTable;
use bios_anim::render::RenderConfig;
use bios_anim::BiOSToken;
use bios_anim::Rgba;

fn rgba(r: u8, g: u8, b: u8, a: u8) -> Rgba {
    Rgba { r, g, b, a }
}

fn black() -> Rgba {
    rgba(0, 0, 0, 255)
}

fn cfg4() -> RenderConfig {
    RenderConfig {
        width: 4,
        height: 4,
        padding_x: 0,
        padding_y: 0,
        line_height: 1,
        descent_off: 0,
    }
}

fn dot_glyph(cov: u8) -> Glyph {
    Glyph {
        width: 1,
        height: 1,
        offset_x: 0,
        offset_y: -1,
        advance: 1,
        coverage: vec![cov],
    }
}

fn table_ab() -> GlyphTable {
    GlyphTable {
        entries: vec![
            GlyphEntry { ch: 'A', glyph: dot_glyph(255) },
            GlyphEntry { ch: 'B', glyph: dot_glyph(128) },
        ],
    }
}

#[test]
fn compositor_clears_to_black() {
    let tokens: Vec<BiOSToken> = vec![];
    let (buf, color) = compose_frame(&tokens, 0, &table_ab(), &cfg4());
    assert_eq!(buf.width, 4);
    assert_eq!(buf.height, 4);
    assert_eq!(buf.pixels, vec![black(); 16]);
    assert_eq!(color, rgba(255, 255, 255, 255));
}

#[test]
fn compositor_draws_single_glyph_bottom_anchored() {
    let tokens = vec![BiOSToken::Char('A')];
    let (buf, _) = compose_frame(&tokens, 1, &table_ab(), &cfg4());
    // base_y = 4; the glyph's single sample lands one pixel above it.
    let mut expected = vec![black(); 16];
    expected[3 * 4] = rgba(255, 255, 255, 255);
    assert_eq!(buf.pixels, expected);
}

#[test]
fn compositor_is_deterministic() {
    let tokens = vec![
        BiOSToken::Char('A'),
        BiOSToken::ColorStart(rgba(10, 20, 30, 255)),
        BiOSToken::Char('B'),
        BiOSToken::Newline,
        BiOSToken::Char('A'),
    ];
    let first = compose_frame(&tokens, 5, &table_ab(), &cfg4());
    let second = compose_frame(&tokens, 5, &table_ab(), &cfg4());
    assert_eq!(first.0.pixels, second.0.pixels);
    assert_eq!(first.1, second.1);
}

#[test]
fn compositor_shifts_lines_up_by_one_line_height() {
    let one_line = vec![BiOSToken::Char('A')];
    let two_lines = vec![BiOSToken::Char('A'), BiOSToken::Newline];
    let (before, _) = compose_frame(&one_line, 1, &table_ab(), &cfg4());
    let (after, _) = compose_frame(&two_lines, 2, &table_ab(), &cfg4());
    // Every pixel moved up by exactly line_height = 1.
    for y in 0..3 {
        for x in 0..4 {
            assert_eq!(after.pixels[y * 4 + x], before.pixels[(y + 1) * 4 + x]);
        }
    }
    // The completed new line at the bottom is empty.
    for x in 0..4 {
        assert_eq!(after.pixels[3 * 4 + x], black());
    }
}

#[test]
fn compositor_applies_active_color_and_coverage() {
    let tokens = vec![
        BiOSToken::ColorStart(rgba(100, 200, 40, 255)),
        BiOSToken::Char('A'),
        BiOSToken::Char('B'),
    ];
    let (buf, color) = compose_frame(&tokens, 3, &table_ab(), &cfg4());
    let mut expected = vec![black(); 16];
    // 'A' at full coverage takes the color as is; alpha is forced opaque.
    expected[3 * 4] = rgba(100, 200, 40, 255);
    // 'B' at coverage 128: each channel scaled by 128/255, truncated.
    expected[3 * 4 + 1] = rgba(
        (100 * 128 / 255) as u8,
        (200u32 * 128 / 255) as u8,
        (40 * 128 / 255) as u8,
        255,
    );
    assert_eq!(buf.pixels, expected);
    assert_eq!(color, rgba(100, 200, 40, 255));
}

#[test]
fn compositor_draws_instant_as_a_unit() {
    let tokens = vec![BiOSToken::Instant("AB".to_string())];
    let (buf, _) = compose_frame(&tokens, 1, &table_ab(), &cfg4());
    let mut expected = vec![black(); 16];
    expected[3 * 4] = rgba(255, 255, 255, 255);
    expected[3 * 4 + 1] = rgba(128, 128, 128, 255);
    assert_eq!(buf.pixels, expected);
}

#[test]
fn compositor_clips_glyphs_outside_the_canvas() {
    // Four completed lines push the first line's glyph above the top edge.
    let tokens = vec![
        BiOSToken::Char('A'),
        BiOSToken::Newline,
        BiOSToken::Newline,
        BiOSToken::Newline,
        BiOSToken::Newline,
    ];
    let (buf, _) = compose_frame(&tokens, 5, &table_ab(), &cfg4());
    // The glyph would land at row -1: silently clipped, canvas all black.
    assert_eq!(buf.pixels, vec![black(); 16]);
}

#[test]
fn compositor_ignores_tokens_past_the_prefix() {
    let tokens = vec![BiOSToken::Char('A'), BiOSToken::Char('B')];
    let (only_a, _) = compose_frame(&tokens, 1, &table_ab(), &cfg4());
    let mut expected = vec![black(); 16];
    expected[3 * 4] = rgba(255, 255, 255, 255);
    assert_eq!(only_a.pixels, expected);
}

#[test]
fn compositor_skips_characters_without_glyphs() {
    let tokens = vec![BiOSToken::Char('Z'), BiOSToken::Char('A')];
    let (buf, _) = compose_frame(&tokens, 2, &table_ab(), &cfg4());
    // 'Z' has no entry: nothing drawn, pen not advanced; 'A' starts at 0.
    let mut expected = vec![black(); 16];
    expected[3 * 4] = rgba(255, 255, 255, 255);
    assert_eq!(buf.pixels, expected);
}

#[test]
fn well_formed_checks() {
    assert!(cfg4().well_formed());
    assert!(table_ab().well_formed());
    let bad = Glyph {
        width: 2,
        height: 2,
        offset_x: 0,
        offset_y: 0,
        advance: 1,
        coverage: vec![0; 3],
    };
    assert!(!bad.well_formed());
    let bad_cfg = RenderConfig { width: 100000, ..cfg4() };
    assert!(!bad_cfg.well_formed());
}
