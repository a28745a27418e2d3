use bios_anim::parse_bios_string;
use bios_anim::render::Glyph;
use bios_anim::render::GlyphEntry;
use bios_anim::render::GlyphTable;
use bios_anim::render::RenderConfig;
use bios_anim::BiOSToken;
use bios_anim::Frame;
use bios_anim::Rgba;

const ESC: char = '\u{a7}';

fn cfg4() -> RenderConfig {
    RenderConfig {
        width: 4,
        height: 4,
        padding_x: 0,
        padding_y: 0,
        line_height: 1,
        descent_off: 0,
    }
}

fn table_a() -> GlyphTable {
    GlyphTable {
        entries: vec![GlyphEntry {
            ch: 'A',
            glyph: Glyph {
                width: 1,
                height: 1,
                offset_x: 0,
                offset_y: -1,
                advance: 1,
                coverage: vec![255],
            },
        }],
    }
}

#[test]
fn pause_step_emits_identical_frames() {
    let input = format!("{e}p:5{e}", e = ESC);
    let tokens = parse_bios_string(&input).unwrap();
    assert_eq!(tokens, vec![BiOSToken::Pause(5)]);
    let mut frame = Frame::new(cfg4(), table_a(), tokens);
    let emitted = frame.render_next_token();
    assert_eq!(emitted.len(), 5);
    for buf in &emitted {
        assert_eq!(buf.pixels, emitted[0].pixels);
    }
    assert_eq!(frame.frame_index, 5);
    assert_eq!(frame.token_index, 1);
}

#[test]
fn pause_of_zero_is_a_silent_step() {
    let mut frame = Frame::new(cfg4(), table_a(), vec![BiOSToken::Pause(0)]);
    let emitted = frame.render_next_token();
    assert_eq!(emitted.len(), 0);
    assert_eq!(frame.frame_index, 0);
    assert_eq!(frame.token_index, 1);
}

#[test]
fn visible_tokens_emit_one_frame_each() {
    let mut frame = Frame::new(cfg4(), table_a(), vec![BiOSToken::Char('A')]);
    let emitted = frame.render_next_token();
    assert_eq!(emitted.len(), 1);
    assert_eq!(frame.frame_index, 1);
    assert_eq!(frame.token_index, 1);
    let white = Rgba { r: 255, g: 255, b: 255, a: 255 };
    assert_eq!(emitted[0].pixels[3 * 4], white);
}

#[test]
fn color_token_emits_one_frame() {
    let tokens = vec![BiOSToken::ColorStart(Rgba { r: 255, g: 0, b: 0, a: 255 })];
    let mut frame = Frame::new(cfg4(), table_a(), tokens);
    let emitted = frame.render_next_token();
    assert_eq!(emitted.len(), 1);
    assert_eq!(frame.frame_index, 1);
    assert_eq!(frame.token_index, 1);
    assert_eq!(frame.current_color, Rgba { r: 255, g: 0, b: 0, a: 255 });
}

#[test]
fn stepping_past_the_end_does_nothing() {
    let mut frame = Frame::new(cfg4(), table_a(), vec![BiOSToken::Char('A')]);
    let _ = frame.render_next_token();
    let after_end = frame.render_next_token();
    assert_eq!(after_end.len(), 0);
    assert_eq!(frame.frame_index, 1);
    assert_eq!(frame.token_index, 1);
}

#[test]
fn driving_loop_consumes_every_token_once() {
    let tokens = parse_bios_string("ab\ncd").unwrap();
    assert_eq!(tokens.len(), 5);
    let mut frame = Frame::new(cfg4(), table_a(), tokens);
    let frames = frame.render_tokens();
    assert_eq!(frame.token_index, 5);
    assert_eq!(frames.len(), 5);
    assert_eq!(frame.frame_index, 5);
}

#[test]
fn driving_loop_counts_pause_frames() {
    let input = format!("a{e}p:3{e}b", e = ESC);
    let tokens = parse_bios_string(&input).unwrap();
    assert_eq!(tokens.len(), 3);
    let mut frame = Frame::new(cfg4(), table_a(), tokens);
    let frames = frame.render_tokens();
    assert_eq!(frame.token_index, 3);
    // one frame for 'a', three for the pause, one for 'b'
    assert_eq!(frames.len(), 5);
    assert_eq!(frame.frame_index, 5);
    // the pause frames repeat the frame before them
    assert_eq!(frames[1].pixels, frames[0].pixels);
    assert_eq!(frames[2].pixels, frames[0].pixels);
    assert_eq!(frames[3].pixels, frames[0].pixels);
}
