use bios_anim::parse_bios_string;
use bios_anim::parse_color;
use bios_anim::parse_str;
use bios_anim::parse_usize;
use bios_anim::BiOSToken;
use bios_anim::Rgba;
use bios_anim::ScanError;

const ESC: char = '\u{a7}';

fn rgba(r: u8, g: u8, b: u8, a: u8) -> Rgba {
    Rgba { r, g, b, a }
}

#[test]
fn scan_empty_input() {
    assert_eq!(parse_bios_string("").unwrap(), vec![]);
}

#[test]
fn scan_plain_text_and_newlines() {
    let toks = parse_bios_string("a\nb").unwrap();
    assert_eq!(
        toks,
        vec![
            BiOSToken::Char('a'),
            BiOSToken::Newline,
            BiOSToken::Char('b'),
        ]
    );
}

#[test]
fn scan_is_deterministic() {
    let input = format!("hi{e}c:red{e}\n{e}i:ok{e}{e}p:3{e}x", e = ESC);
    let first = parse_bios_string(&input).unwrap();
    let second = parse_bios_string(&input).unwrap();
    assert_eq!(first, second);
}

#[test]
fn scan_escape_at_end_is_literal() {
    let input = ESC.to_string();
    assert_eq!(parse_bios_string(&input).unwrap(), vec![BiOSToken::Char(ESC)]);
}

#[test]
fn scan_unrecognized_letter_keeps_escape_literal() {
    let input = format!("{}x", ESC);
    assert_eq!(
        parse_bios_string(&input).unwrap(),
        vec![BiOSToken::Char(ESC), BiOSToken::Char('x')]
    );
}

#[test]
fn scan_instant_round_trip() {
    let input = format!("{e}i:hello{e}", e = ESC);
    assert_eq!(
        parse_bios_string(&input).unwrap(),
        vec![BiOSToken::Instant("hello".to_string())]
    );
}

#[test]
fn scan_instant_body_is_not_rescanned() {
    let input = format!("{e}i:a{e}c:red{e}", e = ESC);
    assert_eq!(
        parse_bios_string(&input).unwrap(),
        vec![
            BiOSToken::Instant("a".to_string()),
            BiOSToken::Char('c'),
            BiOSToken::Char(':'),
            BiOSToken::Char('r'),
            BiOSToken::Char('e'),
            BiOSToken::Char('d'),
            BiOSToken::Char(ESC),
        ]
    );
}

#[test]
fn scan_unterminated_command_reads_to_end() {
    let input = format!("{}c:red", ESC);
    assert_eq!(
        parse_bios_string(&input).unwrap(),
        vec![BiOSToken::ColorStart(rgba(255, 0, 0, 255))]
    );
}

#[test]
fn scan_separator_is_consumed_blindly() {
    let input = format!("{e}pX5{e}", e = ESC);
    assert_eq!(parse_bios_string(&input).unwrap(), vec![BiOSToken::Pause(5)]);
}

#[test]
fn scan_pause_command() {
    let input = format!("{e}p:5{e}", e = ESC);
    assert_eq!(parse_bios_string(&input).unwrap(), vec![BiOSToken::Pause(5)]);
}

#[test]
fn scan_color_precedence() {
    let num3 = format!("{e}c:10,20,30{e}", e = ESC);
    assert_eq!(
        parse_bios_string(&num3).unwrap(),
        vec![BiOSToken::ColorStart(rgba(10, 20, 30, 255))]
    );
    let named = format!("{e}c:red{e}", e = ESC);
    assert_eq!(
        parse_bios_string(&named).unwrap(),
        vec![BiOSToken::ColorStart(rgba(255, 0, 0, 255))]
    );
    let num4 = format!("{e}c:10,20,30,40{e}", e = ESC);
    assert_eq!(
        parse_bios_string(&num4).unwrap(),
        vec![BiOSToken::ColorStart(rgba(10, 20, 30, 40))]
    );
}

#[test]
fn scan_malformed_color_component_count() {
    let input = format!("{e}c:1,2{e}", e = ESC);
    assert_eq!(
        parse_bios_string(&input),
        Err(ScanError::WrongColorComponentCount)
    );
}

#[test]
fn scan_malformed_pause_body() {
    let input = format!("{e}p:abc{e}", e = ESC);
    assert_eq!(parse_bios_string(&input), Err(ScanError::InvalidPauseCount));
}

#[test]
fn scan_empty_color_body_fails() {
    let input = format!("{e}c:{e}", e = ESC);
    assert_eq!(parse_bios_string(&input), Err(ScanError::InvalidColorName));
}

#[test]
fn scan_empty_pause_body_fails() {
    let input = format!("{e}p:{e}", e = ESC);
    assert_eq!(parse_bios_string(&input), Err(ScanError::InvalidPauseCount));
}

#[test]
fn parse_str_reads_until_terminator() {
    let input = format!("hello{}world", ESC);
    let (body, next) = parse_str(&input, 0);
    assert_eq!(body, "hello");
    assert_eq!(next, 6);
}

#[test]
fn parse_str_reads_to_end_without_terminator() {
    let (body, next) = parse_str("abc", 1);
    assert_eq!(body, "bc");
    assert_eq!(next, 3);
}

#[test]
fn parse_usize_values() {
    assert_eq!(parse_usize("5"), Ok(5));
    assert_eq!(parse_usize("007"), Ok(7));
    assert_eq!(parse_usize("0"), Ok(0));
    assert_eq!(parse_usize(""), Err(ScanError::InvalidPauseCount));
    assert_eq!(parse_usize("12a"), Err(ScanError::InvalidPauseCount));
    assert_eq!(
        parse_usize("99999999999999999999999999"),
        Err(ScanError::InvalidPauseCount)
    );
}

#[test]
fn parse_color_names() {
    assert_eq!(parse_color("reset"), Ok(rgba(255, 255, 255, 255)));
    assert_eq!(parse_color("red"), Ok(rgba(255, 0, 0, 255)));
    assert_eq!(parse_color("green"), Ok(rgba(0, 255, 0, 255)));
    assert_eq!(parse_color("blue"), Ok(rgba(0, 0, 255, 255)));
    assert_eq!(parse_color("purple"), Err(ScanError::InvalidColorName));
}

#[test]
fn parse_color_components() {
    assert_eq!(parse_color("0,0,0"), Ok(rgba(0, 0, 0, 255)));
    assert_eq!(parse_color("1,2,3,4"), Ok(rgba(1, 2, 3, 4)));
    assert_eq!(parse_color("1,2"), Err(ScanError::WrongColorComponentCount));
    assert_eq!(
        parse_color("1,2,3,4,5"),
        Err(ScanError::WrongColorComponentCount)
    );
    assert_eq!(parse_color("256,0,0"), Err(ScanError::InvalidColorComponent));
    assert_eq!(parse_color("1,,2"), Err(ScanError::InvalidColorComponent));
    assert_eq!(parse_color(",1,2"), Err(ScanError::InvalidColorComponent));
    assert_eq!(parse_color("1,x,2"), Err(ScanError::InvalidColorComponent));
}
