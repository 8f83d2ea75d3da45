use wl_harmonograph::color::{
    colors_from_env, env_readable, parse_hex_color, read_color, Color, Reading, FULL,
};

fn rgb(r: u32, g: u32, b: u32) -> Color {
    Color {
        r: r * FULL / 255,
        g: g * FULL / 255,
        b: b * FULL / 255,
    }
}

fn milli(r: u32, g: u32, b: u32) -> Color {
    Color {
        r: r * FULL / 1000,
        g: g * FULL / 1000,
        b: b * FULL / 1000,
    }
}

fn default_fg() -> Vec<Color> {
    vec![
        milli(984, 286, 204),
        milli(596, 592, 102),
        milli(988, 694, 349),
        milli(514, 647, 596),
        milli(827, 525, 608),
        milli(557, 753, 486),
        milli(894, 827, 529),
    ]
}

#[test]
fn parses_six_digits() {
    assert_eq!(
        parse_hex_color("fb4934"),
        Some(Color {
            r: 50_200,
            g: 14_600,
            b: 10_400
        })
    );
    assert_eq!(parse_hex_color("000000"), Some(rgb(0, 0, 0)));
    assert_eq!(parse_hex_color("ffffff"), Some(rgb(255, 255, 255)));
}

#[test]
fn case_and_decoration_make_no_difference() {
    let plain = parse_hex_color("b8bb26");
    assert_eq!(plain, Some(rgb(0xb8, 0xbb, 0x26)));
    assert_eq!(parse_hex_color("#b8bb26"), plain);
    assert_eq!(parse_hex_color("##b8bb26"), plain);
    assert_eq!(parse_hex_color(" \t#B8Bb26\u{3000}\n"), plain);
    assert_eq!(parse_hex_color("\u{85}\u{a0}b8bb26\u{2028}"), plain);
}

#[test]
fn rejects_what_is_not_a_color() {
    for text in [
        "", "#", "fff", "#fff", "fb49345", "gb4934", "fbg934", "fb493g", "# fb4934", "fb4934#",
        "0xfb49", "-1-1-1", "++ffff", "+-ffff", "f ffff",
    ] {
        assert_eq!(parse_hex_color(text), None, "{:?}", text);
    }
}

#[test]
fn a_sign_may_stand_before_a_digit() {
    assert_eq!(parse_hex_color("+f+0+a"), Some(rgb(15, 0, 10)));
    assert_eq!(parse_hex_color("1+ffff"), None);
}

#[test]
fn channels_agree_with_the_standard_library() {
    for a in 0u8..128 {
        for b in 0u8..128 {
            let pair = String::from_utf8(vec![a, b]).unwrap();
            let text = format!("00{}00", pair);
            let expected = u8::from_str_radix(&pair, 16).ok();
            assert_eq!(
                parse_hex_color(&text),
                expected.map(|g| rgb(0, g as u32, 0)),
                "{:?}",
                pair
            );
        }
    }
}

#[test]
fn white_space_agrees_with_the_standard_library() {
    for c in '\0'..=char::MAX {
        let text = format!("{}fb4934{}", c, c);
        assert_eq!(parse_hex_color(&text).is_some(), c.is_whitespace(), "{:?}", c);
    }
}

#[test]
fn characters_across_a_cut_are_told_apart() {
    // The first two bytes are one character, or the first cut falls inside one.
    assert_eq!(read_color("\u{e9}0000"), Reading::NotAColor);
    assert_eq!(read_color("0\u{e9}000"), Reading::Uncuttable);
    assert_eq!(read_color("\u{20ac}000"), Reading::Uncuttable);
    assert_eq!(read_color("\u{1f600}00"), Reading::Uncuttable);
    // The second cut is not reached where the first channel is wrong.
    assert_eq!(read_color("zz0\u{e9}0"), Reading::NotAColor);
    assert_eq!(read_color("000\u{e9}0"), Reading::Uncuttable);
    assert_eq!(read_color("00\u{1f600}"), Reading::Uncuttable);
    // The last channel ends with the text.
    assert_eq!(read_color("0000\u{e9}"), Reading::NotAColor);
    assert_eq!(read_color("00\u{e9}00"), Reading::NotAColor);
    assert_eq!(read_color("#000000"), Reading::Color(rgb(0, 0, 0)));
}

#[test]
fn settings_of_the_environment() {
    let (fg, bg) = colors_from_env(Some("#fb4934,#b8bb26,#fe8019"), Some("#1d2021"));
    assert_eq!(
        fg,
        vec![
            rgb(0xfb, 0x49, 0x34),
            rgb(0xb8, 0xbb, 0x26),
            rgb(0xfe, 0x80, 0x19)
        ]
    );
    assert_eq!(bg, rgb(0x1d, 0x20, 0x21));
}

#[test]
fn defaults_where_nothing_is_set() {
    let (fg, bg) = colors_from_env(None, None);
    assert_eq!(fg, default_fg());
    assert_eq!(bg, milli(114, 122, 137));
}

#[test]
fn defaults_where_nothing_is_a_color() {
    for list in ["", ",", "red,green", "#fff"] {
        let (fg, bg) = colors_from_env(Some(list), Some(list));
        assert_eq!(fg, default_fg(), "{:?}", list);
        assert_eq!(bg, milli(114, 122, 137), "{:?}", list);
    }
}

#[test]
fn what_is_no_color_is_left_out() {
    let (fg, _) = colors_from_env(Some(" #000000 ,,red, ffffff"), None);
    assert_eq!(fg, vec![rgb(0, 0, 0), rgb(255, 255, 255)]);
}

#[test]
fn unreadable_settings_are_told_apart() {
    assert!(env_readable(None, None));
    assert!(env_readable(Some("red,\u{e9}"), Some("#1d2021")));
    assert!(!env_readable(Some("#000000,0\u{e9}000"), None));
    assert!(!env_readable(None, Some("0\u{e9}000")));
}

#[test]
fn both_units_are_exact() {
    // The floating-point values of the two units are those of the exact channel.
    for n in 0..=255u32 {
        let c = parse_hex_color(&format!("{:02x}0000", n)).unwrap();
        assert_eq!(c.r as f64 / FULL as f64, n as f64 / 255.0);
    }
    let (fg, bg) = colors_from_env(None, None);
    assert_eq!(fg[0].r as f64 / FULL as f64, 0.984);
    assert_eq!(fg[3].g as f64 / FULL as f64, 0.647);
    assert_eq!(bg.b as f64 / FULL as f64, 0.137);
}

#[test]
fn no_channel_exceeds_full_intensity() {
    for list in [None, Some("ffffff,000000,+f+f+f")] {
        let (fg, bg) = colors_from_env(list, list);
        assert!(!fg.is_empty());
        for c in fg.iter().chain([bg].iter()) {
            assert!(c.r <= FULL && c.g <= FULL && c.b <= FULL);
        }
    }
}

#[test]
fn lists_join_at_a_comma() {
    let both = colors_from_env(Some("#000001,x,#000002,,#000003"), None).0;
    let mut apart = colors_from_env(Some("#000001,x"), None).0;
    apart.extend(colors_from_env(Some("#000002,,#000003"), None).0);
    assert_eq!(both, apart);
    assert_eq!(both.len(), 3);
}
