use blush::util::color::{hex_code, parse_hex, quantize_color, Color, ColorDB, NamedColor};
use blush::util::vptree::{MetricPoint, VPTree};
use palette::{FromColor, Lch, Srgb};

fn color(luminance: u32, chroma: u32, hue: u32) -> Color {
    Color { luminance, chroma, hue }
}

fn palette() -> ColorDB {
    VPTree::build(vec![
        NamedColor::new(color(500_000, 200_000, 0), "red".to_owned()),
        NamedColor::new(color(500_000, 200_000, 330_000), "green".to_owned()),
        NamedColor::new(color(500_000, 200_000, 660_000), "blue".to_owned()),
        NamedColor::new(color(0, 0, 0), "black".to_owned()),
        NamedColor::new(color(1_000_000, 0, 0), "white".to_owned()),
    ])
    .unwrap()
}

#[test]
fn distance_adds_the_three_gaps() {
    let a = color(100, 200, 300);
    let b = color(150, 180, 1_300);
    assert_eq!(Color::dist(&a, &b), 50 + 20 + 1_000);
    assert_eq!(Color::dist(&b, &a), 1_070);
    assert_eq!(Color::dist(&a, &a), 0);
}

#[test]
fn hue_takes_the_shorter_way_round() {
    let a = color(0, 0, 100_000);
    let b = color(0, 0, 900_000);
    assert_eq!(Color::dist(&a, &b), 200_000);
    let c = color(0, 0, 600_000);
    assert_eq!(Color::dist(&a, &c), 500_000);
    let d = color(0, 0, 600_001);
    assert_eq!(Color::dist(&a, &d), 499_999);
}

#[test]
fn hues_a_full_turn_apart_are_the_same() {
    let a = color(7, 7, 250_000);
    let b = color(7, 7, 1_250_000);
    assert_eq!(Color::dist(&a, &b), 0);
    assert_eq!(Color::dist(&color(0, 0, 1_000_000), &color(0, 0, 0)), 0);
}

#[test]
fn distance_of_extreme_colors_fits() {
    let a = color(0, 0, 0);
    let b = color(u32::MAX, u32::MAX, 500_000);
    assert_eq!(Color::dist(&a, &b), 2 * (u32::MAX as u64) + 500_000);
}

#[test]
fn triangle_inequality_on_a_grid_of_hues() {
    let hues = [0u32, 1, 250_000, 499_999, 500_000, 500_001, 750_000, 999_999];
    for x in hues {
        for y in hues {
            for z in hues {
                let (a, b, c) = (color(1, 2, x), color(5, 1, y), color(3, 9, z));
                assert!(Color::dist(&a, &c) <= Color::dist(&a, &b) + Color::dist(&b, &c));
                assert_eq!(Color::dist(&a, &b), Color::dist(&b, &a));
            }
        }
    }
}

#[test]
fn named_colors_are_as_far_apart_as_their_colors() {
    let a = NamedColor::new(color(10, 20, 30), "a".to_owned());
    let b = NamedColor::new(color(40, 20, 10), "b".to_owned());
    assert_eq!(NamedColor::dist(&a, &b), 50);
    assert_eq!(a.color(), color(10, 20, 30));
    assert_eq!(b.name(), "b");
}

#[test]
fn named_colors_are_equal_by_name() {
    let a = NamedColor::new(color(10, 20, 30), "mist".to_owned());
    let b = NamedColor::new(color(99, 99, 99), "mist".to_owned());
    let c = NamedColor::new(color(10, 20, 30), "fog".to_owned());
    assert!(a == b);
    assert!(a != c);
}

#[test]
fn quantize_finds_the_nearest_name() {
    let db = palette();
    assert_eq!(quantize_color(&db, color(480_000, 210_000, 10_000)).name(), "red");
    assert_eq!(quantize_color(&db, color(480_000, 210_000, 990_000)).name(), "red");
    assert_eq!(quantize_color(&db, color(500_000, 200_000, 400_000)).name(), "green");
    assert_eq!(quantize_color(&db, color(510_000, 190_000, 700_000)).name(), "blue");
    assert_eq!(quantize_color(&db, color(20_000, 10_000, 500_000)).name(), "black");
    assert_eq!(quantize_color(&db, color(990_000, 0, 0)).name(), "white");
}

#[test]
fn parse_hex_reads_a_color_code() {
    assert_eq!(parse_hex("#0e5d83"), Some(0x0e5d83));
    assert_eq!(parse_hex("#fcfafa"), Some(0xfcfafa));
    assert_eq!(parse_hex("#FFFFFF"), Some(0xffffff));
    assert_eq!(parse_hex("#0"), Some(0));
    assert_eq!(parse_hex("#ffffffff"), Some(u32::MAX));
    assert_eq!(parse_hex("#000000000012"), Some(0x12));
}

#[test]
fn parse_hex_skips_one_byte_and_a_plus_sign() {
    assert_eq!(parse_hex("x1f"), Some(0x1f));
    assert_eq!(parse_hex("#+1f"), Some(0x1f));
    assert_eq!(parse_hex("++1"), Some(1));
}

#[test]
fn parse_hex_refuses_what_is_no_color_code() {
    assert_eq!(parse_hex(""), None);
    assert_eq!(parse_hex("#"), None);
    assert_eq!(parse_hex("#+"), None);
    assert_eq!(parse_hex("#++1"), None);
    assert_eq!(parse_hex("#-1"), None);
    assert_eq!(parse_hex("#12g"), None);
    assert_eq!(parse_hex("# 12"), None);
    assert_eq!(parse_hex("#100000000"), None);
    assert_eq!(parse_hex("#fffffffff"), None);
    assert_eq!(parse_hex("\u{e9}12"), None);
}

#[test]
fn parse_hex_agrees_with_the_standard_parser() {
    for text in ["#0e5d83", "#+7", "#zz", "#", "#123456789", "#AbCdEf", "#00000000000000001"] {
        assert_eq!(parse_hex(text), u32::from_str_radix(&text[1..], 16).ok());
    }
}

#[test]
fn hex_code_writes_six_digits() {
    assert_eq!(hex_code(0x0e, 0x5d, 0x83), "#0e5d83");
    assert_eq!(hex_code(0, 0, 0), "#000000");
    assert_eq!(hex_code(255, 255, 255), "#ffffff");
    assert_eq!(hex_code(0xab, 0x0c, 0xd0), "#ab0cd0");
}

#[test]
fn hex_code_and_parse_hex_undo_each_other() {
    for (r, g, b) in [(0u8, 0u8, 0u8), (1, 2, 3), (14, 93, 131), (255, 0, 128)] {
        let value = (r as u32) * 256 * 256 + (g as u32) * 256 + (b as u32);
        assert_eq!(parse_hex(&hex_code(r, g, b)), Some(value));
    }
}

#[test]
fn test_inverse_color() {
    let hex = "#0e5d83";
    let srgb: Srgb<f32> = Srgb::from_format(Srgb::from(parse_hex(hex).unwrap()));
    let (l, c, h) = Lch::from_color(srgb).into_components();
    let (luminance, chroma, hue) = (l / 100.0, c / 100.0, h.to_positive_degrees() / 360.0);
    let lch = Lch::from_components((luminance * 100.0, chroma * 100.0, hue * 360.0));
    let back: Srgb<u8> = Srgb::from_color(lch).into_format();
    let (r, g, b) = back.into_components();
    assert_eq!(hex, hex_code(r, g, b));
}
