use embedded_camera_calibration::float_bits::F32;
use embedded_camera_calibration::types::{parse_board_point_mm, Point2f};

fn coordinate(text: &str) -> Result<F32, String> {
    text.parse::<f32>()
        .map(|v| F32 { bits: v.to_bits() })
        .map_err(|e| e.to_string())
}

fn parse(s: &str) -> Result<Point2f, String> {
    parse_board_point_mm(s, coordinate)
}

fn number(v: F32) -> f32 {
    f32::from_bits(v.bits)
}

#[test]
fn parses_a_plain_pair() {
    let p = parse("211.32,32.64").unwrap();
    assert_eq!(number(p.x), 211.32);
    assert_eq!(number(p.y), 32.64);
}

#[test]
fn tolerates_surrounding_whitespace() {
    let p = parse(" 1 , 2 ").unwrap();
    assert_eq!(number(p.x), 1.0);
    assert_eq!(number(p.y), 2.0);
}

#[test]
fn parses_negative_values() {
    let p = parse("-1.5,-2.25").unwrap();
    assert_eq!(number(p.x), -1.5);
    assert_eq!(number(p.y), -2.25);
}

#[test]
fn rejects_missing_comma() {
    assert!(parse("12").is_err());
}

#[test]
fn rejects_non_numeric() {
    assert!(parse("a,b").is_err());
}

#[test]
fn rejects_extra_component() {
    // The half behind the first comma ("2,3") is not a valid number.
    assert!(parse("1,2,3").is_err());
}

#[test]
fn rejects_empty() {
    assert!(parse("").is_err());
}

#[test]
fn replies_name_the_text_and_the_cause() {
    assert_eq!(parse("12").unwrap_err(), "expected `x,y` (mm), got `12`");
    assert_eq!(parse("").unwrap_err(), "expected `x,y` (mm), got ``");
    assert_eq!(parse("a,2").unwrap_err(), "invalid x in `a,2`: invalid float literal");
    assert_eq!(parse("1,b").unwrap_err(), "invalid y in `1,b`: invalid float literal");
    assert_eq!(parse("a,b").unwrap_err(), "invalid x in `a,b`: invalid float literal");
    assert_eq!(
        parse("1,").unwrap_err(),
        "invalid y in `1,`: cannot parse float from empty string"
    );
}

#[test]
fn trims_all_white_space_around_halves_only() {
    let p = parse("\t1.25\u{a0},\u{2003}-7\n").unwrap();
    assert_eq!(number(p.x), 1.25);
    assert_eq!(number(p.y), -7.0);
    assert!(parse("1 2,3").is_err());
}

#[test]
fn hands_halves_to_the_parser_in_order() {
    let p = parse_board_point_mm("abc , d", |half: &str| {
        Ok(F32 { bits: half.len() as u32 })
    })
    .unwrap();
    assert_eq!(p, Point2f { x: F32 { bits: 3 }, y: F32 { bits: 1 } });
}

#[test]
fn white_space_is_that_of_unicode() {
    for c in (0..=0x10ffff_u32).filter_map(char::from_u32).filter(|&c| c != ',') {
        let u = c as u32;
        let space = (0x9..=0xd).contains(&u)
            || (0x2000..=0x200a).contains(&u)
            || [0x20, 0x85, 0xa0, 0x1680, 0x2028, 0x2029, 0x202f, 0x205f, 0x3000].contains(&u);
        assert_eq!(space, c.is_whitespace());
        let p = parse_board_point_mm(&format!("{c}x,y"), |half: &str| {
            Ok(F32 { bits: half.chars().count() as u32 })
        })
        .unwrap();
        assert_eq!(p.x.bits, if space { 1 } else { 2 });
        assert_eq!(p.y.bits, 1);
    }
}

#[test]
fn parsing_undoes_printing() {
    let values = [
        0.0f32,
        -0.0,
        211.32,
        -1.5,
        0.1,
        1.0e-45,
        f32::MIN_POSITIVE,
        f32::MAX,
        f32::MIN,
        f32::INFINITY,
        16_777_217.0,
    ];
    for x in values {
        for y in values {
            for text in [format!("{x},{y}"), format!("\t{x} ,\u{3000}{y}\n")] {
                let p = parse(&text).unwrap();
                assert_eq!(p.x.bits, x.to_bits());
                assert_eq!(p.y.bits, y.to_bits());
            }
        }
    }
}
