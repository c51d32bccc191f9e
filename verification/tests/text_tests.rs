use big_image_viewer::text::{
    parse_canonical_pair, parse_canonical_u32, parse_u32_arg, position_arg_parse, replace_all,
    u32_to_string,
};

#[test]
fn numbers_render_in_plain_decimal() {
    assert_eq!(u32_to_string(0), "0");
    assert_eq!(u32_to_string(7), "7");
    assert_eq!(u32_to_string(10), "10");
    assert_eq!(u32_to_string(1234567890), "1234567890");
    assert_eq!(u32_to_string(u32::MAX), "4294967295");
}

#[test]
fn decimal_parsing_accepts_exactly_what_rendering_writes() {
    assert_eq!(parse_canonical_u32("0"), Some(0));
    assert_eq!(parse_canonical_u32("41"), Some(41));
    assert_eq!(parse_canonical_u32("4294967295"), Some(u32::MAX));
    assert_eq!(parse_canonical_u32("4294967296"), None);
    assert_eq!(parse_canonical_u32(""), None);
    assert_eq!(parse_canonical_u32("007"), None);
    assert_eq!(parse_canonical_u32("12a"), None);
    assert_eq!(parse_canonical_u32("-3"), None);
}

#[test]
fn round_trip_through_text() {
    let values: Vec<u32> = vec![0, 1, 9, 10, 99, 100, 65535, 1 << 31, u32::MAX];
    for v in values {
        assert_eq!(parse_canonical_u32(u32_to_string(v).as_str()), Some(v));
    }
}

#[test]
fn numerals_parse_like_the_standard_u32_parser() {
    assert_eq!(parse_u32_arg("0"), Some(0));
    assert_eq!(parse_u32_arg("007"), Some(7));
    assert_eq!(parse_u32_arg("+42"), Some(42));
    assert_eq!(parse_u32_arg("4294967295"), Some(u32::MAX));
    assert_eq!(parse_u32_arg("4294967296"), None);
    assert_eq!(parse_u32_arg("00000000042"), Some(42));
    assert_eq!(parse_u32_arg(""), None);
    assert_eq!(parse_u32_arg("+"), None);
    assert_eq!(parse_u32_arg("++3"), None);
    assert_eq!(parse_u32_arg("-3"), None);
    assert_eq!(parse_u32_arg("1a"), None);
}

#[test]
fn positions_parse_as_two_numbers_around_an_x() {
    assert_eq!(position_arg_parse("3x17"), Some((3, 17)));
    assert_eq!(position_arg_parse("0x0"), Some((0, 0)));
    // As the standard parser does, a leading + and leading zeros pass.
    assert_eq!(position_arg_parse("03x4"), Some((3, 4)));
    assert_eq!(position_arg_parse("+7x8"), Some((7, 8)));
    assert_eq!(position_arg_parse("3x017"), Some((3, 17)));
    assert_eq!(position_arg_parse("12"), None);
    assert_eq!(position_arg_parse("x3"), None);
    assert_eq!(position_arg_parse("3x"), None);
    assert_eq!(position_arg_parse("3x4x5"), None);
    assert_eq!(position_arg_parse("axb"), None);
    assert_eq!(position_arg_parse("+x3"), None);
}

#[test]
fn tile_name_positions_accept_only_canonical_decimals() {
    assert_eq!(parse_canonical_pair("3x17"), Some((3, 17)));
    assert_eq!(parse_canonical_pair("03x4"), None);
    assert_eq!(parse_canonical_pair("+7x8"), None);
}

#[test]
fn replacement_walks_left_to_right_without_overlap() {
    assert_eq!(replace_all("abcabc", "b", "XY"), "aXYcaXYc");
    assert_eq!(replace_all("aaa", "aa", "b"), "ba");
    assert_eq!(replace_all("hello", "zz", "y"), "hello");
    assert_eq!(replace_all("%L%%L%", "%L%", "4"), "44");
    assert_eq!(replace_all("abc", "", "x"), "abc");
}
