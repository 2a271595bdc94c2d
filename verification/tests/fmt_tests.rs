use haltui::fmt::{apply_int, int_conv, pad, parse_format, Piece};

#[test]
fn int_formats_match_printf() {
    assert_eq!(apply_int("%+d", 42), "+42");
    assert_eq!(apply_int("%08x", 255), "000000ff");
    assert_eq!(apply_int("%-6d|", 42), "42    |");
    assert_eq!(apply_int("100%%", 0), "100%");
}

#[test]
fn int_conversions() {
    assert_eq!(apply_int("%d", -7), "-7");
    assert_eq!(apply_int("%u", -1), "18446744073709551615");
    assert_eq!(apply_int("%#x", 255), "0xff");
    assert_eq!(apply_int("%#X", 255), "0XFF");
    assert_eq!(apply_int("%#o", 8), "010");
    assert_eq!(apply_int("%c", 65), "A");
    assert_eq!(apply_int("% d", 5), " 5");
    assert_eq!(apply_int("%.3d", -5), "-005");
    assert_eq!(apply_int("%05d", -42), "-0042");
    assert_eq!(apply_int("%5d", 42), "   42");
    assert_eq!(apply_int("%d", i64::MIN), "-9223372036854775808");
    assert_eq!(apply_int("x=%", 1), "x=");
    assert_eq!(apply_int("%5", 1), "");
    assert_eq!(apply_int("plain", 3), "plain");
}

#[test]
fn pieces_of_a_format() {
    let ps = parse_format("a%-08.3fb").unwrap();
    assert_eq!(ps.len(), 3);
    match ps[1] {
        Piece::Conv(c) => {
            assert!(c.minus && c.zero && !c.plus);
            assert_eq!(c.width, Some(8));
            assert_eq!(c.prec, Some(3));
            assert_eq!(c.conv, 'f');
        }
        Piece::Lit(_) => panic!("expected a conversion"),
    }
    assert!(parse_format("%99999999999999999999999d").is_none());
}

#[test]
fn conversion_parts() {
    assert_eq!(int_conv('d', 3, Some(4), true, false, false), "+0003");
    assert_eq!(int_conv('x', -1, None, false, false, false), "ffffffffffffffff");
    assert_eq!(pad("-3", Some(5), false, true), "-0003");
    assert_eq!(pad("ab", Some(4), true, false), "ab  ");
    assert_eq!(pad("ab", Some(4), false, false), "  ab");
    assert_eq!(pad("abcdef", Some(4), false, false), "abcdef");
}
