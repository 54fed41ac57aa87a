use image_to_pure_css::{
    decimal_digits, default_output_name, format_with_thousands, parse_args, parse_unsigned_bytes,
    ConvertImageOptions,
};

fn argv(args: &[&str]) -> Vec<String> {
    args.iter().map(|s| s.to_string()).collect()
}

#[test]
fn thousands_separators() {
    assert_eq!(format_with_thousands(0), "0");
    assert_eq!(format_with_thousands(7), "7");
    assert_eq!(format_with_thousands(999), "999");
    assert_eq!(format_with_thousands(1000), "1,000");
    assert_eq!(format_with_thousands(12345), "12,345");
    assert_eq!(format_with_thousands(123456), "123,456");
    assert_eq!(format_with_thousands(1234567), "1,234,567");
    assert_eq!(format_with_thousands(u64::MAX), "18,446,744,073,709,551,615");
}

#[test]
fn thousands_without_commas_is_decimal() {
    for n in [0u64, 5, 10, 999, 1000, 65536, 1_000_000, 987_654_321_012] {
        assert_eq!(format_with_thousands(n).replace(',', ""), n.to_string());
    }
}

#[test]
fn decimal_digits_match_to_string() {
    for n in [0u64, 9, 10, 42, 100, 4_294_967_296, u64::MAX] {
        assert_eq!(String::from_utf8(decimal_digits(n)).unwrap(), n.to_string());
    }
}

#[test]
fn unsigned_parsing() {
    assert_eq!(parse_unsigned_bytes(b"42", 0xffff_ffff), Some(42));
    assert_eq!(parse_unsigned_bytes(b"+42", 0xffff_ffff), Some(42));
    assert_eq!(parse_unsigned_bytes(b"007", 255), Some(7));
    assert_eq!(parse_unsigned_bytes(b"", 255), None);
    assert_eq!(parse_unsigned_bytes(b"+", 255), None);
    assert_eq!(parse_unsigned_bytes(b"-1", 255), None);
    assert_eq!(parse_unsigned_bytes(b"12a", 255), None);
    assert_eq!(parse_unsigned_bytes(b" 1", 255), None);
    assert_eq!(parse_unsigned_bytes(b"255", 255), Some(255));
    assert_eq!(parse_unsigned_bytes(b"256", 255), None);
    assert_eq!(parse_unsigned_bytes(b"4294967295", 0xffff_ffff), Some(4294967295));
    assert_eq!(parse_unsigned_bytes(b"4294967296", 0xffff_ffff), None);
    assert_eq!(parse_unsigned_bytes(b"99999999999x", 0xffff_ffff), None);
}

#[test]
fn unsigned_parsing_agrees_with_std() {
    for t in ["0", "+0", "18", "+255", "256", "-0", "", "+", "1_0", "٣", "00000000000000000001"] {
        assert_eq!(parse_unsigned_bytes(t.as_bytes(), 255), t.parse::<u8>().ok().map(u64::from));
        assert_eq!(
            parse_unsigned_bytes(t.as_bytes(), 0xffff_ffff),
            t.parse::<u32>().ok().map(u64::from)
        );
    }
}

#[test]
fn no_arguments_is_a_usage_error() {
    assert!(parse_args(&argv(&[])).is_none());
    assert!(parse_args(&argv(&["prog"])).is_none());
}

#[test]
fn defaults_when_only_input_given() {
    let a = parse_args(&argv(&["prog", "in.png"])).unwrap();
    assert_eq!(a.input, "in.png");
    assert_eq!(a.width, None);
    assert_eq!(a.tolerance, 0);
    assert_eq!(a.output, None);
}

#[test]
fn all_options() {
    let a = parse_args(&argv(&[
        "prog", "in.png", "--width", "120", "--tolerance", "8", "--output", "out.txt",
    ]))
    .unwrap();
    assert_eq!(a.input, "in.png");
    assert_eq!(a.width, Some(120));
    assert_eq!(a.tolerance, 8);
    assert_eq!(a.output.as_deref(), Some("out.txt"));
}

#[test]
fn bad_numbers_and_unknown_arguments() {
    let a = parse_args(&argv(&[
        "prog", "in.png", "--width", "12", "--bogus", "--width", "x", "--tolerance", "300",
    ]))
    .unwrap();
    assert_eq!(a.width, None);
    assert_eq!(a.tolerance, 0);
    let a = parse_args(&argv(&["prog", "in.png", "--width"])).unwrap();
    assert_eq!(a.width, None);
    let a = parse_args(&argv(&["prog", "in.png", "--tolerance", "5", "--output"])).unwrap();
    assert_eq!(a.tolerance, 5);
    assert_eq!(a.output, None);
}

#[test]
fn flag_values_are_not_read_as_flags() {
    let a = parse_args(&argv(&["prog", "in.png", "--output", "--width", "7"])).unwrap();
    assert_eq!(a.output.as_deref(), Some("--width"));
    assert_eq!(a.width, None);
}

#[test]
fn output_names() {
    assert_eq!(default_output_name("photo.png"), "photo.txt");
    assert_eq!(default_output_name("archive.tar.gz"), "archive.tar.txt");
    assert_eq!(default_output_name("noext"), "noext.txt");
    assert_eq!(default_output_name(".bashrc"), ".txt");
    assert_eq!(default_output_name(""), ".txt");
    assert_eq!(default_output_name("café.jpeg"), "café.txt");
}

#[test]
fn options_struct() {
    let o = ConvertImageOptions { width: Some(3), tolerance: 9 };
    assert_eq!(o.width, Some(3));
    assert_eq!(o.tolerance, 9);
}

#[test]
fn parsing_reads_back_decimal_digits() {
    for n in [0u64, 1, 9, 10, 255, 65535, 4_294_967_295] {
        assert_eq!(parse_unsigned_bytes(&decimal_digits(n), 0xffff_ffff), Some(n));
    }
    assert_eq!(parse_unsigned_bytes(&decimal_digits(256), 255), None);
}

#[test]
fn unsigned_parsing_up_to_u64() {
    assert_eq!(
        parse_unsigned_bytes(b"18446744073709551615", u64::MAX),
        Some(18446744073709551615)
    );
    assert_eq!(parse_unsigned_bytes(b"18446744073709551616", u64::MAX), None);
    assert_eq!(parse_unsigned_bytes(b"+99999999999999999999999", u64::MAX), None);
    assert_eq!(parse_unsigned_bytes(b"0", 0), Some(0));
    assert_eq!(parse_unsigned_bytes(b"1", 0), None);
}
