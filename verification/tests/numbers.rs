//! Numbers as text, in both directions.

use memory_monitor::number::{
    chars_of, is_white_space, parse_address, parse_radix, parse_u32, parse_usize, trim,
    NumberError,
};
use memory_monitor::text::{format_decimal, format_hex, format_signed};

#[test]
fn arguments_are_hex_or_decimal() {
    assert_eq!(parse_u32("0x2003F6C0"), Ok(0x2003_F6C0));
    assert_eq!(parse_u32("0X140"), Ok(320));
    assert_eq!(parse_u32("320"), Ok(320));
    assert_eq!(parse_u32("  0xff\t\n"), Ok(255));
    assert_eq!(parse_u32("+7"), Ok(7));
    assert_eq!(parse_u32("0x+7"), Ok(7));
    assert_eq!(parse_u32("4294967295"), Ok(u32::MAX));
    assert_eq!(parse_u32("0xFFFFFFFF"), Ok(u32::MAX));
    assert_eq!(parse_u32("000000000000000012"), Ok(12));
    assert_eq!(parse_usize("0x140"), Ok(0x140));
}

#[test]
fn arguments_that_are_no_numbers_say_why() {
    let invalid = "invalid digit found in string";
    let large = "number too large to fit in target type";
    let empty = "cannot parse integer from empty string";
    let cases = [
        ("", "", empty),
        ("   ", "", empty),
        ("0x", "0x", empty),
        ("0xG", "0xG", invalid),
        ("12a", "12a", invalid),
        ("-1", "-1", invalid),
        ("+", "+", invalid),
        ("++1", "++1", invalid),
        ("0 x1", "0 x1", invalid),
        ("é", "é", invalid),
        ("4294967296", "4294967296", large),
        (" 0x100000000 ", "0x100000000", large),
        ("99999999999x", "99999999999x", large),
        ("x99999999999", "x99999999999", invalid),
    ];
    for (input, shown, why) in cases {
        let text = format!("invalid number `{shown}`: {why}");
        assert_eq!(parse_u32(input), Err(text.clone()));
        assert_eq!(parse_usize(input), Err(text));
    }
}

#[test]
fn prompt_addresses_are_hex() {
    assert_eq!(parse_address("20006000"), Ok(0x2000_6000));
    assert_eq!(parse_address("0x20006000"), Ok(0x2000_6000));
    assert_eq!(parse_address("0Xabc"), Ok(0xABC));
    assert_eq!(parse_address(" 10 "), Ok(16));
    assert_eq!(parse_address(""), Err(NumberError::Empty));
    assert_eq!(parse_address("0x"), Err(NumberError::Empty));
    assert_eq!(parse_address("xyz"), Err(NumberError::InvalidDigit));
    assert_eq!(parse_address("123456789"), Err(NumberError::TooLarge));
}

#[test]
fn numbers_are_read_as_the_standard_library_reads_them() {
    let inputs = [
        "", "0", "+", "-", "+0", "-0", "7F", "7f", "zz", "Zz", "102", "4294967295", "4294967296",
        "+4294967295", "ffffffff", "100000000", "1z141z4", "1z141z5", "00000000000001", "1 ", "٣",
        "99999999999999999999", "1111111111111111111111111111111", "fffffffffg",
    ];
    for radix in [2u32, 8, 10, 16, 36] {
        for input in inputs {
            let mine = parse_radix(input, radix);
            match u32::from_str_radix(input, radix) {
                Ok(v) => assert_eq!(mine, Ok(v), "{input} {radix}"),
                Err(e) => match mine {
                    Ok(_) => panic!("{input} {radix}"),
                    Err(k) => assert_eq!(k.message(), e.to_string(), "{input} {radix}"),
                },
            }
        }
    }
}

#[test]
fn white_space_is_the_unicode_property() {
    for u in 0..=0x10FFFFu32 {
        if let Some(c) = char::from_u32(u) {
            assert_eq!(is_white_space(c), c.is_whitespace(), "{u:#x}");
        }
    }
}

#[test]
fn trimming_is_what_the_standard_library_does() {
    for s in ["", " ", "a", " a", "a ", "\u{3000}a b\u{85}", "\t\n x\u{2003}", "  é  "] {
        assert_eq!(trim(s), s.trim());
        assert_eq!(trim(trim(s)), s.trim());
        assert_eq!(chars_of(s), s.chars().collect::<Vec<char>>());
    }
}

#[test]
fn numbers_are_written() {
    assert_eq!(format_hex(0, 1), "0");
    assert_eq!(format_hex(0, 0), "0");
    assert_eq!(format_hex(0x1A, 8), "0000001A");
    assert_eq!(format_hex(0x1234_5678_9ABC_DEF0, 2), "123456789ABCDEF0");
    assert_eq!(format_hex(u64::MAX, 16), "FFFFFFFFFFFFFFFF");
    assert_eq!(format_decimal(0), "0");
    assert_eq!(format_decimal(1_234_567_890), "1234567890");
    assert_eq!(format_decimal(u128::MAX), u128::MAX.to_string());
    assert_eq!(format_signed(0), "0");
    assert_eq!(format_signed(-273), "-273");
    assert_eq!(format_signed(i64::MIN), i64::MIN.to_string());
    assert_eq!(format_signed(i64::MAX), i64::MAX.to_string());
}

#[test]
fn numbers_survive_a_round_trip() {
    for v in [0u32, 1, 9, 10, 15, 16, 255, 0x2003_F6C0, u32::MAX - 1, u32::MAX] {
        assert_eq!(parse_u32(&format_decimal(v as u128)), Ok(v));
        for width in [0usize, 1, 8, 12] {
            let h = format_hex(v as u64, width);
            assert_eq!(parse_u32(&format!("0x{h}")), Ok(v));
            assert_eq!(parse_u32(&format!("0X{h}")), Ok(v));
            assert_eq!(parse_u32(&format!("0x{}", h.to_lowercase())), Ok(v));
            assert_eq!(parse_address(&h), Ok(v));
            assert_eq!(parse_address(&format!(" 0x{}\n", h.to_lowercase())), Ok(v));
        }
    }
}
