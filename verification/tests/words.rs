//! Words and names as they are shown.

use memory_monitor::app::Endian;
use memory_monitor::text::short_name;
use memory_monitor::word::format_word;

#[test]
fn words_have_their_byte_order() {
    let b = [0x12u8, 0x34, 0x56, 0x78, 0x9A, 0xBC, 0xDE, 0xF0];
    assert_eq!(format_word(&b[..1], 1, Endian::Little), "12");
    assert_eq!(format_word(&b[..1], 1, Endian::Big), "12");
    assert_eq!(format_word(&b[..2], 2, Endian::Little), "3412");
    assert_eq!(format_word(&b[..2], 2, Endian::Big), "1234");
    assert_eq!(format_word(&b[..4], 4, Endian::Little), "78563412");
    assert_eq!(format_word(&b[..4], 4, Endian::Big), "12345678");
    assert_eq!(format_word(&b, 8, Endian::Little), "F0DEBC9A78563412");
    assert_eq!(format_word(&b, 8, Endian::Big), "123456789ABCDEF0");
}

#[test]
fn byte_orders_mirror_each_other() {
    let b = [1u8, 0, 0xFF, 0x80];
    let mut r = b;
    r.reverse();
    assert_eq!(format_word(&b, 4, Endian::Little), format_word(&r, 4, Endian::Big));
}

#[test]
fn a_word_cut_off_keeps_its_width() {
    let b = [0x01u8, 0x02, 0x03];
    assert_eq!(format_word(&b, 4, Endian::Little), "00030201");
    assert_eq!(format_word(&b, 4, Endian::Big), "00010203");
    assert_eq!(format_word(&b[..1], 2, Endian::Little), "0001");
}

#[test]
fn other_sizes_are_shown_byte_by_byte() {
    assert_eq!(format_word(&[0x01, 0xAB, 0x00], 3, Endian::Little), "01AB00");
    assert_eq!(format_word(&[0x01, 0xAB, 0x00], 3, Endian::Big), "01AB00");
    assert_eq!(format_word(&[], 5, Endian::Big), "");
}

#[test]
fn short_names_are_shown_whole() {
    assert_eq!(short_name("main"), "main");
    assert_eq!(short_name(""), "");
    let forty = "a".repeat(40);
    assert_eq!(short_name(&forty), forty);
}

#[test]
fn long_names_are_cut() {
    let long = "abcdefghij".repeat(5);
    assert_eq!(short_name(&long), format!("{}…", &long[..39]));
    assert_eq!(short_name(&"b".repeat(41)), format!("{}…", "b".repeat(39)));
    // Bytes count, not characters.
    let wide = "é".repeat(21);
    assert_eq!(short_name(&wide), format!("{}…", "é".repeat(19)));
    let twenty = "é".repeat(20);
    assert_eq!(short_name(&twenty), twenty);
    // A character that does not fit whole is left out.
    let mixed = format!("{}€ and more", "c".repeat(37));
    assert_eq!(short_name(&mixed), format!("{}…", "c".repeat(37)));
}
