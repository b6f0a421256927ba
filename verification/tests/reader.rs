//! The synthetic region.

use memory_monitor::reader::{MemReader, MockReader};

#[test]
fn base_bytes_are_stable() {
    let expected = [
        (0u32, 0xAFu8),
        (1, 0xC1),
        (2, 0xCE),
        (3, 0xED),
        (0x2000_0000, 0x91),
        (0xFFFF_FFFF, 0xC0),
    ];
    let untouched = MockReader::new(0, 0);
    for (addr, byte) in expected {
        assert_eq!(MockReader::base_byte(addr), byte);
        assert_eq!(untouched.byte_at(addr), byte);
    }
}

#[test]
fn random_numbers_follow_the_base_address() {
    let mut a = MockReader::new(0x2003_F6C0, 64);
    let mut b = MockReader::new(0x2003_F6C0, 1);
    for x in [
        0xC0B1_F0CE_9343_86AEu64,
        0xAEC3_1584_F1C6_2571,
        0x93E7_402D_2602_2711,
        0x4860_189A_F2D8_72F0,
    ] {
        assert_eq!(a.next_rand(), x);
        assert_eq!(b.next_rand(), x);
    }
}

#[test]
fn reads_mutate_words_of_the_window() {
    let mut r = MockReader::new(0x2000_0000, 16);
    assert_eq!(r.describe(), "MOCK procedural memory, 0 mutated words [no hardware]");
    let mut buf = [0u8; 16];
    assert_eq!(r.read(0x2000_0000, &mut buf), Ok(()));
    assert_eq!(
        buf,
        [
            0x91, 0x3B, 0x3F, 0x14, 0xB8, 0xCF, 0x66, 0xDB, 0x86, 0x51, 0x9B, 0x2B, 0x35, 0xCC,
            0xEC, 0x71,
        ]
    );
    assert_eq!(r.describe(), "MOCK procedural memory, 1 mutated words [no hardware]");
    assert_eq!(r.read(0x2000_0000, &mut buf), Ok(()));
    assert_eq!(
        buf,
        [
            0x91, 0x3B, 0x3F, 0x14, 0x27, 0x18, 0x62, 0x9A, 0x36, 0xA6, 0x57, 0xAA, 0x87, 0x1E,
            0x65, 0xC6,
        ]
    );
    assert_eq!(r.describe(), "MOCK procedural memory, 3 mutated words [no hardware]");
    // Outside the window nothing changed.
    for addr in 0x2000_0010..0x2000_0100u32 {
        assert_eq!(r.byte_at(addr), MockReader::base_byte(addr));
    }
}

#[test]
fn a_window_may_go_round_the_end_of_memory() {
    let mut r = MockReader::new(0, 8);
    let mut buf = [0u8; 8];
    assert_eq!(r.read(0xFFFF_FFFD, &mut buf), Ok(()));
    assert_eq!(buf, [0xAB, 0xA2, 0x40, 0x85, 0xD4, 0x0D, 0xA1, 0xCA]);
    assert_eq!(r.byte_at(0xFFFF_FFFC), 0x9D);
}

#[test]
fn a_short_read_has_one_word() {
    let mut r = MockReader::new(5, 3);
    let mut buf = [0u8; 3];
    assert_eq!(r.read(6, &mut buf), Ok(()));
    assert_eq!(buf, [0x20, 0x60, 0x36]);
    assert_eq!(r.byte_at(4), 0xDC);
}

#[test]
fn an_empty_read_changes_nothing() {
    let mut r = MockReader::new(5, 3);
    let mut other = MockReader::new(5, 3);
    assert_eq!(r.read(0x1234, &mut []), Ok(()));
    assert_eq!(r.next_rand(), other.next_rand());
    assert_eq!(r.describe(), "MOCK procedural memory, 0 mutated words [no hardware]");
}

#[test]
fn a_read_writes_one_to_four_aligned_words_of_its_window() {
    let mut r = MockReader::new(0x2000_0000, 64);
    let mut before: Vec<u8> = (0..128u32).map(|i| r.byte_at(0x2000_0000 + i)).collect();
    for _ in 0..50 {
        let mut buf = [0u8; 64];
        assert_eq!(r.read(0x2000_0002, &mut buf), Ok(()));
        let after: Vec<u8> = (0..128u32).map(|i| r.byte_at(0x2000_0000 + i)).collect();
        let changed = (0..32).filter(|w| before[4 * w..4 * w + 4] != after[4 * w..4 * w + 4]);
        let changed: Vec<usize> = changed.collect();
        assert!(changed.len() <= 4);
        assert!(changed.iter().all(|w| *w < 16));
        assert_eq!(buf[..], after[2..66]);
        before = after;
    }
}
