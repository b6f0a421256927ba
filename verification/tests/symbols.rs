//! Symbol tables, from the bytes of ELF files and from symbols given one by one.

use memory_monitor::elf::{ElfSymbol, SymbolClass};
use memory_monitor::symbols::SymbolTable;

/// A symbol for an ELF file: name, value, size and type.
type Entry<'a> = (&'a str, u32, u32, u8);

const OBJECT: u8 = 1;
const FUNC: u8 = 2;
const SECTION: u8 = 3;
const FILE: u8 = 4;

fn put16(out: &mut Vec<u8>, v: u16) {
    out.extend_from_slice(&v.to_le_bytes());
}

fn put32(out: &mut Vec<u8>, v: u32) {
    out.extend_from_slice(&v.to_le_bytes());
}

/// A 32-bit little-endian ARM executable that holds just a symbol table.
fn elf32(entries: &[Entry]) -> Vec<u8> {
    let mut strtab = vec![0u8];
    let mut symtab = vec![0u8; 16];
    for (name, value, size, kind) in entries {
        put32(&mut symtab, strtab.len() as u32);
        put32(&mut symtab, *value);
        put32(&mut symtab, *size);
        symtab.push(0x10 | kind);
        symtab.push(0);
        put16(&mut symtab, 0xFFF1);
        strtab.extend_from_slice(name.as_bytes());
        strtab.push(0);
    }
    let shstrtab = b"\0.symtab\0.strtab\0.shstrtab\0";
    let symtab_at = 52u32;
    let strtab_at = symtab_at + symtab.len() as u32;
    let shstrtab_at = strtab_at + strtab.len() as u32;
    let sections_at = shstrtab_at + shstrtab.len() as u32;

    let mut out = vec![0x7F, b'E', b'L', b'F', 1, 1, 1, 0, 0, 0, 0, 0, 0, 0, 0, 0];
    put16(&mut out, 2);
    put16(&mut out, 40);
    put32(&mut out, 1);
    put32(&mut out, 0);
    put32(&mut out, 0);
    put32(&mut out, sections_at);
    put32(&mut out, 0);
    put16(&mut out, 52);
    put16(&mut out, 32);
    put16(&mut out, 0);
    put16(&mut out, 40);
    put16(&mut out, 4);
    put16(&mut out, 3);
    out.extend_from_slice(&symtab);
    out.extend_from_slice(&strtab);
    out.extend_from_slice(shstrtab);
    let sections = [
        [0u32; 10],
        [1, 2, 0, 0, symtab_at, symtab.len() as u32, 2, 1, 4, 16],
        [9, 3, 0, 0, strtab_at, strtab.len() as u32, 0, 0, 1, 0],
        [17, 3, 0, 0, shstrtab_at, shstrtab.len() as u32, 0, 0, 1, 0],
    ];
    for section in sections {
        for word in section {
            put32(&mut out, word);
        }
    }
    out
}

fn data(name: &str, address: u64, size: u64) -> ElfSymbol {
    ElfSymbol { class: SymbolClass::Data, address, size, name: Some(name.to_string()) }
}

fn table(raw: Vec<ElfSymbol>) -> SymbolTable {
    SymbolTable::from_elf_symbols("firmware.elf", raw)
}

fn names(t: &SymbolTable, addr: u32, len: u32) -> Vec<String> {
    t.starting_in(addr, len).iter().map(|s| s.name.clone()).collect()
}

#[test]
fn a_file_gives_its_variables_and_functions() {
    let bytes = elf32(&[
        ("crt0.s", 0x100, 0, FILE),
        ("g_state", 0x2000_6000, 0x40, OBJECT),
        ("main", 0x0800_0100, 0x80, FUNC),
        ("text", 0x0800_0000, 0, SECTION),
        ("nowhere", 0, 4, OBJECT),
        ("", 0x2000_0000, 4, OBJECT),
        ("flag", 0x2000_6040, 1, OBJECT),
    ]);
    let t = match SymbolTable::load("firmware.elf", &bytes) {
        Ok(t) => t,
        Err(e) => panic!("{}", e.cause),
    };
    assert_eq!(t.path, "firmware.elf");
    assert_eq!(t.len(), 3);
    assert_eq!(t.resolve("g_state"), Some(0x2000_6000));
    assert_eq!(t.size_of("g_state"), Some(0x40));
    assert_eq!(t.resolve("main"), Some(0x0800_0100));
    assert_eq!(t.resolve("flag"), Some(0x2000_6040));
    assert_eq!(t.resolve("crt0.s"), None);
    assert_eq!(t.resolve("text"), None);
    assert_eq!(t.resolve("nowhere"), None);
    assert_eq!(t.resolve(""), None);
    assert_eq!(names(&t, 0, u32::MAX), ["main", "g_state", "flag"]);
}

#[test]
fn a_file_without_symbols_gives_an_empty_table() {
    let t = SymbolTable::load("empty.elf", &elf32(&[])).unwrap_or_else(|e| panic!("{}", e.cause));
    assert_eq!(t.len(), 0);
    assert!(t.containing(0x2000_0000).is_none());
    assert!(t.starting_in(0, u32::MAX).is_empty());
}

#[test]
fn what_is_no_elf_file_is_an_error() {
    for bytes in [&b""[..], &b"not an object file, but long enough to be looked at .........."[..]] {
        match SymbolTable::load("notes.txt", bytes) {
            Ok(_) => panic!("loaded"),
            Err(e) => {
                assert_eq!(e.path, "notes.txt");
                assert_eq!(e.context(), "parsing ELF notes.txt");
                assert!(!e.cause.is_empty());
            }
        }
    }
    // A header that promises more than there is.
    let mut bytes = elf32(&[("a", 4, 4, OBJECT)]);
    bytes.truncate(60);
    assert!(SymbolTable::load("cut.elf", &bytes).is_err());
}

#[test]
fn only_named_symbols_within_reach_are_kept() {
    let mut raw = vec![data("low", 1, 2), data("high", 0xFFFF_FFFF, 2)];
    raw.push(data("beyond", 0x1_0000_0000, 2));
    raw.push(data("zero", 0, 2));
    raw.push(data("", 8, 2));
    raw.push(ElfSymbol { class: SymbolClass::Data, address: 12, size: 2, name: None });
    for class in [
        SymbolClass::Unknown,
        SymbolClass::Section,
        SymbolClass::File,
        SymbolClass::Label,
        SymbolClass::Tls,
        SymbolClass::Other,
    ] {
        raw.push(ElfSymbol { class, address: 16, size: 2, name: Some("other".to_string()) });
    }
    raw.push(ElfSymbol {
        class: SymbolClass::Text,
        address: 20,
        size: 0x1_0000_0003,
        name: Some("code".to_string()),
    });
    let t = table(raw);
    assert_eq!(t.len(), 3);
    assert_eq!(t.resolve("low"), Some(1));
    assert_eq!(t.resolve("high"), Some(0xFFFF_FFFF));
    // Of a size the low 32 bits count.
    assert_eq!(t.size_of("code"), Some(3));
}

#[test]
fn symbols_are_sorted_by_address_and_size() {
    let t = table(vec![
        data("c", 0x30, 0),
        data("b2", 0x20, 8),
        data("b1", 0x20, 4),
        data("first", 0x10, 4),
        data("second", 0x10, 4),
        data("third", 0x10, 4),
    ]);
    assert_eq!(names(&t, 0, 0x100), ["first", "second", "third", "b1", "b2", "c"]);
}

#[test]
fn many_symbols_are_sorted() {
    let mut raw = Vec::new();
    let mut x = 12345u64;
    for k in 0..500 {
        x = x.wrapping_mul(6364136223846793005).wrapping_add(1442695040888963407);
        raw.push(data(&format!("s{k}"), 1 + (x >> 33) % 100, (x >> 20) % 3));
    }
    let mut expected: Vec<(u64, u64, String)> = raw
        .iter()
        .map(|s| (s.address, s.size, s.name.clone().unwrap_or_default()))
        .collect();
    expected.sort_by_key(|e| (e.0, e.1));
    let t = table(raw);
    let got: Vec<(u64, u64, String)> = t
        .starting_in(0, 1000)
        .iter()
        .map(|s| (s.addr as u64, s.size as u64, s.name.clone()))
        .collect();
    assert_eq!(got, expected);
}

#[test]
fn repeated_entries_are_dropped() {
    let t = table(vec![
        data("x", 0x10, 8),
        data("x", 0x10, 4),
        data("x", 0x20, 4),
        data("y", 0x10, 6),
        data("y", 0x10, 7),
    ]);
    // Sorted by size these are x, y, y, x: only neighbours are compared.
    let got: Vec<(String, u32)> =
        t.starting_in(0, 0x20).iter().map(|s| (s.name.clone(), s.size)).collect();
    assert_eq!(
        got,
        vec![("x".to_string(), 4), ("y".to_string(), 6), ("x".to_string(), 8)]
    );
    assert_eq!(t.len(), 4);
}

#[test]
fn names_lead_to_the_first_symbol() {
    let t = table(vec![data("dup", 0x40, 4), data("dup", 0x20, 0), data("bare", 0x60, 0)]);
    assert_eq!(t.resolve("dup"), Some(0x20));
    assert_eq!(t.size_of("dup"), Some(4));
    assert_eq!(t.resolve("bare"), Some(0x60));
    assert_eq!(t.size_of("bare"), None);
    assert_eq!(t.size_of("missing"), None);
    assert_eq!(t.resolve("Dup"), None);
}

#[test]
fn the_nearest_enclosing_symbol_wins() {
    let t = table(vec![
        data("outer", 0x100, 0x100),
        data("inner", 0x140, 0x10),
        data("mark", 0x144, 0),
    ]);
    let at = |a: u32| t.containing(a).map(|(s, off)| (s.name.clone(), off));
    assert_eq!(at(0xFF), None);
    assert_eq!(at(0x100), Some(("outer".to_string(), 0)));
    assert_eq!(at(0x13F), Some(("outer".to_string(), 0x3F)));
    assert_eq!(at(0x143), Some(("inner".to_string(), 3)));
    // A symbol without a size covers its own address only.
    assert_eq!(at(0x144), Some(("mark".to_string(), 0)));
    assert_eq!(at(0x145), Some(("inner".to_string(), 5)));
    assert_eq!(at(0x150), Some(("outer".to_string(), 0x50)));
    assert_eq!(at(0x1FF), Some(("outer".to_string(), 0xFF)));
    assert_eq!(at(0x200), None);
}

fn enclosing(t: &SymbolTable, addr: u32) -> Option<(String, u32)> {
    t.containing(addr).map(|(s, off)| (s.name.clone(), off))
}

fn found(name: &str, off: u32) -> Option<(String, u32)> {
    Some((name.to_string(), off))
}

#[test]
fn of_symbols_at_one_start_the_smallest_that_covers_encloses() {
    let t = table(vec![data("big", 0x100, 16), data("small", 0x100, 4), data("mid", 0x100, 8)]);
    assert_eq!(enclosing(&t, 0x100), found("small", 0));
    assert_eq!(enclosing(&t, 0x102), found("small", 2));
    assert_eq!(enclosing(&t, 0x104), found("mid", 4));
    assert_eq!(enclosing(&t, 0x10F), found("big", 15));
    assert_eq!(enclosing(&t, 0x110), None);
    // A symbol without a size encloses its start only if no other does.
    let t = table(vec![data("object", 0x100, 16), data("label", 0x100, 0), data("lone", 0x200, 0)]);
    assert_eq!(enclosing(&t, 0x100), found("object", 0));
    assert_eq!(enclosing(&t, 0x101), found("object", 1));
    assert_eq!(enclosing(&t, 0x200), found("lone", 0));
    assert_eq!(enclosing(&t, 0x201), None);
    // Of symbols that are alike the last in the table is taken.
    let t = table(vec![data("first", 0x100, 4), data("second", 0x100, 4)]);
    assert_eq!(enclosing(&t, 0x101), found("second", 1));
}

#[test]
fn enclosing_symbols_are_found_behind_any_number_of_starts() {
    for marks in [0u64, 1, 63, 64, 65, 1000] {
        let mut raw = vec![data("region", 0x1000, 0x1000)];
        for k in 0..marks {
            raw.push(data(&format!("m{k}"), 0x1001 + k, 0));
        }
        let t = table(raw);
        assert_eq!(enclosing(&t, 0x1800), found("region", 0x800));
        assert_eq!(enclosing(&t, 0x2000), None);
    }
}

#[test]
fn ranges_reach_the_end_of_memory() {
    let t = table(vec![data("top", 0xFFFF_FFF0, 0x10)]);
    assert_eq!(enclosing(&t, 0xFFFF_FFFE), found("top", 0xE));
    assert_eq!(enclosing(&t, 0xFFFF_FFFF), found("top", 0xF));
    // A range does not go round the end.
    let t = table(vec![data("top", 0xFFFF_FFF0, 0x20), data("last", 0xFFFF_FFFF, 1)]);
    assert_eq!(enclosing(&t, 0xFFFF_FFFE), found("top", 0xE));
    assert_eq!(enclosing(&t, 0xFFFF_FFFF), found("last", 0));
    assert_eq!(enclosing(&t, 0), None);
    assert_eq!(names(&t, 0xFFFF_FFF0, 0xF), ["top"]);
    assert_eq!(names(&t, 0xFFFF_FFF0, 0x10), ["top", "last"]);
    assert_eq!(names(&t, 0xFFFF_FFFF, 1), ["last"]);
    assert_eq!(names(&t, 0xFFFF_FFFF, u32::MAX), ["last"]);
    assert_eq!(names(&t, 0xFFFF_FFFF, 0), Vec::<String>::new());
}

#[test]
fn adjoining_spans_add_up() {
    let t = table(vec![data("a", 0x10, 1), data("b", 0x14, 1), data("c", 0x14, 2), data("d", 0x18, 0)]);
    for m in 0..12u32 {
        for n in 0..12u32 {
            let mut parts = names(&t, 0x10, m);
            parts.extend(names(&t, 0x10 + m, n));
            assert_eq!(names(&t, 0x10, m + n), parts);
        }
    }
}

#[test]
fn symbols_that_start_in_a_span() {
    let t = table(vec![data("a", 0x10, 1), data("b", 0x14, 1), data("c", 0x20, 1)]);
    assert_eq!(names(&t, 0x10, 0x10), ["a", "b"]);
    assert_eq!(names(&t, 0x11, 0x10), ["b", "c"]);
    assert_eq!(names(&t, 0x10, 0), Vec::<String>::new());
    assert_eq!(names(&t, 0x21, 0x100), Vec::<String>::new());
}
