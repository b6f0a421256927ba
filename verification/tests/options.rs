//! Command line options.

use memory_monitor::app::Endian;
use memory_monitor::elf::{ElfSymbol, SymbolClass};
use memory_monitor::options::{OptionError, Options};
use memory_monitor::symbols::SymbolTable;
use memory_monitor::time::Duration;

fn options(addr: &str) -> Options {
    Options {
        addr: addr.to_string(),
        len: None,
        refresh: 200,
        highlight: 500,
        width: 16,
        word: 4,
        big_endian: false,
    }
}

fn table() -> SymbolTable {
    let symbol = |name: &str, address: u64, size: u64| ElfSymbol {
        class: SymbolClass::Data,
        address,
        size,
        name: Some(name.to_string()),
    };
    SymbolTable::from_elf_symbols(
        "f.elf",
        vec![symbol("g_state", 0x2000_6000, 0x40), symbol("edge", 0x2000_7000, 0), symbol("12", 7, 9)],
    )
}

fn message(o: &Options, t: Option<&SymbolTable>) -> String {
    match o.configure(t) {
        Ok(_) => panic!("accepted"),
        Err(e) => e.message(),
    }
}

#[test]
fn options_make_a_configuration() {
    let mut o = options("0x2003F6C0");
    o.len = Some(0x140);
    o.big_endian = true;
    o.word = 2;
    o.width = 6;
    let cfg = match o.configure(None) {
        Ok(cfg) => cfg,
        Err(e) => panic!("{}", e.message()),
    };
    assert_eq!(cfg.addr, 0x2003_F6C0);
    assert_eq!(cfg.len, 0x140);
    assert_eq!(cfg.bytes_per_row, 6);
    assert_eq!(cfg.word_size, 2);
    assert_eq!(cfg.endian, Endian::Big);
    assert_eq!(cfg.refresh, Duration::from_millis(200));
    assert_eq!(cfg.highlight, Duration::from_millis(500));
}

#[test]
fn defaults_apply() {
    let cfg = options("4096").configure(None).unwrap_or_else(|e| panic!("{}", e.message()));
    assert_eq!(cfg.addr, 4096);
    assert_eq!(cfg.len, 256);
    assert_eq!(cfg.endian, Endian::Little);
}

#[test]
fn a_symbol_gives_address_and_length() {
    let t = table();
    let cfg = options("g_state").configure(Some(&t)).unwrap_or_else(|e| panic!("{}", e.message()));
    assert_eq!((cfg.addr, cfg.len), (0x2000_6000, 0x40));
    let mut o = options(" g_state ");
    o.len = Some(8);
    let cfg = o.configure(Some(&t)).unwrap_or_else(|e| panic!("{}", e.message()));
    assert_eq!((cfg.addr, cfg.len), (0x2000_6000, 8));
    // A symbol without a size leaves the default.
    let cfg = options("edge").configure(Some(&t)).unwrap_or_else(|e| panic!("{}", e.message()));
    assert_eq!((cfg.addr, cfg.len), (0x2000_7000, 256));
    // A number is a number, even if a symbol has it as its name.
    let cfg = options("12").configure(Some(&t)).unwrap_or_else(|e| panic!("{}", e.message()));
    assert_eq!((cfg.addr, cfg.len), (12, 256));
}

#[test]
fn a_bad_address_is_refused() {
    let text = "invalid number `g_state`: invalid digit found in string";
    match options("g_state").configure(None) {
        Err(OptionError::Addr(t)) => assert_eq!(t, text),
        _ => panic!("accepted"),
    }
    assert_eq!(message(&options("g_state"), None), text);
    assert_eq!(
        message(&options("missing"), Some(&table())),
        "invalid number `missing`: invalid digit found in string, and no symbol has this name"
    );
}

#[test]
fn a_bad_word_size_is_refused() {
    for word in [0usize, 3, 5, 8, 16] {
        let mut o = options("0");
        o.word = word;
        assert!(matches!(o.configure(None), Err(OptionError::Word(w)) if w == word));
        assert_eq!(message(&o, None), format!("--word must be 1, 2 or 4 (got {word})"));
    }
}

#[test]
fn a_bad_width_is_refused() {
    for (width, word) in [(0usize, 1usize), (0, 4), (6, 4), (15, 2)] {
        let mut o = options("0");
        o.width = width;
        o.word = word;
        assert!(matches!(o.configure(None), Err(OptionError::Width(..))));
        assert_eq!(
            message(&o, None),
            format!("--width ({width}) must be a non-zero multiple of --word ({word})")
        );
    }
}

#[test]
fn an_empty_region_is_refused() {
    let mut o = options("0");
    o.len = Some(0);
    assert!(matches!(o.configure(None), Err(OptionError::Len)));
    assert_eq!(message(&o, None), "--len must be greater than 0");
    // What is wrong first is said first.
    o.word = 3;
    assert!(matches!(o.configure(None), Err(OptionError::Word(3))));
}
