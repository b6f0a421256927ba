//! What the keys do.

use memory_monitor::app::{App, Config, Endian};
use memory_monitor::elf::{ElfSymbol, SymbolClass};
use memory_monitor::keys::{Flow, Key, KeyInput};
use memory_monitor::symbols::SymbolTable;
use memory_monitor::time::{Duration, Instant};

const VIEWPORT: usize = 4;

fn monitor(refresh_ms: u64) -> App {
    let cfg = Config {
        addr: 0x2000_0000,
        len: 160,
        bytes_per_row: 16,
        word_size: 4,
        endian: Endian::Little,
        refresh: Duration::from_millis(refresh_ms),
        highlight: Duration::from_millis(500),
    };
    App::new(cfg, Instant { nanos: 0 })
}

fn with_symbols() -> App {
    let mut app = monitor(200);
    let symbol = |name: &str, address: u64| ElfSymbol {
        class: SymbolClass::Data,
        address,
        size: 4,
        name: Some(name.to_string()),
    };
    let raw = vec![symbol("g_state", 0x2000_6000), symbol("add", 0x0800_0000), symbol("a b", 0x44)];
    app.attach_symbols(SymbolTable::from_elf_symbols("f.elf", raw));
    app
}

fn press(app: &mut App, key: Key) -> Flow {
    app.handle_key(KeyInput { key, ctrl: false, press: true }, VIEWPORT)
}

fn ctrl(app: &mut App, c: char) -> Flow {
    app.handle_key(KeyInput { key: Key::Char(c), ctrl: true, press: true }, VIEWPORT)
}

fn type_in(app: &mut App, text: &str) {
    for c in text.chars() {
        assert_eq!(press(app, Key::Char(c)), Flow::Continue);
    }
}

fn millis(app: &App) -> u128 {
    app.cfg.refresh.as_millis()
}

#[test]
fn keys_that_quit() {
    for key in [Key::Esc, Key::Char('q')] {
        assert_eq!(press(&mut monitor(200), key), Flow::Quit);
    }
    assert_eq!(ctrl(&mut monitor(200), 'c'), Flow::Quit);
    assert_eq!(ctrl(&mut monitor(200), 'q'), Flow::Quit);
    assert_eq!(press(&mut monitor(200), Key::Char('c')), Flow::Continue);
    assert_eq!(press(&mut monitor(200), Key::Other), Flow::Continue);
}

#[test]
fn released_keys_do_nothing() {
    let mut app = monitor(200);
    for key in [Key::Esc, Key::Char('q'), Key::Char(' '), Key::Down] {
        let k = KeyInput { key, ctrl: false, press: false };
        assert_eq!(app.handle_key(k, VIEWPORT), Flow::Continue);
    }
    assert!(!app.paused);
    assert_eq!(app.scroll, 0);
}

#[test]
fn space_pauses_and_resumes() {
    let mut app = monitor(200);
    press(&mut app, Key::Char(' '));
    assert!(app.paused);
    press(&mut app, Key::Char(' '));
    assert!(!app.paused);
}

#[test]
fn the_refresh_interval_moves_in_steps() {
    let mut app = monitor(200);
    press(&mut app, Key::Char('+'));
    assert_eq!(millis(&app), 250);
    press(&mut app, Key::Char('='));
    assert_eq!(millis(&app), 300);
    press(&mut app, Key::Char('-'));
    assert_eq!(millis(&app), 250);
    press(&mut app, Key::Char('_'));
    assert_eq!(millis(&app), 200);
}

#[test]
fn the_refresh_interval_has_limits() {
    let after = |ms: u64, c: char| {
        let mut app = monitor(ms);
        press(&mut app, Key::Char(c));
        millis(&app)
    };
    assert_eq!(after(9_950, '+'), 10_000);
    assert_eq!(after(9_970, '+'), 10_000);
    assert_eq!(after(10_000, '+'), 10_000);
    assert_eq!(after(15_000, '+'), 10_000);
    assert_eq!(after(15_000, '-'), 14_950);
    assert_eq!(after(0, '+'), 50);
    assert_eq!(after(60, '-'), 10);
    assert_eq!(after(61, '-'), 11);
    assert_eq!(after(59, '-'), 10);
    assert_eq!(after(50, '-'), 10);
    assert_eq!(after(20, '-'), 10);
    assert_eq!(after(0, '-'), 10);
}

#[test]
fn keys_that_scroll() {
    let mut app = monitor(200);
    press(&mut app, Key::Down);
    press(&mut app, Key::Down);
    assert_eq!(app.scroll, 2);
    press(&mut app, Key::Up);
    assert_eq!(app.scroll, 1);
    press(&mut app, Key::PageDown);
    assert_eq!(app.scroll, 5);
    press(&mut app, Key::PageUp);
    assert_eq!(app.scroll, 1);
    press(&mut app, Key::PageUp);
    assert_eq!(app.scroll, 0);
    press(&mut app, Key::Char('G'));
    assert_eq!(app.scroll, 6);
    press(&mut app, Key::Down);
    assert_eq!(app.scroll, 6);
    press(&mut app, Key::Char('g'));
    assert_eq!(app.scroll, 0);
    press(&mut app, Key::End);
    assert_eq!(app.scroll, 6);
    press(&mut app, Key::Home);
    assert_eq!(app.scroll, 0);
}

#[test]
fn s_toggles_the_overlay_when_there_are_symbols() {
    let mut app = monitor(200);
    press(&mut app, Key::Char('s'));
    assert!(!app.overlay);
    let mut app = with_symbols();
    assert!(app.overlay);
    press(&mut app, Key::Char('s'));
    assert!(!app.overlay);
    press(&mut app, Key::Char('s'));
    assert!(app.overlay);
    // The table stays as it is.
    let table = app.symbols.as_ref();
    assert_eq!(table.map(|t| (t.len(), t.path.as_str())), Some((3, "f.elf")));
}

#[test]
fn an_address_can_be_gone_to() {
    for text in ["0x20001000", "20001000", "0X20001000"] {
        let mut app = monitor(200);
        app.scroll = 3;
        assert_eq!(ctrl(&mut app, 'g'), Flow::Continue);
        assert!(app.input_mode);
        type_in(&mut app, text);
        assert_eq!(app.input, text);
        assert_eq!(press(&mut app, Key::Enter), Flow::Continue);
        assert!(!app.input_mode);
        assert_eq!(app.input, "");
        assert_eq!(app.cfg.addr, 0x2000_1000);
        assert_eq!(app.scroll, 0);
        assert!(app.force_refresh);
    }
}

#[test]
fn the_prompt_takes_addresses_only() {
    let mut app = monitor(200);
    ctrl(&mut app, 'g');
    type_in(&mut app, "gz q0+x s-fF ");
    assert_eq!(app.input, "0xfF");
    // It swallows the other keys.
    for key in [Key::Up, Key::Down, Key::PageDown, Key::End, Key::Home, Key::Other] {
        assert_eq!(press(&mut app, key), Flow::Continue);
    }
    assert_eq!(app.scroll, 0);
    assert!(!app.paused);
    assert_eq!(millis(&app), 200);
    press(&mut app, Key::Backspace);
    assert_eq!(app.input, "0xf");
    // Ctrl makes no difference to the characters of an address.
    ctrl(&mut app, 'a');
    assert_eq!(app.input, "0xfa");
    type_in(&mut app, "0123456789");
    assert_eq!(app.input, "0xfa012345");
    assert_eq!(ctrl(&mut app, 'c'), Flow::Quit);
}

#[test]
fn a_text_that_leads_nowhere_keeps_the_prompt_open() {
    let mut app = monitor(200);
    ctrl(&mut app, 'g');
    press(&mut app, Key::Enter);
    assert!(app.input_mode);
    type_in(&mut app, "0x");
    press(&mut app, Key::Enter);
    assert!(app.input_mode);
    assert_eq!(app.input, "0x");
    assert_eq!(app.cfg.addr, 0x2000_0000);
    for _ in 0..3 {
        press(&mut app, Key::Backspace);
    }
    assert_eq!(app.input, "");
    assert!(app.input_mode);
    type_in(&mut app, "1234567890");
    press(&mut app, Key::Enter);
    assert!(app.input_mode);
}

#[test]
fn esc_cancels_the_prompt() {
    let mut app = monitor(200);
    ctrl(&mut app, 'g');
    type_in(&mut app, "1234");
    assert_eq!(press(&mut app, Key::Esc), Flow::Continue);
    assert!(!app.input_mode);
    assert_eq!(app.input, "");
    assert_eq!(app.cfg.addr, 0x2000_0000);
    assert!(!app.force_refresh);
    // Opened again, it is empty.
    ctrl(&mut app, 'g');
    assert_eq!(app.input, "");
}

#[test]
fn a_symbol_can_be_gone_to() {
    let mut app = with_symbols();
    ctrl(&mut app, 'g');
    type_in(&mut app, "g_state");
    press(&mut app, Key::Enter);
    assert_eq!(app.cfg.addr, 0x2000_6000);
    assert!(!app.input_mode);
    // White space around a name does not count, within it does.
    ctrl(&mut app, 'g');
    type_in(&mut app, " a b ");
    press(&mut app, Key::Enter);
    assert_eq!(app.cfg.addr, 0x44);
    // What spells an address is one.
    ctrl(&mut app, 'g');
    type_in(&mut app, "add");
    press(&mut app, Key::Enter);
    assert_eq!(app.cfg.addr, 0xADD);
    // Names may be long, and unknown.
    ctrl(&mut app, 'g');
    type_in(&mut app, "a_name_that_no_symbol_has");
    press(&mut app, Key::Enter);
    assert!(app.input_mode);
    assert_eq!(app.input, "a_name_that_no_symbol_has");
    // Control characters and Ctrl combinations are no part of a name.
    press(&mut app, Key::Char('\u{7}'));
    ctrl(&mut app, 'z');
    assert_eq!(app.input, "a_name_that_no_symbol_has");
}

#[test]
fn frames_come_often_enough() {
    assert_eq!(monitor(200).frame_interval(), Duration::from_millis(50));
    assert_eq!(monitor(50).frame_interval(), Duration::from_millis(50));
    assert_eq!(monitor(20).frame_interval(), Duration::from_millis(20));
    assert_eq!(monitor(0).frame_interval(), Duration::from_millis(0));
}
