//! The screen.

use memory_monitor::app::{App, Config, Endian};
use memory_monitor::elf::{ElfSymbol, SymbolClass};
use memory_monitor::layout::Area;
use memory_monitor::style::{Color, Line, Paragraph, Style};
use memory_monitor::symbols::SymbolTable;
use memory_monitor::time::{Duration, Instant};
use memory_monitor::ui::{
    draw, draw_footer, draw_hex, draw_in, draw_title, hex_line, hex_lines, viewport_rows,
};

const NOW: Instant = Instant { nanos: 10_000_000_000 };

const PLAIN: Style = Style { fg: None, bg: None, bold: false, dim: false };

const RED: Style = Style { fg: Some(Color::Red), bg: None, bold: true, dim: false };

const WHITE: Style = Style { fg: Some(Color::White), bg: None, bold: false, dim: false };

const GRAY: Style = Style { fg: Some(Color::Gray), bg: None, bold: false, dim: false };

const DARK: Style = Style { fg: Some(Color::DarkGray), bg: None, bold: false, dim: false };

const DIM: Style = Style { fg: Some(Color::DarkGray), bg: None, bold: false, dim: true };

const BRIGHT: Style = Style { fg: Some(Color::Cyan), bg: None, bold: true, dim: false };

fn monitor(addr: u32, data: &[u8], bytes_per_row: usize, word_size: usize) -> App {
    let cfg = Config {
        addr,
        len: data.len(),
        bytes_per_row,
        word_size,
        endian: Endian::Little,
        refresh: Duration::from_millis(200),
        highlight: Duration::from_millis(500),
    };
    let mut app = App::new(cfg, Instant { nanos: 0 });
    app.record(Ok((data.to_vec(), "ok".to_string())), Instant { nanos: 0 });
    app
}

fn attach(app: &mut App, symbols: &[(&str, u64, u64)]) {
    let raw = symbols
        .iter()
        .map(|(name, address, size)| ElfSymbol {
            class: SymbolClass::Data,
            address: *address,
            size: *size,
            name: Some(name.to_string()),
        })
        .collect();
    app.attach_symbols(SymbolTable::from_elf_symbols("f.elf", raw));
}

fn text(line: &Line) -> String {
    line.spans.iter().map(|s| s.text.as_str()).collect()
}

fn only_line(p: &Paragraph) -> String {
    assert_eq!(p.lines.len(), 1);
    text(&p.lines[0])
}

fn area(x: u16, y: u16, width: u16, height: u16) -> Area {
    Area { x, y, width, height }
}

#[test]
fn the_viewport_leaves_room_for_frame_and_header() {
    assert_eq!(viewport_rows(24), 21);
    assert_eq!(viewport_rows(3), 0);
    assert_eq!(viewport_rows(2), 0);
    assert_eq!(viewport_rows(0), 0);
    assert_eq!(viewport_rows(u16::MAX), 65532);
}

#[test]
fn rows_show_address_words_and_characters() {
    let data: Vec<u8> = (0x3Eu8..0x3E + 20).collect();
    let app = monitor(0x2000_0000, &data, 16, 4);
    let lines = hex_lines(&app, NOW, 10);
    assert_eq!(lines.len(), 3);
    assert_eq!(text(&lines[0]), "          +0       +4       +8       +C       ");
    assert_eq!(lines[0].spans[0].style, DIM);
    assert_eq!(
        text(&lines[1]),
        "20000000  41403F3E 45444342 49484746 4D4C4B4A  >?@ABCDEFGHIJKLM"
    );
    // The last row is padded, so that the characters stay below each other.
    assert_eq!(text(&lines[2]), "20000010  51504F4E                             NOPQ");
    assert_eq!(lines[1].spans[0].style, DARK);
    assert_eq!(lines[1].spans[1].style, WHITE);
    assert_eq!(lines[1].spans[5].style, PLAIN);
    assert_eq!(lines[1].spans[6].style, GRAY);
    assert_eq!(lines[2].spans[2].style, PLAIN);
}

#[test]
fn columns_begin_at_the_same_place_in_every_row() {
    let data: Vec<u8> = (0..45u8).map(|i| i + 0x30).collect();
    for w in [1usize, 2, 4] {
        let app = monitor(0x1000, &data, 8, w);
        for row_off in (0..45usize).step_by(8) {
            let row: Vec<char> = text(&hex_line(&app, NOW, row_off)).chars().collect();
            let address: String = row[..10].iter().collect();
            assert_eq!(address, format!("{:08X}  ", 0x1000 + row_off));
            for k in 0..8 / w {
                let from = 10 + k * (2 * w + 1);
                let cell: String = row[from..from + 2 * w + 1].iter().collect();
                let off = row_off + k * w;
                let v = (0..w).rev().fold(0u32, |v, i| {
                    (v << 8) | data.get(off + i).map_or(0, |b| *b as u32)
                });
                if off < 45 {
                    assert_eq!(cell, format!("{:0width$X} ", v, width = 2 * w));
                } else {
                    assert_eq!(cell, " ".repeat(2 * w + 1));
                }
            }
            let ascii = 11 + (8 / w) * (2 * w + 1);
            let end = (45 - row_off).min(8);
            assert_eq!(row[ascii - 1], ' ');
            assert_eq!(row.len(), ascii + end);
            for j in 0..end {
                assert_eq!(row[ascii + j], data[row_off + j] as char);
            }
        }
    }
}

#[test]
fn words_can_be_small_and_cut_off() {
    let mut app = monitor(0xFFFF_FFFC, &[0x00, 0x1F, 0x20, 0x7E, 0x7F, 0x80, 0xFF], 4, 2);
    let lines = hex_lines(&app, NOW, 10);
    assert_eq!(text(&lines[0]), "          +0   +2   ");
    assert_eq!(text(&lines[1]), "FFFFFFFC  1F00 7E20  .. ~");
    // The address goes round the end of memory.
    assert_eq!(text(&lines[2]), "00000000  807F 00FF  ...");
    app.cfg.endian = Endian::Big;
    let lines = hex_lines(&app, NOW, 10);
    assert_eq!(text(&lines[1]), "FFFFFFFC  001F 207E  .. ~");
    app.cfg.word_size = 1;
    let lines = hex_lines(&app, NOW, 10);
    assert_eq!(text(&lines[0]), "          +0 +1 +2 +3 ");
    assert_eq!(text(&lines[2]), "00000000  7F 80 FF     ...");
}

#[test]
fn changed_bytes_are_red() {
    let mut app = monitor(0x1000, &[1, 2, 3, 4, 5, 6, 7, 8], 8, 4);
    app.record(Ok((vec![1, 2, 3, 4, 5, 9, 7, 8], "ok".to_string())), NOW);
    let row = |t: Instant| {
        let lines = hex_lines(&app, t, 1);
        let styles: Vec<Style> = lines[1].spans.iter().map(|s| s.style).collect();
        styles
    };
    let hot = row(NOW);
    assert_eq!(hot[1], WHITE);
    assert_eq!(hot[2], RED);
    assert_eq!(hot[4..], [GRAY, GRAY, GRAY, GRAY, GRAY, RED, GRAY, GRAY]);
    let cold = row(Instant { nanos: NOW.nanos + 500_000_000 });
    assert!(!cold.contains(&RED));
}

#[test]
fn scrolling_moves_the_rows_in_view() {
    let data = [0u8; 40];
    let mut app = monitor(0, &data, 4, 4);
    app.scroll_to_bottom(3);
    let lines = hex_lines(&app, NOW, 3);
    assert_eq!(lines.len(), 4);
    assert!(text(&lines[1]).starts_with("0000001C"));
    assert!(text(&lines[3]).starts_with("00000024"));
    app.scroll = 10;
    assert_eq!(hex_lines(&app, NOW, 3).len(), 1);
    app.scroll = usize::MAX;
    assert_eq!(hex_lines(&app, NOW, 3).len(), 1);
    app.scroll = 0;
    assert_eq!(hex_lines(&app, NOW, 0).len(), 1);
}

#[test]
fn rows_name_their_symbols() {
    let mut app = monitor(0x1000, &[0u8; 16], 4, 4);
    attach(&mut app, &[("head", 0x1000, 2), ("tail", 0x1002, 6), ("mark", 0x1003, 0)]);
    let lines = hex_lines(&app, NOW, 10);
    assert_eq!(text(&lines[1]), "00001000  00000000  ....   head, tail, mark");
    assert_eq!(text(&lines[2]), "00001004  00000000  ....   tail+0x2");
    assert_eq!(text(&lines[3]), "00001008  00000000  ....");
    let last = |k: usize| lines[k].spans.last().map(|s| s.style);
    assert_eq!(last(1), Some(BRIGHT));
    assert_eq!(last(2), Some(DIM));
    app.overlay = false;
    let lines = hex_lines(&app, NOW, 10);
    assert_eq!(text(&lines[1]), "00001000  00000000  ....");
}

#[test]
fn the_title_tells_where_and_how() {
    let mut app = monitor(0x2003_F6C0, &[0u8; 0x140], 16, 4);
    let title = draw_title(&app);
    assert_eq!(
        only_line(&title),
        " Memory @ 0x2003F6C0  +0x140 bytes  •  200 ms refresh  •  ok "
    );
    assert_eq!(
        title.style,
        Style { fg: Some(Color::Black), bg: Some(Color::Cyan), bold: true, dim: false }
    );
    assert_eq!(title.lines[0].spans[0].style, PLAIN);
    app.paused = true;
    app.record(Err("no answer".to_string()), NOW);
    let title = draw_title(&app);
    assert_eq!(
        only_line(&title),
        " Memory @ 0x2003F6C0  +0x140 bytes  •  200 ms refresh  •  read error: no answer  [PAUSED] "
    );
    assert_eq!(
        title.style,
        Style { fg: Some(Color::White), bg: Some(Color::Red), bold: true, dim: false }
    );
}

#[test]
fn the_title_names_the_enclosing_symbol() {
    let mut app = monitor(0x2000_6000, &[0u8; 4], 4, 4);
    attach(&mut app, &[("g_state", 0x2000_6000, 0x40)]);
    assert!(only_line(&draw_title(&app)).starts_with(" Memory @ 0x20006000  <g_state>  +0x4 bytes"));
    app.cfg.addr = 0x2000_601A;
    assert!(only_line(&draw_title(&app))
        .starts_with(" Memory @ 0x2000601A  <g_state+0x1A>  +0x4 bytes"));
    app.cfg.addr = 0x2000_6040;
    assert!(only_line(&draw_title(&app)).starts_with(" Memory @ 0x20006040  +0x4 bytes"));
    app.cfg.addr = 0x2000_6000;
    app.overlay = false;
    assert!(only_line(&draw_title(&app)).starts_with(" Memory @ 0x20006000  +0x4 bytes"));
}

#[test]
fn the_footer_helps() {
    let mut app = monitor(0, &[0u8; 4], 4, 4);
    let footer = draw_footer(&app);
    assert_eq!(
        only_line(&footer),
        " q quit │ space pause │ +/- refresh │ ↑/↓ PgUp/PgDn scroll │ g/G top/bottom │ ^G goto \
         │ reads:1 "
    );
    assert_eq!(footer.style, DARK);
    attach(&mut app, &[("a", 4, 4), ("b", 8, 4)]);
    assert!(only_line(&draw_footer(&app)).ends_with(" ^G goto │ s syms(2):on │ reads:1 "));
    app.overlay = false;
    assert!(only_line(&draw_footer(&app)).ends_with(" ^G goto │ s syms(2):off │ reads:1 "));
}

#[test]
fn the_footer_holds_the_prompt() {
    let mut app = monitor(0, &[0u8; 4], 4, 4);
    app.input_mode = true;
    app.input = "0x20".to_string();
    let footer = draw_footer(&app);
    assert_eq!(
        only_line(&footer),
        " Go to address: 0x20\u{2588}  (Enter to jump, Esc to cancel)"
    );
    assert_eq!(footer.style, PLAIN);
    let styles: Vec<Style> = footer.lines[0].spans.iter().map(|s| s.style).collect();
    assert_eq!(
        styles,
        [
            Style { fg: Some(Color::Black), bg: Some(Color::Yellow), bold: true, dim: false },
            Style { fg: Some(Color::Yellow), bg: None, bold: true, dim: false },
            DARK,
        ]
    );
    attach(&mut app, &[("a", 4, 4)]);
    assert!(only_line(&draw_footer(&app)).starts_with(" Go to address / symbol: 0x20"));
}

#[test]
fn the_screen_has_three_parts() {
    let app = monitor(0, &[0u8; 400], 16, 4);
    let screen = draw(&app, NOW, area(0, 0, 80, 24));
    assert_eq!(screen.title.area, area(0, 0, 80, 1));
    assert_eq!(screen.hex.frame, area(0, 1, 80, 22));
    assert_eq!(screen.hex.caption, " hexdump ");
    assert_eq!(screen.hex.dump.area, area(1, 2, 78, 20));
    assert_eq!(screen.hex.dump.text.style, PLAIN);
    assert_eq!(screen.footer.area, area(0, 23, 80, 1));
    // A header and 19 of the 25 rows.
    assert_eq!(screen.hex.dump.text.lines.len(), 20);
    assert_eq!(only_line(&screen.title.text), only_line(&draw_title(&app)));
    assert_eq!(only_line(&screen.footer.text), only_line(&draw_footer(&app)));
}

#[test]
fn every_screen_of_three_lines_or_more_is_divided_alike() {
    let app = monitor(0, &[], 16, 4);
    for height in 3..=3000u16 {
        for y in [0u16, 5, 40_000] {
            let screen = draw(&app, NOW, area(2, y, 7, height));
            assert_eq!(screen.title.area, area(2, y, 7, 1));
            assert_eq!(screen.hex.frame, area(2, y + 1, 7, height - 2));
            assert_eq!(screen.footer.area, area(2, y + height - 1, 7, 1));
        }
    }
    for height in (3001..=u16::MAX).step_by(61) {
        let screen = draw(&app, NOW, area(0, 0, 7, height));
        assert_eq!(screen.title.area, area(0, 0, 7, 1));
        assert_eq!(screen.hex.frame, area(0, 1, 7, height - 2));
        assert_eq!(screen.footer.area, area(0, height - 1, 7, 1));
    }
}

#[test]
fn no_part_leaves_the_screen() {
    let app = monitor(0, &[0u8; 4], 4, 4);
    for y in [0u16, 4, 40_000, u16::MAX - 5, u16::MAX - 1, u16::MAX] {
        for height in [0u16, 1, 2, 3, 4, 10, 30_000, u16::MAX] {
            let screen = draw(&app, NOW, area(3, y, 9, height));
            let end = y.saturating_add(height) as u32;
            for a in [screen.title.area, screen.hex.frame, screen.footer.area] {
                assert_eq!((a.x, a.width), (3, 9));
                assert!(y <= a.y);
                assert!(a.y as u32 + a.height as u32 <= end);
            }
            // An area beyond the last line number ends there.
            let lines = (end - y as u32) as u16;
            if lines >= 3 {
                assert_eq!(screen.title.area, area(3, y, 9, 1));
                assert_eq!(screen.hex.frame, area(3, y + 1, 9, lines - 2));
                assert_eq!(screen.footer.area, area(3, y + (lines - 1), 9, 1));
            }
        }
    }
}

#[test]
fn the_frame_takes_a_cell_on_each_side() {
    let app = monitor(0, &[0u8; 64], 4, 4);
    let inner = |a: Area| draw_hex(&app, NOW, a).dump.area;
    assert_eq!(inner(area(0, 0, 10, 10)), area(1, 1, 8, 8));
    assert_eq!(inner(area(5, 6, 2, 2)), area(6, 7, 0, 0));
    assert_eq!(inner(area(5, 6, 1, 1)), area(6, 7, 0, 0));
    assert_eq!(inner(area(5, 6, 0, 0)), area(5, 6, 0, 0));
    assert_eq!(inner(area(u16::MAX, u16::MAX, 3, 3)), area(u16::MAX, u16::MAX, 1, 1));
    let pane = draw_hex(&app, NOW, area(0, 0, 10, 6));
    assert_eq!(pane.dump.text.lines.len(), 4);
    // Without a line for the header, the header is all there is.
    assert_eq!(draw_hex(&app, NOW, area(0, 0, 10, 2)).dump.text.lines.len(), 1);
}

#[test]
fn a_screen_can_be_drawn_in_given_areas() {
    let app = monitor(0, &[0u8; 64], 4, 4);
    let screen = draw_in(&app, NOW, area(0, 9, 5, 1), area(0, 0, 5, 9), area(7, 7, 1, 1));
    assert_eq!(screen.title.area, area(0, 9, 5, 1));
    assert_eq!(screen.hex.frame, area(0, 0, 5, 9));
    assert_eq!(screen.hex.dump.area, area(1, 1, 3, 7));
    assert_eq!(screen.footer.area, area(7, 7, 1, 1));
    assert_eq!(screen.hex.dump.text.lines.len(), 7);
}
