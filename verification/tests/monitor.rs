//! The monitor's state: reads, highlights, jumps and scrolling.

use memory_monitor::app::{App, Config, Endian};
use memory_monitor::reader::{MemReader, MockReader};
use memory_monitor::time::{Duration, Instant};

/// A reader that gives out what it was told to.
struct Scripted {
    replies: Vec<Result<Vec<u8>, String>>,
    asked: Vec<(u32, usize)>,
}

impl MemReader for Scripted {
    fn read(&mut self, addr: u32, buf: &mut [u8]) -> Result<(), String> {
        self.asked.push((addr, buf.len()));
        match self.replies.remove(0) {
            Ok(bytes) => {
                buf.copy_from_slice(&bytes);
                Ok(())
            }
            Err(e) => Err(e),
        }
    }

    fn describe(&self) -> String {
        format!("scripted, {} left", self.replies.len())
    }
}

fn scripted(replies: Vec<Result<Vec<u8>, String>>) -> Scripted {
    Scripted { replies, asked: Vec::new() }
}

fn ms(n: u64) -> Instant {
    Instant { nanos: n as u128 * 1_000_000 }
}

fn config(len: usize) -> Config {
    Config {
        addr: 0x2000_0000,
        len,
        bytes_per_row: 4,
        word_size: 4,
        endian: Endian::Little,
        refresh: Duration::from_millis(200),
        highlight: Duration::from_millis(500),
    }
}

#[test]
fn a_new_monitor_has_read_nothing() {
    let app = App::new(config(6), ms(7));
    assert_eq!(app.data, vec![0u8; 6]);
    assert!(!app.seeded);
    assert_eq!(app.last_change, vec![None; 6]);
    assert_eq!(app.status, "starting…");
    assert!(!app.last_read_ok);
    assert_eq!(app.reads, 0);
    assert_eq!(app.last_refresh, ms(7));
    assert!(!app.paused && !app.input_mode && !app.force_refresh && !app.overlay);
    assert_eq!(app.input, "");
    assert!(app.symbols.is_none());
}

#[test]
fn the_first_read_flashes_nothing() {
    let mut app = App::new(config(4), ms(0));
    let mut reader = scripted(vec![Err("no".to_string()), Ok(vec![1, 2, 3, 4])]);
    assert_eq!(app.refresh(&mut reader, ms(10)), Ok(()));
    assert_eq!(app.refresh(&mut reader, ms(20)), Ok(()));
    assert_eq!(app.data, vec![1, 2, 3, 4]);
    for i in 0..4 {
        assert!(!app.is_hot(i, ms(20)));
    }
}

#[test]
fn changed_bytes_are_hot_until_the_highlight_is_over() {
    let mut app = App::new(config(4), ms(0));
    let mut reader = scripted(vec![
        Ok(vec![1, 2, 3, 4]),
        Ok(vec![1, 9, 3, 4]),
        Ok(vec![1, 9, 3, 5]),
    ]);
    let _ = app.refresh(&mut reader, ms(0));
    let _ = app.refresh(&mut reader, ms(1000));
    assert!(!app.is_hot(0, ms(1000)));
    assert!(app.is_hot(1, ms(1000)));
    assert!(app.is_hot(1, Instant { nanos: ms(1500).nanos - 1 }));
    assert!(!app.is_hot(1, ms(1500)));
    // A byte that did not change again keeps its time.
    let _ = app.refresh(&mut reader, ms(1200));
    assert!(app.is_hot(1, ms(1499)));
    assert!(!app.is_hot(1, ms(1500)));
    assert!(app.is_hot(3, ms(1699)));
    // Outside the region nothing is hot.
    assert!(!app.is_hot(4, ms(1200)));
    // A clock that went back counts as no time at all.
    assert!(app.is_hot(3, ms(1)));
}

#[test]
fn a_failed_read_keeps_the_snapshot() {
    let mut app = App::new(config(2), ms(0));
    let mut reader = scripted(vec![
        Ok(vec![7, 8]),
        Ok(vec![7, 9]),
        Err("JLINKARM_ReadMem failed".to_string()),
    ]);
    let _ = app.refresh(&mut reader, ms(1));
    assert_eq!(app.status, "scripted, 2 left");
    let _ = app.refresh(&mut reader, ms(2));
    assert_eq!(app.refresh(&mut reader, ms(3)), Ok(()));
    assert_eq!(app.data, vec![7, 9]);
    assert!(app.is_hot(1, ms(3)));
    assert_eq!(app.reads, 2);
    assert!(!app.last_read_ok);
    assert_eq!(app.status, "read error: JLINKARM_ReadMem failed");
    assert_eq!(app.last_refresh, ms(3));
    assert_eq!(reader.asked, vec![(0x2000_0000, 2); 3]);
}

#[test]
fn a_jump_drops_what_was_known() {
    let mut app = App::new(config(2), ms(0));
    let mut reader = scripted(vec![Ok(vec![1, 2]), Ok(vec![3, 4]), Ok(vec![5, 6])]);
    let _ = app.refresh(&mut reader, ms(0));
    let _ = app.refresh(&mut reader, ms(1));
    app.scroll = 1;
    app.paused = true;
    app.goto(0x1000);
    app.goto(0x4000_0000);
    assert_eq!(app.cfg.addr, 0x4000_0000);
    assert_eq!(app.data, vec![0, 0]);
    assert_eq!(app.last_change, vec![None, None]);
    assert_eq!(app.scroll, 0);
    assert!(app.force_refresh);
    // The read comes at once, even while paused, and flashes nothing.
    let _ = app.tick(&mut reader, ms(2));
    assert_eq!(reader.asked.last(), Some(&(0x4000_0000, 2)));
    assert_eq!(app.data, vec![5, 6]);
    assert!(!app.force_refresh);
    assert!(!app.is_hot(0, ms(2)) && !app.is_hot(1, ms(2)));
    assert!(app.paused);
}

#[test]
fn reads_come_when_they_are_due() {
    let mut app = App::new(config(1), ms(100));
    let mut reader = scripted(vec![Ok(vec![1]), Err("gone".to_string()), Ok(vec![2])]);
    let _ = app.tick(&mut reader, Instant { nanos: ms(300).nanos - 1 });
    assert_eq!(reader.asked.len(), 0);
    let _ = app.tick(&mut reader, ms(300));
    assert_eq!(reader.asked.len(), 1);
    let _ = app.tick(&mut reader, ms(499));
    assert_eq!(reader.asked.len(), 1);
    // A failed read counts too.
    let _ = app.tick(&mut reader, ms(500));
    let _ = app.tick(&mut reader, ms(600));
    assert_eq!(reader.asked.len(), 2);
    app.paused = true;
    let _ = app.tick(&mut reader, ms(5000));
    assert_eq!(reader.asked.len(), 2);
    app.paused = false;
    let _ = app.tick(&mut reader, ms(5000));
    assert_eq!(reader.asked.len(), 3);
    assert_eq!(app.reads, 2);
}

#[test]
fn rows_are_counted_up() {
    assert_eq!(App::new(config(0), ms(0)).total_rows(), 0);
    assert_eq!(App::new(config(1), ms(0)).total_rows(), 1);
    assert_eq!(App::new(config(4), ms(0)).total_rows(), 1);
    assert_eq!(App::new(config(5), ms(0)).total_rows(), 2);
}

#[test]
fn scrolling_stays_in_range() {
    let mut app = App::new(config(40), ms(0));
    app.scroll_by(3, 4);
    assert_eq!(app.scroll, 3);
    app.scroll_by(100, 4);
    assert_eq!(app.scroll, 6);
    app.scroll_by(-2, 4);
    assert_eq!(app.scroll, 4);
    app.scroll_by(-100, 4);
    assert_eq!(app.scroll, 0);
    app.scroll_to_bottom(4);
    assert_eq!(app.scroll, 6);
    // A viewport that holds everything leaves nothing to scroll.
    app.scroll_to_bottom(10);
    assert_eq!(app.scroll, 0);
    app.scroll_by(1, 11);
    assert_eq!(app.scroll, 0);
    app.scroll_to_bottom(0);
    assert_eq!(app.scroll, 10);
}

#[test]
fn the_mock_never_fails() {
    let mut app = App::new(config(64), ms(0));
    let mut reader = MockReader::new(0x2000_0000, 64);
    for k in 0..20u64 {
        let before = app.data.clone();
        let _ = app.refresh(&mut reader, ms(1000 * k));
        assert!(app.last_read_ok);
        assert_eq!(app.reads, k + 1);
        for i in 0..64 {
            assert_eq!(app.data[i], reader.byte_at(0x2000_0000 + i as u32));
            if k > 0 {
                assert_eq!(app.is_hot(i, ms(1000 * k)), app.data[i] != before[i]);
            }
        }
    }
}
