//! What the keys do.

use crate::app::{clamped, lemma_rounded_up, App, AppModel, Config};
use crate::number::{
    lemma_bare_hex_round_trip, lemma_prefixed_hex_round_trip, parse_address, prompt_address, trim,
    trimmed,
};
use crate::symbols::address_of;
use crate::text::{
    byte_width, digit_char, digits, hex, lemma_hex_digit_count, lemma_push_bytes, pow256,
};
use crate::time::{Duration, Instant};
use vstd::prelude::*;
use vstd::utf8::encode_utf8;

verus! {

/// By how much `+` and `-` change the refresh interval: 50 ms.
pub const REFRESH_STEP: u128 = 50_000_000;

/// The longest refresh interval that `+` leads to: 10 s.
pub const REFRESH_MAX: u128 = 10_000_000_000;

/// The shortest refresh interval that `-` leads to: 10 ms.
pub const REFRESH_MIN: u128 = 10_000_000;

/// How many bytes the prompt takes when it takes addresses only: `0x` and eight digits.
pub const ADDRESS_INPUT_MAX: usize = 10;

/// The longest time between two frames: 50 ms.
pub const FRAME_MAX: u128 = 50_000_000;

/// A key of the keyboard.
#[derive(Clone, Copy, Debug, PartialEq, Eq, Structural)]
pub enum Key {
    Esc,
    Enter,
    Backspace,
    Char(char),
    Up,
    Down,
    PageUp,
    PageDown,
    Home,
    End,
    Other,
}

/// A key event: which key, whether Ctrl was held, and whether it went down.
#[derive(Clone, Copy, Debug, PartialEq, Eq, Structural)]
pub struct KeyInput {
    pub key: Key,
    pub ctrl: bool,
    pub press: bool,
}

/// Whether the monitor goes on.
#[derive(Clone, Copy, Debug, PartialEq, Eq, Structural)]
pub enum Flow {
    Continue,
    Quit,
}

/// Is `c` a hexadecimal digit, or the letter of the prefix `0x`?
pub open spec fn is_address_char(c: char) -> bool {
    '0' <= c <= '9' || 'a' <= c <= 'f' || 'A' <= c <= 'F' || c == 'x' || c == 'X'
}

/// Is `c` no control character?
pub open spec fn is_printable(c: char) -> bool {
    c as int >= 0x20 && !(0x7F <= c as int <= 0x9F)
}

impl AppModel {
    /// Can the rows in view be counted that a key scrolls to?
    pub open spec fn can_scroll(self, key: Key, viewport: nat) -> bool {
        let rows = self.cfg.bytes_per_row > 0;
        match key {
            Key::Up => rows && self.scroll <= isize::MAX,
            Key::Down => rows && self.scroll < isize::MAX,
            Key::PageUp => rows && self.scroll <= isize::MAX && viewport <= isize::MAX,
            Key::PageDown => rows && self.scroll + viewport <= isize::MAX,
            Key::End => rows,
            Key::Char(c) => c == 'G' ==> rows,
            _ => true,
        }
    }

    /// Where a confirmed prompt leads: to the address that it spells in hexadecimal or else, with
    /// a symbol table, to the symbol that it names.
    pub open spec fn prompt_target(self) -> Option<u32> {
        match prompt_address(self.input) {
            Ok(addr) => Some(addr),
            Err(_) => match self.symbols {
                Some(table) => address_of(table.entries, trimmed(self.input)),
                None => None,
            },
        }
    }

    /// Does the prompt take `c`? Without a symbol table it takes what addresses are made of, up to
    /// the length of one; with a table it takes what names are made of as well.
    pub open spec fn prompt_takes(self, c: char, ctrl: bool) -> bool {
        match self.symbols {
            Some(_) => is_address_char(c) || (!ctrl && is_printable(c)),
            None => is_address_char(c) && encode_utf8(self.input).len() < ADDRESS_INPUT_MAX,
        }
    }

    /// The prompt closed and emptied.
    pub open spec fn prompt_closed(self) -> AppModel {
        AppModel { input_mode: false, input: Seq::empty(), ..self }
    }

    /// A key press while the prompt is open.
    pub open spec fn prompt_key(self, key: Key, ctrl: bool) -> (AppModel, Flow) {
        match key {
            Key::Esc => (self.prompt_closed(), Flow::Continue),
            Key::Enter => match self.prompt_target() {
                Some(addr) => (self.at(addr).prompt_closed(), Flow::Continue),
                None => (self, Flow::Continue),
            },
            Key::Backspace => if self.input.len() > 0 {
                (AppModel { input: self.input.drop_last(), ..self }, Flow::Continue)
            } else {
                (self, Flow::Continue)
            },
            Key::Char(c) => if ctrl && c == 'c' {
                (self, Flow::Quit)
            } else if self.prompt_takes(c, ctrl) {
                (AppModel { input: self.input.push(c), ..self }, Flow::Continue)
            } else {
                (self, Flow::Continue)
            },
            _ => (self, Flow::Continue),
        }
    }

    /// The same state with another refresh interval.
    pub open spec fn with_refresh(self, nanos: int) -> AppModel {
        AppModel { cfg: Config { refresh: Duration { nanos: nanos as u128 }, ..self.cfg }, ..self }
    }

    /// The same state, scrolled by `delta` rows.
    pub open spec fn scrolled(self, delta: int, viewport: nat) -> AppModel {
        AppModel {
            scroll: clamped(self.scroll + delta, self.bottom(viewport) as int) as usize,
            ..self
        }
    }

    /// A key press while the prompt is closed, with `viewport` rows in view.
    pub open spec fn monitor_key(self, key: Key, ctrl: bool, viewport: nat) -> (AppModel, Flow) {
        let refresh = self.cfg.refresh.nanos;
        match key {
            Key::Esc => (self, Flow::Quit),
            Key::Up => (self.scrolled(-1, viewport), Flow::Continue),
            Key::Down => (self.scrolled(1, viewport), Flow::Continue),
            Key::PageUp => (self.scrolled(-viewport, viewport), Flow::Continue),
            Key::PageDown => (self.scrolled(viewport as int, viewport), Flow::Continue),
            Key::Home => (AppModel { scroll: 0, ..self }, Flow::Continue),
            Key::End => (
                AppModel { scroll: self.bottom(viewport) as usize, ..self },
                Flow::Continue,
            ),
            Key::Char(c) => if c == 'g' && ctrl {
                (AppModel { input_mode: true, input: Seq::empty(), ..self }, Flow::Continue)
            } else if c == 'q' || (c == 'c' && ctrl) {
                (self, Flow::Quit)
            } else if c == ' ' {
                (AppModel { paused: !self.paused, ..self }, Flow::Continue)
            } else if c == '+' || c == '=' {
                (
                    self.with_refresh(
                        if refresh + REFRESH_STEP < REFRESH_MAX {
                            refresh + REFRESH_STEP
                        } else {
                            REFRESH_MAX as int
                        },
                    ),
                    Flow::Continue,
                )
            } else if c == '-' || c == '_' {
                (
                    self.with_refresh(
                        if refresh - REFRESH_STEP > REFRESH_MIN {
                            refresh - REFRESH_STEP
                        } else {
                            REFRESH_MIN as int
                        },
                    ),
                    Flow::Continue,
                )
            } else if c == 's' && self.symbols is Some {
                (AppModel { overlay: !self.overlay, ..self }, Flow::Continue)
            } else if c == 'g' {
                (AppModel { scroll: 0, ..self }, Flow::Continue)
            } else if c == 'G' {
                (AppModel { scroll: self.bottom(viewport) as usize, ..self }, Flow::Continue)
            } else {
                (self, Flow::Continue)
            },
            _ => (self, Flow::Continue),
        }
    }

    /// The state after a key event, and whether the monitor goes on.
    pub open spec fn after_key(self, k: KeyInput, viewport: nat) -> (AppModel, Flow) {
        if !k.press {
            (self, Flow::Continue)
        } else if self.input_mode {
            self.prompt_key(k.key, k.ctrl)
        } else {
            self.monitor_key(k.key, k.ctrl, viewport)
        }
    }
}

fn address_char(c: char) -> (b: bool)
    ensures
        b == is_address_char(c),
{
    ('0' <= c && c <= '9') || ('a' <= c && c <= 'f') || ('A' <= c && c <= 'F') || c == 'x' || c
        == 'X'
}

fn printable(c: char) -> (b: bool)
    ensures
        b == is_printable(c),
{
    let u: u32 = c as u32;
    u >= 0x20 && !(0x7F <= u && u <= 0x9F)
}

impl App {
    /// Where a confirmed prompt leads.
    fn target(&self) -> (r: Option<u32>)
        ensures
            r == self@.prompt_target(),
    {
        match parse_address(self.input.as_str()) {
            Ok(addr) => Some(addr),
            Err(_) => match &self.symbols {
                Some(table) => table.resolve(trim(self.input.as_str())),
                None => None,
            },
        }
    }

    /// A key press while the prompt is open.
    fn handle_prompt_key(&mut self, key: Key, ctrl: bool) -> (flow: Flow)
        requires
            old(self).wf(),
        ensures
            final(self).wf(),
            (final(self)@, flow) == old(self)@.prompt_key(key, ctrl),
    {
        match key {
            Key::Esc => {
                self.input_mode = false;
                self.input = String::new();
            },
            Key::Enter => {
                // When the text leads nowhere, the prompt stays open so that it can be fixed.
                match self.target() {
                    Some(addr) => {
                        self.goto(addr);
                        self.input_mode = false;
                        self.input = String::new();
                    },
                    None => {},
                }
            },
            Key::Backspace => {
                let n: usize = self.input.as_str().unicode_len();
                if n > 0 {
                    let rest: String = self.input.as_str().substring_char(0, n - 1).to_owned();
                    assert(rest@ =~= self.input@.drop_last());
                    self.input = rest;
                }
            },
            Key::Char(c) => {
                if ctrl && c == 'c' {
                    return Flow::Quit;
                }
                let takes: bool = if self.symbols.is_some() {
                    address_char(c) || (!ctrl && printable(c))
                } else {
                    address_char(c) && self.input.as_str().as_bytes().len() < ADDRESS_INPUT_MAX
                };
                if takes {
                    self.input.push(c);
                }
            },
            _ => {},
        }
        Flow::Continue
    }

    /// A key press while the prompt is closed.
    fn handle_monitor_key(&mut self, key: Key, ctrl: bool, viewport_rows: usize) -> (flow: Flow)
        requires
            old(self).wf(),
            old(self)@.can_scroll(key, viewport_rows as nat),
        ensures
            final(self).wf(),
            (final(self)@, flow) == old(self)@.monitor_key(key, ctrl, viewport_rows as nat),
    {
        match key {
            Key::Esc => {
                return Flow::Quit;
            },
            Key::Up => self.scroll_by(-1, viewport_rows),
            Key::Down => self.scroll_by(1, viewport_rows),
            Key::PageUp => self.scroll_by(-(viewport_rows as isize), viewport_rows),
            Key::PageDown => self.scroll_by(viewport_rows as isize, viewport_rows),
            Key::Home => {
                self.scroll = 0;
            },
            Key::End => self.scroll_to_bottom(viewport_rows),
            Key::Char(c) => {
                if c == 'g' && ctrl {
                    self.input_mode = true;
                    self.input = String::new();
                } else if c == 'q' || (c == 'c' && ctrl) {
                    return Flow::Quit;
                } else if c == ' ' {
                    self.paused = !self.paused;
                } else if c == '+' || c == '=' {
                    let now: u128 = self.cfg.refresh.nanos;
                    self.cfg.refresh = if now < REFRESH_MAX - REFRESH_STEP {
                        Duration { nanos: now + REFRESH_STEP }
                    } else {
                        Duration { nanos: REFRESH_MAX }
                    };
                } else if c == '-' || c == '_' {
                    let now: u128 = self.cfg.refresh.nanos;
                    self.cfg.refresh = if now > REFRESH_MIN + REFRESH_STEP {
                        Duration { nanos: now - REFRESH_STEP }
                    } else {
                        Duration { nanos: REFRESH_MIN }
                    };
                } else if c == 's' && self.symbols.is_some() {
                    self.overlay = !self.overlay;
                } else if c == 'g' {
                    self.scroll = 0;
                } else if c == 'G' {
                    self.scroll_to_bottom(viewport_rows);
                }
            },
            _ => {},
        }
        Flow::Continue
    }

    /// Takes in a key event, with `viewport_rows` rows in view, and says whether to go on. The
    /// address-entry prompt swallows all other keys while it is open.
    pub fn handle_key(&mut self, k: KeyInput, viewport_rows: usize) -> (flow: Flow)
        requires
            old(self).wf(),
            k.press && !old(self).input_mode ==> old(self)@.can_scroll(
                k.key,
                viewport_rows as nat,
            ),
        ensures
            final(self).wf(),
            (final(self)@, flow) == old(self)@.after_key(k, viewport_rows as nat),
    {
        if !k.press {
            Flow::Continue
        } else if self.input_mode {
            self.handle_prompt_key(k.key, k.ctrl)
        } else {
            self.handle_monitor_key(k.key, k.ctrl, viewport_rows)
        }
    }

    /// How long to wait for a key before the next frame: short enough for highlights to expire
    /// crisply, whatever the refresh interval.
    pub fn frame_interval(&self) -> (d: Duration)
        ensures
            d.nanos == if self.cfg.refresh.nanos < FRAME_MAX {
                self.cfg.refresh.nanos
            } else {
                FRAME_MAX
            },
            d.nanos <= 50_000_000,
            d.nanos == self.cfg.refresh.nanos || (d.nanos == 50_000_000 && self.cfg.refresh.nanos
                > 50_000_000),
    {
        if self.cfg.refresh.nanos < FRAME_MAX {
            self.cfg.refresh
        } else {
            Duration { nanos: FRAME_MAX }
        }
    }
}

// ---------------------------------------------------------------------------
// Laws
// ---------------------------------------------------------------------------

/// A key pressed alone.
pub open spec fn pressed(key: Key) -> KeyInput {
    KeyInput { key, ctrl: false, press: true }
}

/// A key pressed while Ctrl is held.
pub open spec fn ctrl_pressed(key: Key) -> KeyInput {
    KeyInput { key, ctrl: true, press: true }
}

impl AppModel {
    /// The state after a key, whether or not the monitor goes on.
    pub open spec fn on(self, k: KeyInput, viewport: nat) -> AppModel {
        self.after_key(k, viewport).0
    }

    /// The state after the characters of `s` were pressed one after another.
    pub open spec fn typed(self, s: Seq<char>, viewport: nat) -> AppModel
        decreases s.len(),
    {
        if s.len() == 0 {
            self
        } else {
            self.typed(s.drop_last(), viewport).on(pressed(Key::Char(s.last())), viewport)
        }
    }

    /// The state after Ctrl-G, the characters of `s` and Enter.
    pub open spec fn gone_to(self, s: Seq<char>, viewport: nat) -> AppModel {
        self.on(ctrl_pressed(Key::Char('g')), viewport).typed(s, viewport).on(
            pressed(Key::Enter),
            viewport,
        )
    }
}

/// A key that is released or held changes nothing.
pub proof fn lemma_only_presses_count(m: AppModel, k: KeyInput, viewport: nat)
    requires
        !k.press,
    ensures
        m.after_key(k, viewport) == (m, Flow::Continue),
{
}

/// The monitor ends at Ctrl-C, whether or not the prompt is open, and at `q` and Esc when it is
/// closed, and at nothing else; nothing changes then.
pub proof fn lemma_quit_keys(m: AppModel, k: KeyInput, viewport: nat)
    ensures
        (m.after_key(k, viewport).1 == Flow::Quit) == (k.press && ((k.ctrl && k.key == Key::Char(
            'c',
        )) || (!m.input_mode && (k.key == Key::Esc || k.key == Key::Char('q'))))),
        m.after_key(k, viewport).1 == Flow::Quit ==> m.on(k, viewport) == m,
{
}

/// While the prompt is open, no key but Enter changes anything but the prompt itself; Esc closes
/// it, and Enter either jumps and closes it or changes nothing.
pub proof fn lemma_prompt_swallows_keys(m: AppModel, k: KeyInput, viewport: nat)
    requires
        m.input_mode,
    ensures
        ({
            let post = m.on(k, viewport);
            &&& k.key != Key::Enter ==> post == (AppModel {
                input: post.input,
                input_mode: post.input_mode,
                ..m
            })
            &&& k == pressed(Key::Esc) ==> post == m.prompt_closed()
            &&& k.key == Key::Enter ==> post == m || exists|addr: u32|
                m.prompt_target() == Some(addr) && post == #[trigger] m.at(addr).prompt_closed()
        }),
{
}

/// The prompt's text is empty while it is closed.
pub proof fn lemma_closed_prompt_is_empty(m: AppModel, k: KeyInput, viewport: nat)
    requires
        !m.input_mode ==> m.input == Seq::<char>::empty(),
    ensures
        !m.on(k, viewport).input_mode ==> m.on(k, viewport).input == Seq::<char>::empty(),
{
}

/// Opening the prompt and closing it with Esc leaves everything as it was.
pub proof fn lemma_prompt_cancelled(m: AppModel, s: Seq<char>, viewport: nat)
    requires
        !m.input_mode,
        m.input == Seq::<char>::empty(),
    ensures
        m.on(ctrl_pressed(Key::Char('g')), viewport).typed(s, viewport).on(
            pressed(Key::Esc),
            viewport,
        ) == m,
{
    let opened = m.on(ctrl_pressed(Key::Char('g')), viewport);
    lemma_typing_stays_in_prompt(opened, s, viewport);
}

/// Typing into the prompt changes its text alone.
proof fn lemma_typing_stays_in_prompt(m: AppModel, s: Seq<char>, viewport: nat)
    requires
        m.input_mode,
    ensures
        m.typed(s, viewport) == (AppModel { input: m.typed(s, viewport).input, ..m }),
    decreases s.len(),
{
    if s.len() > 0 {
        lemma_typing_stays_in_prompt(m, s.drop_last(), viewport);
    }
}

/// The prompt without a symbol table never holds more than an address.
pub proof fn lemma_prompt_is_bounded(m: AppModel, k: KeyInput, viewport: nat)
    requires
        m.symbols is None,
        encode_utf8(m.input).len() <= ADDRESS_INPUT_MAX,
    ensures
        encode_utf8(m.on(k, viewport).input).len() <= ADDRESS_INPUT_MAX,
{
    assert(encode_utf8(Seq::<char>::empty()).len() == 0);
    if m.input.len() > 0 {
        assert(m.input =~= m.input.drop_last().push(m.input.last()));
        lemma_push_bytes(m.input.drop_last(), m.input.last());
    }
    match k.key {
        Key::Char(c) => {
            lemma_push_bytes(m.input, c);
            if is_address_char(c) {
                assert(byte_width(c) == 1);
            }
        },
        _ => {},
    }
}

/// The characters of an address go into the prompt, as far as there is room.
proof fn lemma_typed_address(m: AppModel, s: Seq<char>, viewport: nat)
    requires
        m.input_mode,
        m.input == Seq::<char>::empty(),
        s.len() <= ADDRESS_INPUT_MAX,
        forall|i: int| 0 <= i < s.len() ==> is_address_char(#[trigger] s[i]),
    ensures
        m.typed(s, viewport) == (AppModel { input: s, ..m }),
        encode_utf8(s).len() == s.len(),
    decreases s.len(),
{
    if s.len() == 0 {
        assert(s =~= Seq::<char>::empty());
        assert(encode_utf8(s).len() == 0);
    } else {
        let t = s.drop_last();
        assert forall|i: int| 0 <= i < t.len() implies is_address_char(#[trigger] t[i]) by {
            assert(t[i] == s[i]);
        }
        lemma_typed_address(m, t, viewport);
        assert(s =~= t.push(s.last()));
        lemma_push_bytes(t, s.last());
        assert(is_address_char(s[s.len() - 1]));
        assert(byte_width(s.last()) == 1);
    }
}

/// A printable text goes into the prompt when there is a symbol table.
proof fn lemma_typed_name(m: AppModel, s: Seq<char>, viewport: nat)
    requires
        m.input_mode,
        m.input == Seq::<char>::empty(),
        m.symbols is Some,
        forall|i: int| 0 <= i < s.len() ==> is_printable(#[trigger] s[i]),
    ensures
        m.typed(s, viewport) == (AppModel { input: s, ..m }),
    decreases s.len(),
{
    if s.len() == 0 {
        assert(s =~= Seq::<char>::empty());
    } else {
        let t = s.drop_last();
        assert forall|i: int| 0 <= i < t.len() implies is_printable(#[trigger] t[i]) by {
            assert(t[i] == s[i]);
        }
        lemma_typed_name(m, t, viewport);
        assert(s =~= t.push(s.last()));
        assert(is_printable(s[s.len() - 1]));
    }
}

/// A number in hexadecimal is made of characters that the prompt takes.
proof fn lemma_hex_is_address(v: nat, width: nat)
    ensures
        forall|i: int| 0 <= i < hex(v, width).len() ==> is_address_char(#[trigger] hex(v, width)[i]),
{
    lemma_digits_are_address(v);
    let h = hex(v, width);
    let d = digits(v, 16);
    assert forall|i: int| 0 <= i < h.len() implies is_address_char(#[trigger] h[i]) by {
        if d.len() < width {
            if i >= width - d.len() {
                assert(h[i] == d[i - (width - d.len())]);
            }
        }
    }
}

proof fn lemma_digits_are_address(v: nat)
    ensures
        forall|i: int|
            0 <= i < digits(v, 16).len() ==> is_address_char(#[trigger] digits(v, 16)[i]),
    decreases v,
{
    if v >= 16 {
        lemma_digits_are_address(v / 16);
        let d = digits(v, 16);
        let e = digits(v / 16, 16);
        assert forall|i: int| 0 <= i < d.len() implies is_address_char(#[trigger] d[i]) by {
            if i < e.len() {
                assert(d[i] == e[i]);
            } else {
                assert(d[i] == digit_char((v % 16) as int));
            }
        }
    }
}

/// An address of up to eight digits has its place in the prompt.
proof fn lemma_address_fits(addr: u32, width: nat)
    requires
        width <= 8,
    ensures
        hex(addr as nat, width).len() <= 8,
{
    assert(pow256(4) == 0x1_0000_0000) by {
        reveal_with_fuel(pow256, 5);
    }
    lemma_hex_digit_count(addr as nat, 4);
}

/// An address typed into the prompt and confirmed is the one that the monitor shows then: with the
/// prefix `0x` or without, and padded up to eight digits or not.
pub proof fn lemma_goto_address(m: AppModel, addr: u32, width: nat, viewport: nat)
    requires
        !m.input_mode,
        width <= 8,
    ensures
        m.gone_to(hex(addr as nat, width), viewport) == m.at(addr).prompt_closed(),
        m.gone_to(seq!['0', 'x'] + hex(addr as nat, width), viewport) == m.at(addr).prompt_closed(),
{
    let opened = m.on(ctrl_pressed(Key::Char('g')), viewport);
    let h = hex(addr as nat, width);
    let s = seq!['0', 'x'] + h;
    lemma_address_fits(addr, width);
    lemma_hex_is_address(addr as nat, width);
    lemma_bare_hex_round_trip(addr, width);
    lemma_prefixed_hex_round_trip(addr, width, 'x');
    lemma_typed_address(opened, h, viewport);
    assert forall|i: int| 0 <= i < s.len() implies is_address_char(#[trigger] s[i]) by {
        if i >= 2 {
            assert(s[i] == h[i - 2]);
        }
    }
    lemma_typed_address(opened, s, viewport);
}

/// With a symbol table, a symbol's name typed into the prompt and confirmed leads to the symbol. A
/// text that spells an address leads there, even if a symbol has it as its name.
pub proof fn lemma_goto_symbol(m: AppModel, name: Seq<char>, viewport: nat)
    requires
        !m.input_mode,
        m.symbols is Some,
        forall|i: int| 0 <= i < name.len() ==> is_printable(#[trigger] name[i]),
    ensures
        match prompt_address(name) {
            Ok(addr) => m.gone_to(name, viewport) == m.at(addr).prompt_closed(),
            Err(_) => match address_of(m.symbols->0.entries, trimmed(name)) {
                Some(addr) => m.gone_to(name, viewport) == m.at(addr).prompt_closed(),
                None => m.gone_to(name, viewport) == (AppModel {
                    input_mode: true,
                    input: name,
                    ..m
                }),
            },
        },
{
    let opened = m.on(ctrl_pressed(Key::Char('g')), viewport);
    lemma_typed_name(opened, name, viewport);
}

/// Only the space bar pauses and resumes, and only while the prompt is closed.
pub proof fn lemma_only_space_pauses(m: AppModel, k: KeyInput, viewport: nat)
    ensures
        m.on(k, viewport).paused == if k.press && !m.input_mode && k.key == Key::Char(' ') {
            !m.paused
        } else {
            m.paused
        },
{
}

/// A key asks for a read only by a jump, and takes no request back.
pub proof fn lemma_only_jumps_ask_for_reads(m: AppModel, k: KeyInput, viewport: nat)
    ensures
        m.force_refresh ==> m.on(k, viewport).force_refresh,
        m.on(k, viewport).force_refresh && !m.force_refresh ==> k.press && m.input_mode && k.key
            == Key::Enter && m.prompt_target() is Some,
{
}

/// No key makes anything flash: before the first read a jump may come, but nothing that was read.
pub proof fn lemma_keys_flash_nothing(m: AppModel, k: KeyInput, viewport: nat, i: int, t: Instant)
    ensures
        m.unread() ==> m.on(k, viewport).unread(),
        m.on(k, viewport).hot(i, t) ==> m.hot(i, t),
{
}

/// With a symbol table, `s` flips the overlay and changes nothing else, the table included.
pub proof fn lemma_symbol_key(m: AppModel, viewport: nat)
    requires
        !m.input_mode,
        m.symbols is Some,
    ensures
        m.after_key(pressed(Key::Char('s')), viewport) == (
            AppModel { overlay: !m.overlay, ..m },
            Flow::Continue,
        ),
{
}

/// No key changes the symbol table, neither its entries nor the path of its file.
pub proof fn lemma_keys_keep_symbols(m: AppModel, k: KeyInput, viewport: nat)
    ensures
        m.on(k, viewport).symbols == m.symbols,
{
}

/// Pausing twice, or toggling the symbols twice, is doing nothing.
pub proof fn lemma_toggles(m: AppModel, viewport: nat)
    requires
        !m.input_mode,
    ensures
        m.on(pressed(Key::Char(' ')), viewport).on(pressed(Key::Char(' ')), viewport) == m,
        m.on(pressed(Key::Char('s')), viewport).on(pressed(Key::Char('s')), viewport) == m,
        m.on(pressed(Key::Char(' ')), viewport).paused != m.paused,
        m.symbols is Some ==> m.on(pressed(Key::Char('s')), viewport).overlay != m.overlay,
        m.symbols is None ==> m.on(pressed(Key::Char('s')), viewport) == m,
{
}

/// A refresh interval within its limits stays within them, whatever key is pressed.
pub proof fn lemma_refresh_stays_in_range(m: AppModel, k: KeyInput, viewport: nat)
    requires
        REFRESH_MIN <= m.cfg.refresh.nanos <= REFRESH_MAX,
    ensures
        REFRESH_MIN <= m.on(k, viewport).cfg.refresh.nanos <= REFRESH_MAX,
{
}

/// `+` and `-` undo each other, unless the first of them met its limit.
pub proof fn lemma_plus_minus(m: AppModel, viewport: nat)
    requires
        !m.input_mode,
        REFRESH_MIN <= m.cfg.refresh.nanos <= REFRESH_MAX,
    ensures
        m.cfg.refresh.nanos + REFRESH_STEP <= REFRESH_MAX ==> m.on(
            pressed(Key::Char('+')),
            viewport,
        ).on(pressed(Key::Char('-')), viewport) == m,
        m.cfg.refresh.nanos - REFRESH_STEP >= REFRESH_MIN ==> m.on(
            pressed(Key::Char('-')),
            viewport,
        ).on(pressed(Key::Char('+')), viewport) == m,
{
}

/// The scroll offset never passes the bottom: a key that moves the rows leaves it there or above,
/// and a key that does not leaves it or puts it to the top.
pub proof fn lemma_scroll_stays_above_bottom(m: AppModel, k: KeyInput, viewport: nat)
    requires
        m.wf(),
        m.cfg.bytes_per_row > 0,
        m.scroll <= m.bottom(viewport),
    ensures
        m.on(k, viewport).scroll <= m.bottom(viewport),
        m.on(k, viewport).bottom(viewport) == m.bottom(viewport),
{
    lemma_rounded_up(m.cfg.len as nat, m.cfg.bytes_per_row as nat);
}

/// One row up and one row down undo each other, and so do a page up and a page down, unless the
/// first of them met its limit.
pub proof fn lemma_scrolling_back(m: AppModel, viewport: nat)
    requires
        m.wf(),
        m.cfg.bytes_per_row > 0,
        !m.input_mode,
        m.scroll <= m.bottom(viewport),
    ensures
        m.scroll < m.bottom(viewport) ==> m.on(pressed(Key::Down), viewport).on(
            pressed(Key::Up),
            viewport,
        ) == m,
        m.scroll > 0 ==> m.on(pressed(Key::Up), viewport).on(pressed(Key::Down), viewport) == m,
        m.scroll + viewport <= m.bottom(viewport) ==> m.on(pressed(Key::PageDown), viewport).on(
            pressed(Key::PageUp),
            viewport,
        ) == m,
        m.scroll >= viewport ==> m.on(pressed(Key::PageUp), viewport).on(
            pressed(Key::PageDown),
            viewport,
        ) == m,
{
    lemma_rounded_up(m.cfg.len as nat, m.cfg.bytes_per_row as nat);
}

/// Where the keys scroll to, in a region of `rows` rows of which `viewport` are in view, while the
/// prompt is closed. Up and Down move by one row, PageUp and PageDown by the rows in view, and none of
/// them farther than to the first row or to where the last row is the last in view. Home and `g` go to
/// the one, End and `G` to the other. Nothing else changes.
pub proof fn lemma_scroll_keys(m: AppModel, rows: int, viewport: nat)
    requires
        m.wf(),
        !m.input_mode,
        m.cfg.bytes_per_row > 0,
        0 <= rows,
        rows * m.cfg.bytes_per_row >= m.cfg.len,
        (rows - 1) * m.cfg.bytes_per_row < m.cfg.len,
        m.cfg.len == 0 ==> rows == 0,
    ensures
        ({
            let bottom = if rows >= viewport {
                rows - viewport
            } else {
                0
            };
            let least = |a: int, b: int|
                if a <= b {
                    a
                } else {
                    b
                };
            let up = |n: int|
                if m.scroll >= n {
                    least(m.scroll - n, bottom)
                } else {
                    0
                };
            let down = |n: int| least(m.scroll + n, bottom);
            let moved = |scroll: int| (AppModel { scroll: scroll as usize, ..m }, Flow::Continue);
            &&& 0 <= bottom <= usize::MAX
            &&& m.after_key(pressed(Key::Up), viewport) == moved(up(1))
            &&& m.after_key(pressed(Key::Down), viewport) == moved(down(1))
            &&& m.after_key(pressed(Key::PageUp), viewport) == moved(up(viewport as int))
            &&& m.after_key(pressed(Key::PageDown), viewport) == moved(down(viewport as int))
            &&& m.after_key(pressed(Key::Home), viewport) == moved(0)
            &&& m.after_key(pressed(Key::Char('g')), viewport) == moved(0)
            &&& m.after_key(pressed(Key::End), viewport) == moved(bottom)
            &&& m.after_key(pressed(Key::Char('G')), viewport) == moved(bottom)
        }),
{
    let b = m.cfg.bytes_per_row as int;
    let n = m.rows() as int;
    lemma_rounded_up(m.cfg.len as nat, b as nat);
    assert(rows == n) by (nonlinear_arith)
        requires
            b > 0,
            rows * b >= m.cfg.len,
            (rows - 1) * b < m.cfg.len,
            n * b >= m.cfg.len,
            n * b < m.cfg.len + b,
            n >= 0,
            rows >= 0,
            m.cfg.len == 0 ==> rows == 0,
    ;
}

/// Where there is room, the row just behind the last one in view is the first one in view after
/// PageDown, and the row just before the first one in view is the last one after PageUp.
pub proof fn lemma_pages_adjoin(m: AppModel, viewport: nat)
    requires
        m.wf(),
        !m.input_mode,
        m.cfg.bytes_per_row > 0,
    ensures
        m.scroll + 2 * viewport <= m.rows() ==> m.on(pressed(Key::PageDown), viewport).scroll
            == m.scroll + viewport,
        viewport <= m.scroll && m.scroll + viewport <= m.rows() ==> m.on(
            pressed(Key::PageUp),
            viewport,
        ).scroll + viewport == m.scroll,
        m.scroll + viewport < m.rows() ==> m.on(pressed(Key::Down), viewport).scroll == m.scroll + 1,
        0 < m.scroll && m.scroll + viewport <= m.rows() ==> m.on(pressed(Key::Up), viewport).scroll
            == m.scroll - 1,
{
    lemma_rounded_up(m.cfg.len as nat, m.cfg.bytes_per_row as nat);
}

/// `+` and `=` lengthen the refresh interval by 50 ms, to 10 s at most; `-` and `_` shorten it by 50 ms,
/// to 10 ms at least. Nothing else changes.
pub proof fn lemma_refresh_keys(m: AppModel, c: char, viewport: nat)
    requires
        !m.input_mode,
    ensures
        ({
            let r = m.cfg.refresh.nanos;
            let post = m.on(pressed(Key::Char(c)), viewport);
            let n = post.cfg.refresh.nanos;
            &&& c == '+' || c == '=' || c == '-' || c == '_' ==> m.after_key(
                pressed(Key::Char(c)),
                viewport,
            ) == (
                AppModel { cfg: Config { refresh: Duration { nanos: n }, ..m.cfg }, ..m },
                Flow::Continue,
            )
            &&& c == '+' || c == '=' ==> (if r + 50_000_000 <= 10_000_000_000 {
                n == r + 50_000_000
            } else {
                n == 10_000_000_000
            })
            &&& c == '-' || c == '_' ==> (if r >= 50_000_000 + 10_000_000 {
                n == r - 50_000_000
            } else {
                n == 10_000_000
            })
        }),
{
}

/// While the prompt is closed: space flips the pause, Ctrl-G opens the prompt with nothing in it, `q`,
/// Esc and Ctrl-C end the monitor, `s` flips the overlay if there are symbols; keys that are for
/// nothing change nothing.
pub proof fn lemma_closed_prompt_keys(m: AppModel, k: KeyInput, viewport: nat)
    requires
        !m.input_mode,
        k.press,
    ensures
        k.key == Key::Char(' ') ==> m.after_key(k, viewport) == (
            AppModel { paused: !m.paused, ..m },
            Flow::Continue,
        ),
        k == ctrl_pressed(Key::Char('g')) ==> m.after_key(k, viewport) == (
            AppModel { input_mode: true, input: Seq::empty(), ..m },
            Flow::Continue,
        ),
        k.key == Key::Esc || k.key == Key::Char('q') || k == ctrl_pressed(Key::Char('c'))
            ==> m.after_key(k, viewport) == (m, Flow::Quit),
        k.key == Key::Char('s') && m.symbols is Some ==> m.after_key(k, viewport) == (
            AppModel { overlay: !m.overlay, ..m },
            Flow::Continue,
        ),
        k.key == Key::Enter || k.key == Key::Backspace || k.key == Key::Other ==> m.after_key(
            k,
            viewport,
        ) == (m, Flow::Continue),
        k == pressed(Key::Char('c')) ==> m.after_key(k, viewport) == (m, Flow::Continue),
        k.key matches Key::Char(c) ==> c != ' ' && c != 'g' && c != 'q' && c != 'c' && c != '+' && c
            != '=' && c != '-' && c != '_' && c != 's' && c != 'G' ==> m.after_key(k, viewport) == (
            m,
            Flow::Continue,
        ),
        // With Ctrl held, the other keys do as they do without.
        k.ctrl && k.key != Key::Char('g') && k.key != Key::Char('c') ==> m.after_key(k, viewport)
            == m.after_key(pressed(k.key), viewport),
{
}

/// While the prompt is open: Esc closes and empties it, Backspace takes the last character away, a
/// character is added if the prompt takes it, Ctrl-C ends the monitor. Enter jumps to where the text
/// leads and closes the prompt, or does nothing where it leads nowhere.
pub proof fn lemma_open_prompt_keys(m: AppModel, k: KeyInput, viewport: nat)
    requires
        m.input_mode,
        k.press,
    ensures
        k.key == Key::Esc ==> m.after_key(k, viewport) == (
            AppModel { input_mode: false, input: Seq::empty(), ..m },
            Flow::Continue,
        ),
        k.key == Key::Backspace && m.input.len() > 0 ==> m.after_key(k, viewport) == (
            AppModel { input: m.input.take(m.input.len() - 1), ..m },
            Flow::Continue,
        ),
        k.key == Key::Backspace && m.input.len() == 0 ==> m.after_key(k, viewport) == (
            m,
            Flow::Continue,
        ),
        k == ctrl_pressed(Key::Char('c')) ==> m.after_key(k, viewport) == (m, Flow::Quit),
        k.key == Key::Enter ==> ({
            let leads = match prompt_address(m.input) {
                Ok(addr) => Some(addr),
                Err(_) => match m.symbols {
                    Some(table) => address_of(table.entries, trimmed(m.input)),
                    None => None,
                },
            };
            m.after_key(k, viewport) == match leads {
                Some(addr) => (
                    AppModel { input_mode: false, input: Seq::empty(), ..m.at(addr) },
                    Flow::Continue,
                ),
                None => (m, Flow::Continue),
            }
        }),
        k.key == Key::Up || k.key == Key::Down || k.key == Key::PageUp || k.key == Key::PageDown
            || k.key == Key::Home || k.key == Key::End || k.key == Key::Other ==> m.after_key(
            k,
            viewport,
        ) == (m, Flow::Continue),
{
    if m.input.len() > 0 {
        assert(m.input.drop_last() =~= m.input.take(m.input.len() - 1));
    }
}

/// What the prompt takes. Without symbols: digits, the letters `a` to `f` and `x` in either case, as long
/// as it holds fewer than ten bytes. With symbols: these, and without Ctrl every character that is no
/// control character. What it does not take changes nothing.
pub proof fn lemma_prompt_takes(m: AppModel, c: char, ctrl: bool, viewport: nat)
    requires
        m.input_mode,
        !(ctrl && c == 'c'),
    ensures
        ({
            let u = c as int;
            let of_address = 0x30 <= u <= 0x39 || 0x41 <= u <= 0x46 || 0x61 <= u <= 0x66 || c == 'x'
                || c == 'X';
            let control = u < 0x20 || 0x7F <= u < 0xA0;
            let takes = if m.symbols is Some {
                of_address || (!ctrl && !control)
            } else {
                of_address && encode_utf8(m.input).len() < 10
            };
            m.after_key(KeyInput { key: Key::Char(c), ctrl, press: true }, viewport) == if takes {
                (AppModel { input: m.input.push(c), ..m }, Flow::Continue)
            } else {
                (m, Flow::Continue)
            }
        }),
{
}

} // verus!
