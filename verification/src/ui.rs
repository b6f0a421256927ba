//! Hexdump rendering, in the layout of the SEGGER J-Link Memory window: address column, word
//! columns (grouped values), then ASCII, then the symbols of the row.

use crate::app::{lemma_rounded_up, rounded_up, App, AppModel, Endian};
use crate::layout::{block_inner, divided, inside_border, reduced, split_rows, Area};
use crate::reader::address_after;
use crate::style::{
    bold, bold_on, bold_on_style, bold_style, colored, colored_style, dim, dim_style, line_models,
    one_line, plain, plain_style, push_span, span_models, Color, Line, Paragraph, ParagraphModel,
    Span, SpanModel, Style,
};
use crate::symbols::{
    enclosing, lemma_enclosing_is_nearest, lemma_starting_is_a_run, sorted, starting, Symbol,
    SymbolModel,
};
use crate::text::{
    decimal, format_decimal, format_hex, hex, lemma_hex_digit_count, pow256, repeated, short_name,
    shortened, space_padded,
};
use crate::time::{elapsed, Instant, NANOS_PER_MILLI};
use crate::word::{format_word, lemma_word_digits, lemma_word_text_width, word_text};
use vstd::prelude::*;

verus! {

/// The colour of what changed a moment ago.
pub const HOT: Color = Color::Red;

/// The colour of the address column and the column header.
pub const ADDR_COL: Color = Color::DarkGray;

/// The colour of the ASCII column.
pub const ASCII_COL: Color = Color::Gray;

/// The colour of the word columns.
pub const HEX_COL: Color = Color::White;

/// The colour of symbols that begin on a row.
pub const SYM_START: Color = Color::Cyan;

/// The colour of a symbol that goes on from an earlier row.
pub const SYM_CONT: Color = Color::DarkGray;

/// The rows that fit into a hexdump of this height, beside its borders and its header line.
pub open spec fn body_rows(area_height: u16) -> nat {
    if area_height >= 3 {
        (area_height - 3) as nat
    } else {
        0
    }
}

/// Number of body rows the hex viewport can show for a given total height.
pub fn viewport_rows(area_height: u16) -> (n: usize)
    ensures
        n == body_rows(area_height),
{
    // Area minus borders (2) minus header line (1).
    (area_height as usize).saturating_sub(3)
}

// ---------------------------------------------------------------------------
// Rows
// ---------------------------------------------------------------------------

/// The names of some symbols, separated by commas.
pub open spec fn label(s: Seq<SymbolModel>) -> Seq<char>
    decreases s.len(),
{
    if s.len() == 0 {
        Seq::empty()
    } else if s.len() == 1 {
        shortened(s[0].name)
    } else {
        label(s.drop_last()) + ", "@ + shortened(s.last().name)
    }
}

/// The first `n` labels of the column header: the offset of each word in its row.
pub open spec fn column_labels(word: nat, n: nat) -> Seq<char>
    decreases n,
{
    if n == 0 {
        Seq::empty()
    } else {
        column_labels(word, (n - 1) as nat) + space_padded(
            "+"@ + hex(((n - 1) * word) as nat, 1),
            2 * word + 1,
        )
    }
}

/// The column header: blanks over the addresses, then a label for each word.
pub open spec fn header(bytes_per_row: nat, word: nat) -> Seq<SpanModel> {
    seq![
        SpanModel {
            text: repeated(' ', 10) + column_labels(word, rounded_up(bytes_per_row, word)),
            style: dim(ADDR_COL),
        },
    ]
}

impl AppModel {
    /// Was one of the bytes from `from` up to `to` changed a moment ago?
    pub open spec fn any_hot(self, from: int, to: int, now: Instant) -> bool {
        exists|i: int| from <= i < to && #[trigger] self.hot(i, now)
    }

    /// How many bytes of the region the word at `off` has.
    pub open spec fn word_len(self, off: int) -> int {
        if self.cfg.word_size <= self.cfg.len - off {
            self.cfg.word_size as int
        } else {
            self.cfg.len - off
        }
    }

    /// The cell of the word at `off`: its value and a blank, or blanks behind the region's end.
    pub open spec fn word_cell(self, off: int, now: Instant) -> SpanModel {
        let word = self.cfg.word_size as nat;
        if off >= self.cfg.len {
            SpanModel { text: repeated(' ', 2 * word + 1), style: plain() }
        } else {
            let end = off + self.word_len(off);
            SpanModel {
                text: word_text(self.data.subrange(off, end), word, self.cfg.endian).push(' '),
                style: if self.any_hot(off, end, now) {
                    bold(HOT)
                } else {
                    colored(HEX_COL)
                },
            }
        }
    }

    /// The cell of the byte at `off` in the ASCII column.
    pub open spec fn ascii_cell(self, off: int, now: Instant) -> SpanModel {
        let b = self.data[off];
        SpanModel {
            text: seq![
                if 0x20 <= b < 0x7F {
                    b as char
                } else {
                    '.'
                },
            ],
            style: if self.hot(off, now) {
                bold(HOT)
            } else {
                colored(ASCII_COL)
            },
        }
    }

    /// How many bytes of the region the row at `row_off` has.
    pub open spec fn row_len(self, row_off: int) -> int {
        if self.cfg.bytes_per_row <= self.cfg.len - row_off {
            self.cfg.bytes_per_row as int
        } else {
            self.cfg.len - row_off
        }
    }

    /// The symbols at the end of the row at `row_off`: those that begin on it, or else the one that
    /// encloses its first byte, with the offset.
    pub open spec fn gutter(self, row_off: int) -> Seq<SpanModel> {
        let row_addr = address_after(self.cfg.addr, row_off);
        let gap = SpanModel { text: "   "@, style: plain() };
        if !self.overlay || self.symbols is None {
            Seq::empty()
        } else {
            let entries = self.symbols->0.entries;
            let starts = starting(
                entries,
                row_addr,
                (self.row_len(row_off) % 0x1_0000_0000) as u32,
            );
            if starts.len() > 0 {
                seq![gap, SpanModel { text: label(starts), style: bold(SYM_START) }]
            } else {
                match enclosing(entries, row_addr) {
                    Some((x, off)) => seq![
                        gap,
                        SpanModel {
                            text: shortened(x.name) + "+0x"@ + hex(off as nat, 1),
                            style: dim(SYM_CONT),
                        },
                    ],
                    None => Seq::empty(),
                }
            }
        }
    }

    /// The row of the hexdump that starts `row_off` bytes into the region.
    pub open spec fn hex_row(self, row_off: int, now: Instant) -> Seq<SpanModel> {
        let word = self.cfg.word_size as int;
        seq![
            SpanModel {
                text: hex(address_after(self.cfg.addr, row_off) as nat, 8) + "  "@,
                style: colored(ADDR_COL),
            },
        ] + Seq::new(
            rounded_up(self.cfg.bytes_per_row as nat, word as nat),
            |k: int| self.word_cell(row_off + k * word, now),
        ) + seq![SpanModel { text: " "@, style: plain() }] + Seq::new(
            self.row_len(row_off) as nat,
            |k: int| self.ascii_cell(row_off + k, now),
        ) + self.gutter(row_off)
    }

    /// How many of `visible` rows, from the scroll offset on, the region fills.
    pub open spec fn rows_shown(self, visible: nat) -> nat {
        if self.cfg.bytes_per_row == 0 {
            if self.cfg.len > 0 {
                visible
            } else {
                0
            }
        } else if self.scroll >= self.rows() {
            0
        } else if self.rows() - self.scroll <= visible {
            (self.rows() - self.scroll) as nat
        } else {
            visible
        }
    }

    /// The hexdump: the column header and the rows in view.
    pub open spec fn hex_lines(self, visible: nat, now: Instant) -> Seq<Seq<SpanModel>> {
        seq![header(self.cfg.bytes_per_row as nat, self.cfg.word_size as nat)] + Seq::new(
            self.rows_shown(visible),
            |k: int| self.hex_row((self.scroll + k) * self.cfg.bytes_per_row, now),
        )
    }

    /// The words can be laid out: they have at least one byte, and their text has a length.
    pub open spec fn drawable(self) -> bool {
        self.cfg.word_size > 0 && 2 * self.cfg.word_size + 1 <= usize::MAX
    }
}

fn blanks(n: usize) -> (out: String)
    ensures
        out@ == repeated(' ', n as nat),
{
    let mut out: String = String::new();
    let mut i: usize = 0;
    assert(out@ =~= repeated(' ', 0));
    while i < n
        invariant
            i <= n,
            out@ == repeated(' ', i as nat),
        decreases n - i,
    {
        out.push(' ');
        i = i + 1;
        assert(out@ =~= repeated(' ', i as nat));
    }
    out
}

/// How many words a row has, the last of which may be cut off.
fn columns(bytes_per_row: usize, word: usize) -> (n: usize)
    requires
        word > 0,
    ensures
        n == rounded_up(bytes_per_row as nat, word as nat),
        n <= bytes_per_row,
        n * word < bytes_per_row + word,
{
    proof {
        lemma_rounded_up(bytes_per_row as nat, word as nat);
    }
    let q: usize = bytes_per_row / word;
    if bytes_per_row % word > 0 {
        q + 1
    } else {
        q
    }
}

/// The "offset within row" header, for words of 4 bytes: `+0       +4       +8 ...`.
fn header_line(bytes_per_row: usize, word: usize) -> (line: Line)
    requires
        word > 0,
        2 * word + 1 <= usize::MAX,
    ensures
        line@ == header(bytes_per_row as nat, word as nat),
{
    let n: usize = columns(bytes_per_row, word);
    // Under the address digits and two blanks.
    let mut text: String = blanks(10);
    let ghost lead: Seq<char> = text@;
    let mut k: usize = 0;
    assert(text@ =~= lead + column_labels(word as nat, 0));
    while k < n
        invariant
            k <= n,
            n * word < bytes_per_row + word,
            word > 0,
            2 * word + 1 <= usize::MAX,
            text@ == lead + column_labels(word as nat, k as nat),
        decreases n - k,
    {
        assert(k * word <= usize::MAX) by {
            assert(k * word + word <= n * word) by (nonlinear_arith)
                requires
                    k < n,
                    word >= 0,
            ;
        }
        let col: usize = k * word;
        let mut cell: String = "+".to_owned();
        cell.append(format_hex(col as u64, 1).as_str());
        let size: usize = cell.as_str().unicode_len();
        let width: usize = word * 2 + 1;
        if size < width {
            cell.append(blanks(width - size).as_str());
        }
        let ghost before: Seq<char> = text@;
        text.append(cell.as_str());
        k = k + 1;
        assert(text@ =~= lead + column_labels(word as nat, k as nat));
    }
    let mut spans: Vec<Span> = Vec::new();
    push_span(&mut spans, text, dim_style(ADDR_COL));
    let line: Line = Line { spans };
    assert(line@ =~= header(bytes_per_row as nat, word as nat));
    line
}

/// The text for some symbols that begin on a row.
fn label_text(s: &Vec<&Symbol>) -> (out: String)
    ensures
        out@ == label(s@.map_values(|x: &Symbol| x@)),
{
    let ghost all: Seq<SymbolModel> = s@.map_values(|x: &Symbol| x@);
    let mut out: String = String::new();
    let mut i: usize = 0;
    while i < s.len()
        invariant
            i <= s.len(),
            all == s@.map_values(|x: &Symbol| x@),
            out@ == label(all.take(i as int)),
        decreases s.len() - i,
    {
        proof {
            assert(all.take(i + 1).drop_last() =~= all.take(i as int));
            assert(all.take(i + 1).last() == s@[i as int]@);
        }
        if i > 0 {
            out.append(", ");
        }
        out.append(short_name(s[i].name.as_str()).as_str());
        assert(out@ =~= label(all.take(i + 1)));
        i = i + 1;
    }
    assert(all.take(all.len() as int) =~= all);
    out
}

/// Is one of the bytes from `from` up to `to` within its highlight window?
fn any_hot(app: &App, from: usize, to: usize, now: Instant) -> (hot: bool)
    requires
        from <= to,
    ensures
        hot == app@.any_hot(from as int, to as int, now),
{
    let mut i: usize = from;
    while i < to
        invariant
            from <= i <= to,
            forall|j: int| from <= j < i ==> !#[trigger] app@.hot(j, now),
        decreases to - i,
    {
        if app.is_hot(i, now) {
            assert(app@.hot(i as int, now));
            return true;
        }
        i = i + 1;
    }
    false
}

/// Adds the cell of the word at `off`.
fn push_word_cell(spans: &mut Vec<Span>, app: &App, off: usize, now: Instant)
    requires
        app.wf(),
        app@.drawable(),
    ensures
        span_models(final(spans)@) == span_models(old(spans)@).push(app@.word_cell(off as int, now)),
{
    let word: usize = app.cfg.word_size;
    if off >= app.cfg.len {
        // Pad missing cells so the ASCII column stays aligned.
        push_span(spans, blanks(word * 2 + 1), plain_style());
        return;
    }
    let rest: usize = app.cfg.len - off;
    let w: usize = if word <= rest {
        word
    } else {
        rest
    };
    let bytes: &[u8] = vstd::slice::slice_subrange(app.data.as_slice(), off, off + w);
    let mut text: String = format_word(bytes, word, app.cfg.endian);
    text.push(' ');
    let style: Style = if any_hot(app, off, off + w, now) {
        bold_style(HOT)
    } else {
        colored_style(HEX_COL)
    };
    push_span(spans, text, style);
}

/// Adds the cell of the byte at `off` in the ASCII column.
fn push_ascii_cell(spans: &mut Vec<Span>, app: &App, off: usize, now: Instant)
    requires
        off < app.data@.len(),
    ensures
        span_models(final(spans)@) == span_models(old(spans)@).push(
            app@.ascii_cell(off as int, now),
        ),
{
    let b: u8 = app.data[off];
    let mut text: String = String::new();
    if 0x20 <= b && b < 0x7F {
        text.push(b as char);
    } else {
        text.push('.');
    }
    assert(text@ =~= app@.ascii_cell(off as int, now).text);
    let style: Style = if app.is_hot(off, now) {
        bold_style(HOT)
    } else {
        colored_style(ASCII_COL)
    };
    push_span(spans, text, style);
}

/// Adds the symbols of the row at `row_off`: name(s) starting on this row (bright), else the
/// enclosing symbol as a dim continuation marker.
fn push_gutter(spans: &mut Vec<Span>, app: &App, row_off: usize, row_addr: u32, row_len: usize)
    requires
        app.wf(),
        row_addr == address_after(app.cfg.addr, row_off as int),
        row_len == app@.row_len(row_off as int),
    ensures
        span_models(final(spans)@) == span_models(old(spans)@) + app@.gutter(row_off as int),
{
    let ghost before: Seq<SpanModel> = span_models(spans@);
    if app.overlay {
        match &app.symbols {
            Some(table) => {
                let len: u32 = (row_len as u64 % 0x1_0000_0000) as u32;
                let starts: Vec<&Symbol> = table.starting_in(row_addr, len);
                let ghost found: Seq<SymbolModel> = starts@.map_values(|x: &Symbol| x@);
                assert(found == starting(table.entries(), row_addr, len));
                if starts.len() > 0 {
                    push_span(spans, "   ".to_owned(), plain_style());
                    push_span(spans, label_text(&starts), bold_style(SYM_START));
                    assert(span_models(spans@) =~= before + app@.gutter(row_off as int));
                    return;
                }
                match table.containing(row_addr) {
                    Some((s, off)) => {
                        let mut text: String = short_name(s.name.as_str());
                        text.append("+0x");
                        text.append(format_hex(off as u64, 1).as_str());
                        push_span(spans, "   ".to_owned(), plain_style());
                        push_span(spans, text, dim_style(SYM_CONT));
                        assert(span_models(spans@) =~= before + app@.gutter(row_off as int));
                        return;
                    },
                    None => {},
                }
            },
            None => {},
        }
    }
    assert(span_models(spans@) =~= before + app@.gutter(row_off as int));
}

/// The row of the hexdump that starts `row_off` bytes into the region.
pub fn hex_line(app: &App, now: Instant, row_off: usize) -> (line: Line)
    requires
        app.wf(),
        app@.drawable(),
        row_off < app.cfg.len,
        row_off + app.cfg.bytes_per_row <= usize::MAX,
    ensures
        line@ == app@.hex_row(row_off as int, now),
{
    let bpr: usize = app.cfg.bytes_per_row;
    let word: usize = app.cfg.word_size;
    let ghost m: AppModel = app@;
    let mut spans: Vec<Span> = Vec::new();

    // Address column.
    let addr: u32 = app.cfg.addr.wrapping_add((row_off as u64 % 0x1_0000_0000) as u32);
    assert(addr == address_after(app.cfg.addr, row_off as int));
    let mut text: String = format_hex(addr as u64, 8);
    text.append("  ");
    push_span(&mut spans, text, colored_style(ADDR_COL));
    let ghost s1: Seq<SpanModel> = span_models(spans@);

    // Hex words.
    let n: usize = columns(bpr, word);
    let ghost cells: Seq<SpanModel> = Seq::new(
        n as nat,
        |k: int| m.word_cell(row_off + k * word, now),
    );
    let mut k: usize = 0;
    assert(s1 + cells.take(0) =~= s1);
    while k < n
        invariant
            k <= n,
            app.wf(),
            app@.drawable(),
            app@ == m,
            word == m.cfg.word_size,
            n * word < bpr + word,
            row_off + bpr <= usize::MAX,
            cells == Seq::new(n as nat, |k: int| m.word_cell(row_off + k * word, now)),
            span_models(spans@) == s1 + cells.take(k as int),
        decreases n - k,
    {
        assert(k * word + word <= n * word) by (nonlinear_arith)
            requires
                k < n,
                word >= 0,
        ;
        push_word_cell(&mut spans, app, row_off + k * word, now);
        assert(cells.take(k + 1) =~= cells.take(k as int).push(cells[k as int]));
        assert(s1 + cells.take(k + 1) =~= (s1 + cells.take(k as int)).push(cells[k as int]));
        k = k + 1;
    }
    assert(cells.take(n as int) =~= cells);
    push_span(&mut spans, " ".to_owned(), plain_style());
    let ghost s2: Seq<SpanModel> = span_models(spans@);
    assert(s2 =~= s1 + cells + seq![SpanModel { text: " "@, style: plain() }]);

    // ASCII column.
    let rest: usize = app.cfg.len - row_off;
    let row_len: usize = if bpr <= rest {
        bpr
    } else {
        rest
    };
    let ghost chars: Seq<SpanModel> = Seq::new(
        row_len as nat,
        |k: int| m.ascii_cell(row_off + k, now),
    );
    let mut k: usize = 0;
    assert(s2 + chars.take(0) =~= s2);
    while k < row_len
        invariant
            k <= row_len,
            app.wf(),
            app@ == m,
            row_off + row_len <= m.cfg.len,
            chars == Seq::new(row_len as nat, |k: int| m.ascii_cell(row_off + k, now)),
            span_models(spans@) == s2 + chars.take(k as int),
        decreases row_len - k,
    {
        push_ascii_cell(&mut spans, app, row_off + k, now);
        assert(chars.take(k + 1) =~= chars.take(k as int).push(chars[k as int]));
        assert(s2 + chars.take(k + 1) =~= (s2 + chars.take(k as int)).push(chars[k as int]));
        k = k + 1;
    }
    assert(chars.take(row_len as int) =~= chars);

    push_gutter(&mut spans, app, row_off, addr, row_len);
    let line: Line = Line { spans };
    proof {
        assert(s1 =~= seq![
            SpanModel {
                text: hex(addr as nat, 8) + "  "@,
                style: colored(ADDR_COL),
            },
        ]);
        assert(line@ =~= m.hex_row(row_off as int, now));
    }
    line
}

/// The hexdump: the column header and the rows in view, at most `visible` of them.
pub fn hex_lines(app: &App, now: Instant, visible: usize) -> (lines: Vec<Line>)
    requires
        app.wf(),
        app@.drawable(),
    ensures
        line_models(lines@) == app@.hex_lines(visible as nat, now),
{
    let bpr: usize = app.cfg.bytes_per_row;
    let ghost m: AppModel = app@;
    let mut lines: Vec<Line> = Vec::new();
    lines.push(header_line(bpr, app.cfg.word_size));
    let ghost top: Seq<Seq<SpanModel>> = seq![header(bpr as nat, m.cfg.word_size as nat)];
    assert(line_models(lines@) =~= top);
    let shown: usize = if bpr == 0 {
        if app.cfg.len > 0 {
            visible
        } else {
            0
        }
    } else {
        let rows: usize = app.total_rows();
        if app.scroll >= rows {
            0
        } else if rows - app.scroll <= visible {
            rows - app.scroll
        } else {
            visible
        }
    };
    let ghost rows: Seq<Seq<SpanModel>> = Seq::new(
        shown as nat,
        |k: int| m.hex_row((m.scroll + k) * bpr, now),
    );
    let mut k: usize = 0;
    assert(top + rows.take(0) =~= top);
    while k < shown
        invariant
            k <= shown,
            shown == m.rows_shown(visible as nat),
            app.wf(),
            app@.drawable(),
            app@ == m,
            bpr == m.cfg.bytes_per_row,
            rows == Seq::new(shown as nat, |k: int| m.hex_row((m.scroll + k) * bpr, now)),
            line_models(lines@) == top + rows.take(k as int),
        decreases shown - k,
    {
        let ghost at: int = (m.scroll + k) * bpr;
        let row_off: usize = if bpr == 0 {
            assert(at == 0) by (nonlinear_arith)
                requires
                    at == (m.scroll + k) * bpr,
                    bpr == 0,
            ;
            0
        } else {
            proof {
                lemma_row_offset(m, m.scroll + k);
            }
            (app.scroll + k) * bpr
        };
        let ghost before: Seq<Line> = lines@;
        let line: Line = hex_line(app, now, row_off);
        lines.push(line);
        proof {
            assert(line_models(lines@) =~= line_models(before).push(line@));
            assert(rows.take(k + 1) =~= rows.take(k as int).push(rows[k as int]));
            assert(top + rows.take(k + 1) =~= (top + rows.take(k as int)).push(rows[k as int]));
        }
        k = k + 1;
    }
    assert(rows.take(shown as int) =~= rows);
    assert(line_models(lines@) =~= m.hex_lines(visible as nat, now));
    lines
}

/// A row of the region starts within it, and its end is no farther than 64 bits reach.
proof fn lemma_row_offset(m: AppModel, row: int)
    requires
        m.wf(),
        m.cfg.bytes_per_row > 0,
        0 <= row < m.rows(),
    ensures
        row <= row * m.cfg.bytes_per_row < m.cfg.len,
        row * m.cfg.bytes_per_row + m.cfg.bytes_per_row <= usize::MAX,
{
    let b = m.cfg.bytes_per_row as int;
    let n = m.rows() as int;
    lemma_rounded_up(m.cfg.len as nat, b as nat);
    assert(row <= row * b && row * b + b <= n * b) by (nonlinear_arith)
        requires
            0 <= row < n,
            b > 0,
    ;
    if row == 0 {
        assert(row * b == 0);
    } else {
        assert(b <= row * b) by (nonlinear_arith)
            requires
                row >= 1,
                b > 0,
        ;
    }
}

// ---------------------------------------------------------------------------
// Title and footer
// ---------------------------------------------------------------------------

impl AppModel {
    /// The symbol that encloses the base address, as the title shows it.
    pub open spec fn title_symbol(self) -> Seq<char> {
        if !self.overlay || self.symbols is None {
            Seq::empty()
        } else {
            match enclosing(self.symbols->0.entries, self.cfg.addr) {
                Some((x, off)) => "  <"@ + shortened(x.name) + (if off == 0 {
                    Seq::empty()
                } else {
                    "+0x"@ + hex(off as nat, 1)
                }) + ">"@,
                None => Seq::empty(),
            }
        }
    }

    /// The text of the title.
    pub open spec fn title_text(self) -> Seq<char> {
        " Memory @ 0x"@ + hex(self.cfg.addr as nat, 8) + self.title_symbol() + "  +0x"@ + hex(
            self.cfg.len as nat,
            1,
        ) + " bytes  •  "@ + decimal((self.cfg.refresh.nanos / NANOS_PER_MILLI) as nat)
            + " ms refresh  •  "@ + self.status + (if self.paused {
            "  [PAUSED]"@
        } else {
            Seq::empty()
        }) + " "@
    }

    /// The title, whose colours tell whether the last read succeeded.
    pub open spec fn title(self) -> ParagraphModel {
        ParagraphModel {
            lines: seq![seq![SpanModel { text: self.title_text(), style: plain() }]],
            style: if self.last_read_ok {
                bold_on(Color::Black, Color::Cyan)
            } else {
                bold_on(Color::White, Color::Red)
            },
        }
    }

    /// The help on the symbol overlay, when there are symbols.
    pub open spec fn symbol_help(self) -> Seq<char> {
        match self.symbols {
            Some(table) => " │ s syms("@ + decimal(table.entries.len()) + "):"@ + (if self.overlay {
                "on"@
            } else {
                "off"@
            }),
            None => Seq::empty(),
        }
    }

    /// The footer: the prompt when it is active, else the help.
    pub open spec fn footer(self) -> ParagraphModel {
        if self.input_mode {
            ParagraphModel {
                lines: seq![
                    seq![
                        SpanModel {
                            text: if self.symbols is Some {
                                " Go to address / symbol: "@
                            } else {
                                " Go to address: "@
                            },
                            style: bold_on(Color::Black, Color::Yellow),
                        },
                        SpanModel { text: self.input.push('\u{2588}'), style: bold(Color::Yellow) },
                        SpanModel {
                            text: "  (Enter to jump, Esc to cancel)"@,
                            style: colored(Color::DarkGray),
                        },
                    ],
                ],
                style: plain(),
            }
        } else {
            ParagraphModel {
                lines: seq![
                    seq![
                        SpanModel {
                            text:
                                " q quit │ space pause │ +/- refresh │ ↑/↓ PgUp/PgDn scroll │ g/G top/bottom │ ^G goto"@
                                + self.symbol_help() + " │ reads:"@ + decimal(self.reads as nat)
                                + " "@,
                            style: plain(),
                        },
                    ],
                ],
                style: colored(Color::DarkGray),
            }
        }
    }
}

fn title_symbol(app: &App) -> (out: String)
    requires
        app.wf(),
    ensures
        out@ == app@.title_symbol(),
{
    let mut out: String = String::new();
    if app.overlay {
        match &app.symbols {
            Some(table) => {
                match table.containing(app.cfg.addr) {
                    Some((s, off)) => {
                        out.append("  <");
                        out.append(short_name(s.name.as_str()).as_str());
                        if off != 0 {
                            out.append("+0x");
                            out.append(format_hex(off as u64, 1).as_str());
                        }
                        out.append(">");
                    },
                    None => {},
                }
            },
            None => {},
        }
    }
    assert(out@ =~= app@.title_symbol());
    out
}

/// The title: where the region is, how often it is read, and how the last read went.
pub fn draw_title(app: &App) -> (p: Paragraph)
    requires
        app.wf(),
    ensures
        p@ == app@.title(),
{
    let mut text: String = " Memory @ 0x".to_owned();
    text.append(format_hex(app.cfg.addr as u64, 8).as_str());
    text.append(title_symbol(app).as_str());
    text.append("  +0x");
    text.append(format_hex(app.cfg.len as u64, 1).as_str());
    text.append(" bytes  •  ");
    text.append(format_decimal(app.cfg.refresh.as_millis()).as_str());
    text.append(" ms refresh  •  ");
    text.append(app.status.as_str());
    if app.paused {
        text.append("  [PAUSED]");
    }
    text.append(" ");
    assert(text@ =~= app@.title_text());
    let style: Style = if app.last_read_ok {
        bold_on_style(Color::Black, Color::Cyan)
    } else {
        bold_on_style(Color::White, Color::Red)
    };
    let mut spans: Vec<Span> = Vec::new();
    push_span(&mut spans, text, plain_style());
    assert(span_models(spans@) =~= seq![SpanModel { text: app@.title_text(), style: plain() }]);
    one_line(spans, style)
}

/// The footer: the prompt when it is active, else the help.
pub fn draw_footer(app: &App) -> (p: Paragraph)
    requires
        app.wf(),
    ensures
        p@ == app@.footer(),
{
    let mut spans: Vec<Span> = Vec::new();
    if app.input_mode {
        let prompt: String = if app.symbols.is_some() {
            " Go to address / symbol: ".to_owned()
        } else {
            " Go to address: ".to_owned()
        };
        push_span(&mut spans, prompt, bold_on_style(Color::Black, Color::Yellow));
        let mut input: String = app.input.clone();
        input.push('\u{2588}');
        push_span(&mut spans, input, bold_style(Color::Yellow));
        push_span(
            &mut spans,
            "  (Enter to jump, Esc to cancel)".to_owned(),
            colored_style(Color::DarkGray),
        );
        assert(span_models(spans@) =~= app@.footer().lines[0]);
        return one_line(spans, plain_style());
    }
    let mut text: String =
        " q quit │ space pause │ +/- refresh │ ↑/↓ PgUp/PgDn scroll │ g/G top/bottom │ ^G goto".to_owned();
    match &app.symbols {
        Some(table) => {
            text.append(" │ s syms(");
            text.append(format_decimal(table.len() as u128).as_str());
            text.append("):");
            if app.overlay {
                text.append("on");
            } else {
                text.append("off");
            }
        },
        None => {},
    }
    text.append(" │ reads:");
    text.append(format_decimal(app.reads as u128).as_str());
    text.append(" ");
    assert(text@ =~= app@.footer().lines[0][0].text);
    push_span(&mut spans, text, plain_style());
    assert(span_models(spans@) =~= app@.footer().lines[0]);
    one_line(spans, colored_style(Color::DarkGray))
}

// ---------------------------------------------------------------------------
// The screen
// ---------------------------------------------------------------------------

/// Text and the area that it is shown in.
#[derive(Debug)]
pub struct Pane {
    pub area: Area,
    pub text: Paragraph,
}

/// Text and the area that it is shown in, with the text as characters.
#[verifier::ext_equal]
pub struct PaneModel {
    pub area: Area,
    pub text: ParagraphModel,
}

impl View for Pane {
    type V = PaneModel;

    open spec fn view(&self) -> PaneModel {
        PaneModel { area: self.area, text: self.text@ }
    }
}

/// The hexdump and the frame around it.
#[derive(Debug)]
pub struct HexPane {
    /// Where the frame is drawn: a border on all sides.
    pub frame: Area,
    /// What the frame's upper border says.
    pub caption: String,
    pub dump: Pane,
}

/// The hexdump and the frame around it, with the text as characters.
#[verifier::ext_equal]
pub struct HexPaneModel {
    pub frame: Area,
    pub caption: Seq<char>,
    pub dump: PaneModel,
}

impl View for HexPane {
    type V = HexPaneModel;

    open spec fn view(&self) -> HexPaneModel {
        HexPaneModel { frame: self.frame, caption: self.caption@, dump: self.dump@ }
    }
}

/// Everything on the screen.
#[derive(Debug)]
pub struct Screen {
    pub title: Pane,
    pub hex: HexPane,
    pub footer: Pane,
}

/// Everything on the screen, with the text as characters.
#[verifier::ext_equal]
pub struct ScreenModel {
    pub title: PaneModel,
    pub hex: HexPaneModel,
    pub footer: PaneModel,
}

impl View for Screen {
    type V = ScreenModel;

    open spec fn view(&self) -> ScreenModel {
        ScreenModel { title: self.title@, hex: self.hex@, footer: self.footer@ }
    }
}

impl AppModel {
    /// The hexdump in `area`: what the frame leaves of it, with one line for the column header.
    pub open spec fn hex_pane(self, area: Area, now: Instant) -> HexPaneModel {
        let inner = inside_border(area);
        HexPaneModel {
            frame: area,
            caption: " hexdump "@,
            dump: PaneModel {
                area: inner,
                text: ParagraphModel {
                    lines: self.hex_lines(reduced(inner.height, 1) as nat, now),
                    style: plain(),
                },
            },
        }
    }

    /// The screen at `now`, with an area for each part.
    pub open spec fn screen(self, title: Area, body: Area, footer: Area, now: Instant) -> ScreenModel {
        ScreenModel {
            title: PaneModel { area: title, text: self.title() },
            hex: self.hex_pane(body, now),
            footer: PaneModel { area: footer, text: self.footer() },
        }
    }
}

/// The hexdump in `area`, with its frame.
pub fn draw_hex(app: &App, now: Instant, area: Area) -> (pane: HexPane)
    requires
        app.wf(),
        app@.drawable(),
    ensures
        pane@ == app@.hex_pane(area, now),
{
    let inner: Area = block_inner(area);
    // One line for the column header.
    let visible: u16 = inner.height.saturating_sub(1);
    let lines: Vec<Line> = hex_lines(app, now, visible as usize);
    HexPane {
        frame: area,
        caption: " hexdump ".to_owned(),
        dump: Pane { area: inner, text: Paragraph { lines, style: plain_style() } },
    }
}

/// The screen at `now`, with an area for each part.
pub fn draw_in(app: &App, now: Instant, title: Area, body: Area, footer: Area) -> (screen: Screen)
    requires
        app.wf(),
        app@.drawable(),
    ensures
        screen@ == app@.screen(title, body, footer, now),
{
    Screen {
        title: Pane { area: title, text: draw_title(app) },
        hex: draw_hex(app, now, body),
        footer: Pane { area: footer, text: draw_footer(app) },
    }
}

/// The screen at `now`: a line for the title, the hexdump, a line for the footer.
pub fn draw(app: &App, now: Instant, area: Area) -> (screen: Screen)
    requires
        app.wf(),
        app@.drawable(),
    ensures
        divided(
            area,
            1,
            1,
            1,
            seq![screen.title.area, screen.hex.frame, screen.footer.area],
        ),
        screen@ == app@.screen(
            screen.title.area,
            screen.hex.frame,
            screen.footer.area,
            now,
        ),
{
    let parts: Vec<Area> = split_rows(area, 1, 1, 1);
    let screen: Screen = draw_in(app, now, parts[0], parts[1], parts[2]);
    assert(seq![screen@.title.area, screen@.hex.frame, screen@.footer.area] =~= parts@);
    screen
}

// ---------------------------------------------------------------------------
// Laws
// ---------------------------------------------------------------------------

/// The cells of words of 1, 2, 4 or 8 bytes are all equally wide, also those at the region's end and
/// behind it.
proof fn lemma_word_cell_width(m: AppModel, off: int, now: Instant)
    requires
        m.wf(),
        m.cfg.word_size == 1 || m.cfg.word_size == 2 || m.cfg.word_size == 4 || m.cfg.word_size
            == 8,
        off >= 0,
    ensures
        m.word_cell(off, now).text.len() == 2 * m.cfg.word_size + 1,
{
    if off < m.cfg.len {
        lemma_word_text_width(
            m.data.subrange(off, off + m.word_len(off)),
            m.cfg.word_size as nat,
            m.cfg.endian,
        );
    }
}

/// The text of a line.
pub open spec fn line_text(line: Seq<SpanModel>) -> Seq<char>
    decreases line.len(),
{
    if line.len() == 0 {
        Seq::empty()
    } else {
        line_text(line.drop_last()) + line.last().text
    }
}

/// The text of a line holds the text of each span, behind the text of those before it.
proof fn lemma_span_in_line(line: Seq<SpanModel>, k: int)
    requires
        0 <= k < line.len(),
    ensures
        ({
            let from = line_text(line.take(k)).len() as int;
            let to = from + line[k].text.len();
            &&& to <= line_text(line).len()
            &&& line_text(line).subrange(from, to) == line[k].text
            &&& line_text(line.take(k + 1)).len() == to
        }),
    decreases line.len(),
{
    let from = line_text(line.take(k)).len() as int;
    let to = from + line[k].text.len();
    let front = line.drop_last();
    assert(line.take(k + 1).drop_last() =~= line.take(k));
    assert(line.take(k + 1).last() == line[k]);
    if k == line.len() - 1 {
        assert(line.take(k) =~= front);
        assert(line.take(k + 1) =~= line);
    } else {
        assert(front.take(k) =~= line.take(k));
        lemma_span_in_line(front, k);
    }
    assert(line_text(line).subrange(from, to) =~= line[k].text);
}

/// Where the columns of a row begin, counted in characters.
proof fn lemma_column_starts(m: AppModel, row_off: int, now: Instant, k: int)
    requires
        m.wf(),
        m.cfg.word_size == 1 || m.cfg.word_size == 2 || m.cfg.word_size == 4 || m.cfg.word_size
            == 8,
        0 <= row_off < m.cfg.len,
        0 <= k <= rounded_up(m.cfg.bytes_per_row as nat, m.cfg.word_size as nat),
    ensures
        m.hex_row(row_off, now).len() >= rounded_up(
            m.cfg.bytes_per_row as nat,
            m.cfg.word_size as nat,
        ) + 2,
        line_text(m.hex_row(row_off, now).take(1 + k)).len() == 10 + k * (2 * m.cfg.word_size + 1),
    decreases k,
{
    let row = m.hex_row(row_off, now);
    let w = m.cfg.word_size as int;
    if k == 0 {
        let addr = address_after(m.cfg.addr, row_off) as nat;
        reveal_strlit("  ");
        assert(pow256(4) == 0x1_0000_0000) by {
            reveal_with_fuel(pow256, 5);
        }
        lemma_hex_digit_count(addr, 4);
        lemma_span_in_line(row, 0);
        assert(line_text(row.take(0)).len() == 0);
        assert(0 * (2 * w + 1) == 0);
    } else {
        lemma_column_starts(m, row_off, now, k - 1);
        assert(row[k] == m.word_cell(row_off + (k - 1) * w, now));
        assert(0 <= (k - 1) * w) by (nonlinear_arith)
            requires
                k >= 1,
                w >= 1,
        ;
        lemma_word_cell_width(m, row_off + (k - 1) * w, now);
        lemma_span_in_line(row, k);
        assert((k - 1) * (2 * w + 1) + (2 * w + 1) == k * (2 * w + 1)) by (nonlinear_arith);
    }
}

proof fn lemma_ascii_starts(m: AppModel, row_off: int, now: Instant, j: int)
    requires
        m.wf(),
        m.cfg.word_size == 1 || m.cfg.word_size == 2 || m.cfg.word_size == 4 || m.cfg.word_size
            == 8,
        0 <= row_off < m.cfg.len,
        0 <= j <= m.row_len(row_off),
    ensures
        ({
            let row = m.hex_row(row_off, now);
            let n = rounded_up(m.cfg.bytes_per_row as nat, m.cfg.word_size as nat) as int;
            &&& row.len() >= n + 2 + j
            &&& line_text(row.take(n + 2 + j)).len() == 11 + n * (2 * m.cfg.word_size + 1) + j
        }),
    decreases j,
{
    let row = m.hex_row(row_off, now);
    let n = rounded_up(m.cfg.bytes_per_row as nat, m.cfg.word_size as nat) as int;
    if j == 0 {
        lemma_column_starts(m, row_off, now, n);
        reveal_strlit(" ");
        assert(row[n + 1].text == " "@);
        lemma_span_in_line(row, n + 1);
    } else {
        lemma_ascii_starts(m, row_off, now, j - 1);
        assert(row[n + 1 + j] == m.ascii_cell(row_off + (j - 1), now));
        lemma_span_in_line(row, n + 1 + j);
    }
}

/// The first ten characters of a row.
proof fn lemma_address_column(m: AppModel, row_off: int, now: Instant)
    requires
        m.wf(),
        m.cfg.word_size == 1 || m.cfg.word_size == 2 || m.cfg.word_size == 4 || m.cfg.word_size
            == 8,
        0 <= row_off < m.cfg.len,
    ensures
        line_text(m.hex_row(row_off, now)).subrange(0, 10) == hex(
            address_after(m.cfg.addr, row_off) as nat,
            8,
        ) + "  "@,
{
    let row = m.hex_row(row_off, now);
    lemma_column_starts(m, row_off, now, 0);
    lemma_span_in_line(row, 0);
    assert(line_text(row.take(0)).len() == 0);
    assert(0 * (2 * m.cfg.word_size + 1) == 0);
}

/// The characters of word `k` of a row.
proof fn lemma_word_column(m: AppModel, row_off: int, now: Instant, k: int)
    requires
        m.wf(),
        m.cfg.word_size == 1 || m.cfg.word_size == 2 || m.cfg.word_size == 4 || m.cfg.word_size
            == 8,
        0 <= row_off < m.cfg.len,
        0 <= k < rounded_up(m.cfg.bytes_per_row as nat, m.cfg.word_size as nat),
    ensures
        ({
            let width = 2 * m.cfg.word_size + 1;
            line_text(m.hex_row(row_off, now)).subrange(
                10 + k * width,
                10 + k * width + width,
            ) == m.word_cell(row_off + k * m.cfg.word_size, now).text
        }),
{
    let row = m.hex_row(row_off, now);
    let w = m.cfg.word_size as int;
    lemma_column_starts(m, row_off, now, k);
    lemma_span_in_line(row, k + 1);
    assert(row[k + 1] == m.word_cell(row_off + k * w, now));
    assert(0 <= k * w) by (nonlinear_arith)
        requires
            k >= 0,
            w >= 1,
    ;
    lemma_word_cell_width(m, row_off + k * w, now);
}

/// The character before the ASCII column.
proof fn lemma_blank_column(m: AppModel, row_off: int, now: Instant)
    requires
        m.wf(),
        m.cfg.word_size == 1 || m.cfg.word_size == 2 || m.cfg.word_size == 4 || m.cfg.word_size
            == 8,
        0 <= row_off < m.cfg.len,
    ensures
        ({
            let n = rounded_up(m.cfg.bytes_per_row as nat, m.cfg.word_size as nat) as int;
            line_text(m.hex_row(row_off, now))[10 + n * (2 * m.cfg.word_size + 1)] == ' '
        }),
{
    let row = m.hex_row(row_off, now);
    let n = rounded_up(m.cfg.bytes_per_row as nat, m.cfg.word_size as nat) as int;
    let at = 10 + n * (2 * m.cfg.word_size + 1);
    lemma_column_starts(m, row_off, now, n);
    lemma_span_in_line(row, n + 1);
    reveal_strlit(" ");
    assert(row[n + 1].text == " "@);
    assert(0 <= n * (2 * m.cfg.word_size + 1)) by (nonlinear_arith)
        requires
            n >= 0,
            m.cfg.word_size >= 0,
    ;
    assert(line_text(row).subrange(at, at + 1)[0] == line_text(row)[at]);
}

/// Character `j` of a row's ASCII column.
proof fn lemma_ascii_column(m: AppModel, row_off: int, now: Instant, j: int)
    requires
        m.wf(),
        m.cfg.word_size == 1 || m.cfg.word_size == 2 || m.cfg.word_size == 4 || m.cfg.word_size
            == 8,
        0 <= row_off < m.cfg.len,
        0 <= j < m.row_len(row_off),
    ensures
        ({
            let n = rounded_up(m.cfg.bytes_per_row as nat, m.cfg.word_size as nat) as int;
            line_text(m.hex_row(row_off, now))[11 + n * (2 * m.cfg.word_size + 1) + j]
                == m.ascii_cell(row_off + j, now).text[0]
        }),
{
    let row = m.hex_row(row_off, now);
    let n = rounded_up(m.cfg.bytes_per_row as nat, m.cfg.word_size as nat) as int;
    let at = 11 + n * (2 * m.cfg.word_size + 1) + j;
    lemma_ascii_starts(m, row_off, now, j);
    assert(row[n + 2 + j] == m.ascii_cell(row_off + j, now));
    lemma_span_in_line(row, n + 2 + j);
    assert(0 <= n * (2 * m.cfg.word_size + 1)) by (nonlinear_arith)
        requires
            n >= 0,
            m.cfg.word_size >= 0,
    ;
    assert(line_text(row).subrange(at, at + 1)[0] == line_text(row)[at]);
}

/// How long a row is.
proof fn lemma_row_end(m: AppModel, row_off: int, now: Instant)
    requires
        m.wf(),
        m.cfg.word_size == 1 || m.cfg.word_size == 2 || m.cfg.word_size == 4 || m.cfg.word_size
            == 8,
        0 <= row_off < m.cfg.len,
        m.row_len(row_off) > 0,
    ensures
        ({
            let n = rounded_up(m.cfg.bytes_per_row as nat, m.cfg.word_size as nat) as int;
            let end = 11 + n * (2 * m.cfg.word_size + 1) + m.row_len(row_off);
            &&& end <= line_text(m.hex_row(row_off, now)).len()
            &&& m.gutter(row_off).len() == 0 ==> end == line_text(m.hex_row(row_off, now)).len()
        }),
{
    let row = m.hex_row(row_off, now);
    let n = rounded_up(m.cfg.bytes_per_row as nat, m.cfg.word_size as nat) as int;
    let last = m.row_len(row_off);
    lemma_ascii_starts(m, row_off, now, last);
    lemma_span_in_line(row, n + 1 + last);
    if m.gutter(row_off).len() == 0 {
        assert(row.take(n + 2 + last) =~= row);
    }
}

/// The columns of the hexdump line up, with `w` bytes to a word, from the same place in every row,
/// the last one included. The address has eight digits and two blanks. Word `k` begins at
/// 10 + k(2w + 1) and takes 2w + 1 characters, which are blank where it lies behind the region's end.
/// The ASCII column begins one blank behind the last word, at 11 + n(2w + 1) for `n` words in a row,
/// and has a character for each byte of the row: the byte's own where it is printable, else a dot.
#[verifier::rlimit(40)]
pub proof fn lemma_columns_line_up(m: AppModel, row_off: int, now: Instant, k: int, j: int)
    requires
        m.wf(),
        m.cfg.word_size == 1 || m.cfg.word_size == 2 || m.cfg.word_size == 4 || m.cfg.word_size
            == 8,
        0 <= row_off < m.cfg.len,
        0 <= k < rounded_up(m.cfg.bytes_per_row as nat, m.cfg.word_size as nat),
        0 <= j < m.row_len(row_off),
    ensures
        ({
            let text = line_text(m.hex_row(row_off, now));
            let w = m.cfg.word_size as int;
            let width = 2 * w + 1;
            let n = rounded_up(m.cfg.bytes_per_row as nat, w as nat) as int;
            let ascii = 11 + n * width;
            let b = m.data[row_off + j];
            &&& text.subrange(0, 10) == hex(
                address_after(m.cfg.addr, row_off) as nat,
                8,
            ) + "  "@
            &&& text.subrange(10 + k * width, 10 + k * width + width) == m.word_cell(
                row_off + k * w,
                now,
            ).text
            &&& row_off + k * w >= m.cfg.len ==> text.subrange(
                10 + k * width,
                10 + k * width + width,
            ) == repeated(' ', width as nat)
            &&& text[ascii - 1] == ' '
            &&& text[ascii + j] == if 0x20 <= b < 0x7F {
                b as char
            } else {
                '.'
            }
            &&& ascii + m.row_len(row_off) <= text.len()
            &&& m.gutter(row_off).len() == 0 ==> text.len() == ascii + m.row_len(row_off)
            &&& m.cfg.bytes_per_row % m.cfg.word_size == 0 ==> n == m.cfg.bytes_per_row as int / w
        }),
{
    let w = m.cfg.word_size as int;
    lemma_rounded_up(m.cfg.bytes_per_row as nat, w as nat);
    lemma_address_column(m, row_off, now);
    lemma_word_column(m, row_off, now, k);
    lemma_blank_column(m, row_off, now);
    lemma_ascii_column(m, row_off, now, j);
    lemma_row_end(m, row_off, now);
}

/// The colours of a row. A word is bold red if and only if one of its bytes is highlighted, and white
/// otherwise; behind the region's end it has no colour. A character is bold red if and only if its
/// byte is highlighted, and gray otherwise. The address is never red.
pub proof fn lemma_row_colours(m: AppModel, row_off: int, now: Instant, k: int, j: int)
    requires
        m.wf(),
        0 <= row_off < m.cfg.len,
        0 <= k < rounded_up(m.cfg.bytes_per_row as nat, m.cfg.word_size as nat),
        0 <= j < m.row_len(row_off),
    ensures
        ({
            let row = m.hex_row(row_off, now);
            let n = rounded_up(m.cfg.bytes_per_row as nat, m.cfg.word_size as nat) as int;
            let off = row_off + k * m.cfg.word_size;
            &&& row[0].style == colored(Color::DarkGray)
            &&& row[1 + k].style == if off >= m.cfg.len {
                plain()
            } else if exists|i: int| off <= i < off + m.word_len(off) && #[trigger] m.hot(i, now) {
                bold(Color::Red)
            } else {
                colored(Color::White)
            }
            &&& row[n + 2 + j].style == if m.hot(row_off + j, now) {
                bold(Color::Red)
            } else {
                colored(Color::Gray)
            }
        }),
{
    let row = m.hex_row(row_off, now);
    let n = rounded_up(m.cfg.bytes_per_row as nat, m.cfg.word_size as nat) as int;
    let w = m.cfg.word_size as int;
    assert(row[1 + k] == m.word_cell(row_off + k * w, now));
    assert(row[n + 2 + j] == m.ascii_cell(row_off + j, now));
}

/// The labels of the column header are as wide as the words below them, as long as an offset within
/// the row has no more digits than a word.
pub proof fn lemma_header_lines_up(word: nat, n: nat)
    requires
        word >= 1,
        n >= 1 ==> ((n - 1) * word) < pow256(word),
    ensures
        column_labels(word, n).len() == n * (2 * word + 1),
    decreases n,
{
    reveal_strlit("+");
    if n > 0 {
        let m = (n - 1) as nat;
        assert(m > 0 ==> (m - 1) * word <= m * word) by (nonlinear_arith);
        lemma_header_lines_up(word, m);
        lemma_hex_digit_count((m * word) as nat, word);
        assert(m * (2 * word + 1) + (2 * word + 1) == n * (2 * word + 1)) by (nonlinear_arith)
            requires
                n == m + 1,
        ;
        let cell = "+"@ + hex((m * word) as nat, 1);
        assert(cell.len() <= 2 * word + 1);
        assert(space_padded(cell, 2 * word + 1).len() == 2 * word + 1);
    } else {
        assert(0 * (2 * word + 1) == 0) by (nonlinear_arith);
    }
}

/// Every byte of the region has its place: it is in a row of its own offset, in the ASCII column,
/// and among the bytes of one of the row's words.
pub proof fn lemma_every_byte_has_a_place(m: AppModel, i: int, now: Instant)
    requires
        m.wf(),
        m.cfg.bytes_per_row > 0,
        m.cfg.word_size > 0,
        0 <= i < m.cfg.len,
    ensures
        ({
            let bpr = m.cfg.bytes_per_row as int;
            let w = m.cfg.word_size as int;
            let n = rounded_up(bpr as nat, w as nat) as int;
            let row_off = (i / bpr) * bpr;
            let k = (i % bpr) / w;
            &&& 0 <= i / bpr < m.rows()
            &&& 0 <= k < n
            &&& m.hex_row(row_off, now)[n + 2 + i % bpr] == m.ascii_cell(i, now)
            &&& m.hex_row(row_off, now)[1 + k] == m.word_cell(row_off + k * w, now)
            &&& row_off + k * w <= i < row_off + k * w + m.word_len(row_off + k * w)
        }),
{
    let bpr = m.cfg.bytes_per_row as int;
    let w = m.cfg.word_size as int;
    let n = rounded_up(bpr as nat, w as nat) as int;
    let q = i / bpr;
    let r = i % bpr;
    vstd::arithmetic::div_mod::lemma_fundamental_div_mod(i, bpr);
    assert(q * bpr == bpr * q) by (nonlinear_arith);
    assert(0 <= q) by (nonlinear_arith)
        requires
            i >= 0,
            bpr > 0,
            i == bpr * q + r,
            r < bpr,
    ;
    lemma_rounded_up(m.cfg.len as nat, bpr as nat);
    assert(q < m.rows()) by (nonlinear_arith)
        requires
            bpr * q <= i,
            i < m.cfg.len,
            m.rows() * bpr >= m.cfg.len,
            bpr > 0,
    ;
    let k = r / w;
    vstd::arithmetic::div_mod::lemma_fundamental_div_mod(r, w);
    assert(k * w == w * k) by (nonlinear_arith);
    assert(0 <= k) by (nonlinear_arith)
        requires
            r >= 0,
            w > 0,
            r == w * k + r % w,
            r % w < w,
    ;
    lemma_rounded_up(bpr as nat, w as nat);
    assert(k < n) by (nonlinear_arith)
        requires
            w * k <= r,
            r < bpr,
            n * w >= bpr,
            w > 0,
    ;
    assert(m.row_len(q * bpr) > r);
    assert(m.hex_row(q * bpr, now)[n + 2 + r] == m.ascii_cell(q * bpr + r, now));
    assert(m.hex_row(q * bpr, now)[1 + k] == m.word_cell(q * bpr + k * w, now));
}

/// A byte that a read found changed is red as long as the highlight lasts: itself in the ASCII
/// column, and the word that holds it.
pub proof fn lemma_changed_bytes_are_red(
    m: AppModel,
    bytes: Seq<u8>,
    description: Seq<char>,
    now: Instant,
    i: int,
    off: int,
    t: Instant,
)
    requires
        m.wf(),
        m.seeded,
        bytes.len() == m.cfg.len,
        0 <= off <= i < off + m.word_len(off),
        bytes[i] != m.data[i],
        elapsed(now, t) < m.cfg.highlight.nanos,
    ensures
        m.after_read(Ok((bytes, description)), now).ascii_cell(i, t).style == bold(HOT),
        m.after_read(Ok((bytes, description)), now).word_cell(off, t).style == bold(HOT),
{
    let post = m.after_read(Ok((bytes, description)), now);
    assert(post.hot(i, t));
}

/// Where no byte is highlighted, nothing in a row is red.
pub proof fn lemma_quiet_rows_are_not_red(m: AppModel, row_off: int, now: Instant, k: int)
    requires
        m.wf(),
        0 <= row_off < m.cfg.len,
        forall|i: int| !m.hot(i, now),
        0 <= k < m.hex_row(row_off, now).len(),
    ensures
        m.hex_row(row_off, now)[k].style.fg != Some(HOT),
{
    let n = rounded_up(m.cfg.bytes_per_row as nat, m.cfg.word_size as nat) as int;
    let row = m.hex_row(row_off, now);
    let w = m.cfg.word_size as int;
    if 1 <= k <= n {
        assert(row[k] == m.word_cell(row_off + (k - 1) * w, now));
    } else if n + 2 <= k < n + 2 + m.row_len(row_off) {
        assert(row[k] == m.ascii_cell(row_off + (k - n - 2), now));
    } else if k >= n + 2 + m.row_len(row_off) {
        assert(row[k] == m.gutter(row_off)[k - (n + 2 + m.row_len(row_off))]);
    }
}

/// A hexdump in an area has a viewport of as many rows as `viewport_rows` says of the area's height,
/// and shows the rows from the scroll offset on, as many as there are and fit.
pub proof fn lemma_viewport(m: AppModel, area: Area, now: Instant)
    ensures
        m.hex_pane(area, now).dump.text.lines.len() == 1 + m.rows_shown(body_rows(area.height)),
        m.rows_shown(body_rows(area.height)) <= body_rows(area.height),
{
}

/// Above the bottom no line of the viewport stays empty that a row could fill, and at the bottom
/// the last row is the last in view.
pub proof fn lemma_viewport_is_filled(m: AppModel, viewport: nat)
    requires
        m.wf(),
        m.cfg.bytes_per_row > 0,
        m.scroll <= m.bottom(viewport),
    ensures
        m.rows_shown(viewport) == if m.rows() <= viewport {
            m.rows()
        } else {
            viewport
        },
        m.scroll == m.bottom(viewport) && viewport > 0 ==> m.scroll + m.rows_shown(viewport)
            == m.rows(),
{
}

/// With the overlay off the screen is as it is without symbols.
pub proof fn lemma_overlay_off(m: AppModel, row_off: int, now: Instant)
    requires
        !m.overlay,
    ensures
        m.hex_row(row_off, now) == (AppModel { symbols: None, ..m }).hex_row(row_off, now),
        m.title() == (AppModel { symbols: None, ..m }).title(),
{
    let bare = AppModel { symbols: None, ..m };
    assert forall|off: int| #[trigger] m.word_cell(off, now) == bare.word_cell(off, now) by {
        assert forall|i: int| #[trigger] m.hot(i, now) == bare.hot(i, now) by {}
        let end = off + m.word_len(off);
        if m.any_hot(off, end, now) {
            let i = choose|i: int| off <= i < end && #[trigger] m.hot(i, now);
            assert(bare.hot(i, now));
        }
        if bare.any_hot(off, end, now) {
            let i = choose|i: int| off <= i < end && #[trigger] bare.hot(i, now);
            assert(m.hot(i, now));
        }
    }
    assert(m.hex_row(row_off, now) =~= bare.hex_row(row_off, now));
}

/// The gutter of a row names every symbol that begins on it.
pub proof fn lemma_label_names_all(s: Seq<SymbolModel>, i: int)
    requires
        0 <= i < s.len(),
    ensures
        exists|from: int, to: int|
            0 <= from <= to <= label(s).len() && #[trigger] label(s).subrange(from, to)
                == shortened(s[i].name),
    decreases s.len(),
{
    let all = label(s);
    let name = shortened(s[i].name);
    if s.len() == 1 {
        assert(all.subrange(0, all.len() as int) =~= name);
    } else if i == s.len() - 1 {
        assert(all.subrange(all.len() - name.len(), all.len() as int) =~= name);
    } else {
        let t = s.drop_last();
        lemma_label_names_all(t, i);
        let (from, to) = choose|from: int, to: int|
            0 <= from <= to <= label(t).len() && #[trigger] label(t).subrange(from, to)
                == shortened(t[i].name);
        assert(all.subrange(from, to) =~= label(t).subrange(from, to));
    }
}

/// The names of symbols follow one another, with a comma and a blank between them.
pub proof fn lemma_label(s: Seq<SymbolModel>, x: SymbolModel)
    ensures
        label(Seq::empty()).len() == 0,
        label(seq![x]) == shortened(x.name),
        s.len() > 0 ==> label(s.push(x)) == label(s) + ", "@ + shortened(x.name),
{
    assert(s.push(x).drop_last() =~= s);
}

/// How long a row is and what stands between its parts: a span for the address, one for each word, a
/// blank, one for each byte of the region in the row, and the gutter.
pub proof fn lemma_row_shape(m: AppModel, row_off: int, now: Instant)
    requires
        0 <= row_off < m.cfg.len,
        m.cfg.word_size > 0,
    ensures
        ({
            let row = m.hex_row(row_off, now);
            let n = rounded_up(m.cfg.bytes_per_row as nat, m.cfg.word_size as nat) as int;
            let len = if row_off + m.cfg.bytes_per_row <= m.cfg.len {
                m.cfg.bytes_per_row as int
            } else {
                m.cfg.len - row_off
            };
            &&& row.len() == n + 2 + len + m.gutter(row_off).len()
            &&& row[n + 1] == (SpanModel {
                text: " "@,
                style: Style { fg: None, bg: None, bold: false, dim: false },
            })
            &&& row.skip(n + 2 + len) == m.gutter(row_off)
        }),
{
    let row = m.hex_row(row_off, now);
    let n = rounded_up(m.cfg.bytes_per_row as nat, m.cfg.word_size as nat) as int;
    assert(row.skip(n + 2 + m.row_len(row_off)) =~= m.gutter(row_off));
}

/// The symbols at the end of a row, with the overlay on. The entries that start on the row, from its
/// address on as far as it has bytes, are named in bold cyan, in the table's order. If there is none, the
/// symbol that encloses the row's first address is named in dim gray, with the offset of the row in it.
/// If there is none either, the row ends with its characters.
#[verifier::rlimit(40)]
pub proof fn lemma_row_symbols(m: AppModel, row_off: int, now: Instant, row_addr: u32, len: int)
    requires
        0 <= row_off < m.cfg.len,
        m.cfg.word_size > 0,
        m.overlay,
        m.symbols is Some,
        sorted(m.symbols->0.entries),
        row_addr == (m.cfg.addr + row_off) % 0x1_0000_0000,
        len == m.cfg.bytes_per_row || len == m.cfg.len - row_off,
        len <= m.cfg.bytes_per_row,
        len <= m.cfg.len - row_off,
        len < 0x1_0000_0000,
    ensures
        ({
            let entries = m.symbols->0.entries;
            let row = m.hex_row(row_off, now);
            let end = rounded_up(m.cfg.bytes_per_row as nat, m.cfg.word_size as nat) + 2 + len;
            let gap = SpanModel {
                text: "   "@,
                style: Style { fg: None, bg: None, bold: false, dim: false },
            };
            exists|a: int, b: int|
                {
                    let starts = #[trigger] entries.subrange(a, b);
                    &&& 0 <= a <= b <= entries.len()
                    &&& forall|i: int| 0 <= i < a ==> (#[trigger] entries[i]).addr < row_addr
                    &&& forall|i: int|
                        a <= i < b ==> row_addr <= (#[trigger] entries[i]).addr < row_addr + len
                    &&& forall|i: int|
                        b <= i < entries.len() ==> (#[trigger] entries[i]).addr >= row_addr + len
                    &&& a < b ==> {
                        &&& row.len() == end + 2
                        &&& row[end] == gap
                        &&& row[end + 1].text == label(starts)
                        &&& row[end + 1].style == (Style {
                            fg: Some(Color::Cyan),
                            bg: None,
                            bold: true,
                            dim: false,
                        })
                    }
                    &&& a == b ==> match enclosing(entries, row_addr) {
                        Some((x, off)) => {
                            &&& row.len() == end + 2
                            &&& row[end] == gap
                            &&& row[end + 1].text == shortened(x.name) + "+0x"@ + hex(
                                (row_addr - x.addr) as nat,
                                1,
                            )
                            &&& row[end + 1].style == (Style {
                                fg: Some(Color::DarkGray),
                                bg: None,
                                bold: false,
                                dim: true,
                            })
                        },
                        None => row.len() == end,
                    }
                }
        }),
{
    let entries = m.symbols->0.entries;
    let n = (len % 0x1_0000_0000) as u32;
    assert(n == len);
    let starts = starting(entries, row_addr, n);
    lemma_row_shape(m, row_off, now);
    lemma_starting_is_a_run(entries, row_addr, n);
    lemma_enclosing_is_nearest(entries, row_addr);
    let (a, b) = choose|a: int, b: int|
        {
            &&& 0 <= a <= b <= entries.len()
            &&& starts == #[trigger] entries.subrange(a, b)
            &&& forall|i: int| 0 <= i < a ==> (#[trigger] entries[i]).addr < row_addr
            &&& forall|i: int| a <= i < b ==> row_addr <= (#[trigger] entries[i]).addr < row_addr + n
            &&& forall|i: int| b <= i < entries.len() ==> (#[trigger] entries[i]).addr >= row_addr + n
        };
    let row = m.hex_row(row_off, now);
    let end = rounded_up(m.cfg.bytes_per_row as nat, m.cfg.word_size as nat) + 2 + len;
    let gutter = m.gutter(row_off);
    assert(m.row_len(row_off) == len);
    assert(address_after(m.cfg.addr, row_off) == row_addr);
    assert(starts.len() == b - a);
    assert forall|i: int| 0 <= i < gutter.len() implies row[end + i] == #[trigger] gutter[i] by {
        assert(row.skip(end)[i] == row[end + i]);
    }
    if a == b {
        match enclosing(entries, row_addr) {
            Some((x, off)) => {
                assert(off == row_addr - x.addr);
                assert(gutter[1].text == shortened(x.name) + "+0x"@ + hex(off as nat, 1));
                assert(row[end + 1] == gutter[1]);
                assert(row[end] == gutter[0]);
            },
            None => {
                assert(gutter.len() == 0);
            },
        }
    } else {
        assert(row[end + 1] == gutter[1]);
        assert(row[end] == gutter[0]);
    }
    let s = entries.subrange(a, b);
}

/// Without the overlay, or without symbols, a row ends with its characters.
pub proof fn lemma_row_without_symbols(m: AppModel, row_off: int)
    requires
        !m.overlay || m.symbols is None,
    ensures
        m.gutter(row_off).len() == 0,
{
}

/// Character `p` of word `k` of a row.
proof fn lemma_in_word_column(m: AppModel, row_off: int, now: Instant, k: int, p: int)
    requires
        m.wf(),
        m.cfg.word_size == 1 || m.cfg.word_size == 2 || m.cfg.word_size == 4 || m.cfg.word_size
            == 8,
        0 <= row_off < m.cfg.len,
        0 <= k < rounded_up(m.cfg.bytes_per_row as nat, m.cfg.word_size as nat),
        0 <= p < 2 * m.cfg.word_size + 1,
    ensures
        line_text(m.hex_row(row_off, now))[10 + k * (2 * m.cfg.word_size + 1) + p] == m.word_cell(
            row_off + k * m.cfg.word_size,
            now,
        ).text[p],
{
    let row = m.hex_row(row_off, now);
    let w = m.cfg.word_size as int;
    let from = 10 + k * (2 * w + 1);
    let cell = m.word_cell(row_off + k * w, now);
    assert(0 <= k * w) by (nonlinear_arith)
        requires
            k >= 0,
            w >= 1,
    ;
    assert(0 <= k * (2 * w + 1)) by (nonlinear_arith)
        requires
            k >= 0,
            w >= 1,
    ;
    lemma_column_starts(m, row_off, now, k);
    assert(row[k + 1] == cell);
    lemma_span_in_line(row, k + 1);
    lemma_word_cell_width(m, row_off + k * w, now);
    let piece = line_text(row).subrange(from, from + cell.text.len());
    assert(piece == cell.text);
    assert(piece[p] == line_text(row)[from + p]);
}

/// A byte of the region shows in its row with two digits, the high one first, in the word that holds it:
/// in big-endian order after the bytes of the word that come before it, in little-endian order before
/// them. Where the region ends within the word, the bytes that are there stand at its end.
#[verifier::rlimit(40)]
pub proof fn lemma_row_shows_bytes(
    m: AppModel,
    row_off: int,
    now: Instant,
    k: int,
    r: int,
    len: int,
)
    requires
        m.wf(),
        m.cfg.word_size == 1 || m.cfg.word_size == 2 || m.cfg.word_size == 4 || m.cfg.word_size
            == 8,
        0 <= row_off,
        0 <= k < rounded_up(m.cfg.bytes_per_row as nat, m.cfg.word_size as nat),
        0 <= r < len,
        row_off + k * m.cfg.word_size + len <= m.cfg.len,
        len == m.cfg.word_size || (len < m.cfg.word_size && row_off + k * m.cfg.word_size + len
            == m.cfg.len),
    ensures
        ({
            let text = line_text(m.hex_row(row_off, now));
            let w = m.cfg.word_size as int;
            let b = m.data[row_off + k * w + r] as int;
            let at = 10 + k * (2 * w + 1) + match m.cfg.endian {
                Endian::Big => 2 * (w - len + r),
                Endian::Little => 2 * (w - 1 - r),
            };
            &&& text[at] == seq!['0', '1', '2', '3', '4', '5', '6', '7', '8', '9', 'A', 'B', 'C', 'D', 'E', 'F'][b / 16]
            &&& text[at + 1] == seq!['0', '1', '2', '3', '4', '5', '6', '7', '8', '9', 'A', 'B', 'C', 'D', 'E', 'F'][b % 16]
        }),
{
    let w = m.cfg.word_size as int;
    let off = row_off + k * w;
    assert(0 <= k * w) by (nonlinear_arith)
        requires
            k >= 0,
            w >= 1,
    ;
    assert(m.word_len(off) == len);
    let bytes = m.data.subrange(off, off + len);
    let p = match m.cfg.endian {
        Endian::Big => 2 * (w - len + r),
        Endian::Little => 2 * (w - 1 - r),
    };
    lemma_word_digits(bytes, w as nat, m.cfg.endian, r);
    assert(bytes[r] == m.data[off + r]);
    let text = word_text(bytes, w as nat, m.cfg.endian);
    assert(m.word_cell(off, now).text == text.push(' '));
    lemma_in_word_column(m, row_off, now, k, p);
    lemma_in_word_column(m, row_off, now, k, p + 1);
}

/// A word's cell is the text of its bytes and a blank; a word behind the region's end has blanks instead.
pub proof fn lemma_word_cells(m: AppModel, off: int, now: Instant)
    requires
        0 <= off,
        m.cfg.word_size > 0,
    ensures
        off + m.cfg.word_size <= m.cfg.len ==> m.word_cell(off, now).text == word_text(
            m.data.subrange(off, off + m.cfg.word_size),
            m.cfg.word_size as nat,
            m.cfg.endian,
        ) + seq![' '],
        off < m.cfg.len < off + m.cfg.word_size ==> m.word_cell(off, now).text == word_text(
            m.data.subrange(off, m.cfg.len as int),
            m.cfg.word_size as nat,
            m.cfg.endian,
        ) + seq![' '],
        off >= m.cfg.len ==> m.word_cell(off, now).text == Seq::new(
            (2 * m.cfg.word_size + 1) as nat,
            |i: int| ' ',
        ),
{
    if off < m.cfg.len {
        let end = off + m.word_len(off);
        let bare = word_text(m.data.subrange(off, end), m.cfg.word_size as nat, m.cfg.endian);
        assert(bare.push(' ') =~= bare + seq![' ']);
    } else {
        assert(m.word_cell(off, now).text =~= Seq::new(
            (2 * m.cfg.word_size + 1) as nat,
            |i: int| ' ',
        ));
    }
}

/// How many bytes of the region a word and a row have.
pub proof fn lemma_lengths(m: AppModel, off: int)
    ensures
        off + m.cfg.word_size <= m.cfg.len ==> m.word_len(off) == m.cfg.word_size,
        off + m.cfg.word_size > m.cfg.len ==> m.word_len(off) == m.cfg.len - off,
        off + m.cfg.bytes_per_row <= m.cfg.len ==> m.row_len(off) == m.cfg.bytes_per_row,
        off + m.cfg.bytes_per_row > m.cfg.len ==> m.row_len(off) == m.cfg.len - off,
{
}

/// The column header is dim gray: ten blanks, then for each word a plus sign and its offset in the row,
/// filled up with blanks to the width of a word.
pub proof fn lemma_header(bytes_per_row: nat, word: nat, n: nat)
    requires
        word > 0,
    ensures
        header(bytes_per_row, word).len() == 1,
        header(bytes_per_row, word)[0].text == Seq::new(10, |i: int| ' ') + column_labels(
            word,
            rounded_up(bytes_per_row, word),
        ),
        header(bytes_per_row, word)[0].style == (Style {
            fg: Some(Color::DarkGray),
            bg: None,
            bold: false,
            dim: true,
        }),
        column_labels(word, 0).len() == 0,
        column_labels(word, n + 1) == column_labels(word, n) + space_padded(
            "+"@ + hex(n * word, 1),
            2 * word + 1,
        ),
{
    assert(repeated(' ', 10) =~= Seq::new(10, |i: int| ' '));
    assert(((n + 1 - 1) * word) as nat == n * word);
}

/// The hexdump is the column header and the rows from the scroll offset on: all that there are, as far
/// as `visible` lines go.
pub proof fn lemma_hex_lines(m: AppModel, rows: int, visible: nat, now: Instant, k: int)
    requires
        m.wf(),
        m.cfg.bytes_per_row > 0,
        0 <= rows,
        rows * m.cfg.bytes_per_row >= m.cfg.len,
        (rows - 1) * m.cfg.bytes_per_row < m.cfg.len,
        m.cfg.len == 0 ==> rows == 0,
    ensures
        ({
            let lines = m.hex_lines(visible, now);
            let left = if m.scroll >= rows {
                0
            } else {
                rows - m.scroll
            };
            &&& lines.len() == 1 + if left <= visible {
                left
            } else {
                visible as int
            }
            &&& lines[0] == header(m.cfg.bytes_per_row as nat, m.cfg.word_size as nat)
            &&& 0 <= k < lines.len() - 1 ==> lines[1 + k] == m.hex_row(
                (m.scroll + k) * m.cfg.bytes_per_row,
                now,
            )
        }),
{
    let b = m.cfg.bytes_per_row as int;
    let n = m.rows() as int;
    lemma_rounded_up(m.cfg.len as nat, b as nat);
    assert(rows == n) by (nonlinear_arith)
        requires
            b > 0,
            rows * b >= m.cfg.len,
            (rows - 1) * b < m.cfg.len,
            n * b >= m.cfg.len,
            n * b < m.cfg.len + b,
            n >= 0,
            rows >= 0,
            m.cfg.len == 0 ==> rows == 0,
    ;
}

/// The rows that fit into a hexdump: its height without two lines for the border and one for the header.
pub proof fn lemma_body_rows(height: u16)
    ensures
        height >= 3 ==> body_rows(height) == height - 3,
        height < 3 ==> body_rows(height) == 0,
{
}

/// The title gives the address with eight digits, the symbol that encloses it, with the offset if there
/// is one, if symbols are shown, the length, the refresh interval in milliseconds, the status, and
/// whether the monitor is paused. It is black on cyan after a good read, white on red after a bad one.
#[verifier::rlimit(40)]
pub proof fn lemma_title(m: AppModel, millis: nat)
    requires
        millis * 1_000_000 <= m.cfg.refresh.nanos < (millis + 1) * 1_000_000,
    ensures
        ({
            let symbol = if m.overlay && m.symbols is Some {
                match enclosing(m.symbols->0.entries, m.cfg.addr) {
                    Some((x, off)) => if m.cfg.addr == x.addr {
                        "  <"@ + shortened(x.name) + ">"@
                    } else {
                        "  <"@ + shortened(x.name) + "+0x"@ + hex((m.cfg.addr - x.addr) as nat, 1)
                            + ">"@
                    },
                    None => Seq::empty(),
                }
            } else {
                Seq::empty()
            };
            let paused = if m.paused {
                "  [PAUSED]"@
            } else {
                Seq::empty()
            };
            &&& m.title().lines.len() == 1
            &&& m.title().lines[0].len() == 1
            &&& m.title().lines[0][0].text == " Memory @ 0x"@ + hex(m.cfg.addr as nat, 8) + symbol
                + "  +0x"@ + hex(m.cfg.len as nat, 1) + " bytes  •  "@ + decimal(millis)
                + " ms refresh  •  "@ + m.status + paused + " "@
            &&& m.title().lines[0][0].style == (Style {
                fg: None,
                bg: None,
                bold: false,
                dim: false,
            })
            &&& m.title().style == if m.last_read_ok {
                Style { fg: Some(Color::Black), bg: Some(Color::Cyan), bold: true, dim: false }
            } else {
                Style { fg: Some(Color::White), bg: Some(Color::Red), bold: true, dim: false }
            }
        }),
{
    assert(m.cfg.refresh.nanos as int / 1_000_000 == millis);
    if m.overlay && m.symbols is Some {
        let entries = m.symbols->0.entries;
        lemma_enclosing_is_nearest(entries, m.cfg.addr);
        match enclosing(entries, m.cfg.addr) {
            Some((x, off)) => {
                assert(off == m.cfg.addr - x.addr);
                let name = "  <"@ + shortened(x.name);
                let offset = "+0x"@ + hex(off as nat, 1);
                assert(name + Seq::<char>::empty() + ">"@ =~= name + ">"@);
                assert(name + offset + ">"@ =~= name + "+0x"@ + hex(off as nat, 1) + ">"@);
            },
            None => {},
        }
    }
}

/// The footer is the prompt with its text and a cursor while it is open, and the help otherwise, with
/// the number of symbols, whether they are shown, and the number of reads.
#[verifier::rlimit(40)]
pub proof fn lemma_footer(m: AppModel)
    ensures
        m.footer().lines.len() == 1,
        m.input_mode ==> {
            let line = m.footer().lines[0];
            &&& line.len() == 3
            &&& line[0].text == if m.symbols is Some {
                " Go to address / symbol: "@
            } else {
                " Go to address: "@
            }
            &&& line[0].style == (Style {
                fg: Some(Color::Black),
                bg: Some(Color::Yellow),
                bold: true,
                dim: false,
            })
            &&& line[1].text == m.input + seq!['\u{2588}']
            &&& line[1].style == (Style {
                fg: Some(Color::Yellow),
                bg: None,
                bold: true,
                dim: false,
            })
            &&& line[2].text == "  (Enter to jump, Esc to cancel)"@
            &&& line[2].style == (Style {
                fg: Some(Color::DarkGray),
                bg: None,
                bold: false,
                dim: false,
            })
            &&& m.footer().style == (Style { fg: None, bg: None, bold: false, dim: false })
        },
        !m.input_mode ==> {
            let line = m.footer().lines[0];
            let symbols = match m.symbols {
                Some(t) => " │ s syms("@ + decimal(t.entries.len()) + "):"@ + (if m.overlay {
                    "on"@
                } else {
                    "off"@
                }),
                None => Seq::empty(),
            };
            &&& line.len() == 1
            &&& line[0].text
                == " q quit │ space pause │ +/- refresh │ ↑/↓ PgUp/PgDn scroll │ g/G top/bottom │ ^G goto"@
                + symbols + " │ reads:"@ + decimal(m.reads as nat) + " "@
            &&& line[0].style == (Style { fg: None, bg: None, bold: false, dim: false })
            &&& m.footer().style == (Style {
                fg: Some(Color::DarkGray),
                bg: None,
                bold: false,
                dim: false,
            })
        },
{
    assert(m.input.push('\u{2588}') =~= m.input + seq!['\u{2588}']);
}

/// The screen is the title, the hexdump in a frame, one line of which is the column header, and the
/// footer, each in its area.
pub proof fn lemma_screen(m: AppModel, title: Area, body: Area, footer: Area, now: Instant)
    ensures
        ({
            let s = m.screen(title, body, footer, now);
            &&& s.title.area == title
            &&& s.title.text == m.title()
            &&& s.footer.area == footer
            &&& s.footer.text == m.footer()
            &&& s.hex.frame == body
            &&& s.hex.caption == " hexdump "@
            &&& s.hex.dump.area == inside_border(body)
            &&& s.hex.dump.text.style == (Style { fg: None, bg: None, bold: false, dim: false })
            &&& s.hex.dump.text.lines == m.hex_lines(body_rows(body.height), now)
        }),
{
}

/// The models of the screen and its parts are what their fields hold.
pub proof fn lemma_screen_views(s: Screen)
    ensures
        s@.title.area == s.title.area,
        s@.title.text == s.title.text@,
        s@.footer.area == s.footer.area,
        s@.footer.text == s.footer.text@,
        s@.hex.frame == s.hex.frame,
        s@.hex.caption == s.hex.caption@,
        s@.hex.dump.area == s.hex.dump.area,
        s@.hex.dump.text == s.hex.dump.text@,
{
}

} // verus!
