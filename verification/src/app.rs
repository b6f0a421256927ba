//! Application state: the current memory snapshot plus per-byte change tracking.

use crate::reader::{MemReader, MockReader};
use crate::symbols::{SymbolTable, TableModel};
use crate::time::{elapsed, Duration, Instant};
use vstd::prelude::*;

verus! {

/// The byte order in which words are shown.
#[derive(Clone, Copy, Debug, PartialEq, Eq, Structural)]
pub enum Endian {
    Little,
    Big,
}

/// What is monitored, and how it is shown.
#[derive(Clone, Copy, Debug)]
pub struct Config {
    pub addr: u32,
    pub len: usize,
    pub bytes_per_row: usize,
    /// 1, 2 or 4.
    pub word_size: usize,
    pub endian: Endian,
    pub refresh: Duration,
    pub highlight: Duration,
}

/// The monitor's state.
pub struct App {
    pub cfg: Config,
    /// Latest snapshot of the region.
    pub data: Vec<u8>,
    /// Whether a byte has ever been populated (the first read shouldn't flash everything).
    pub seeded: bool,
    /// Per-byte timestamp of the last observed change.
    pub last_change: Vec<Option<Instant>>,
    /// Vertical scroll offset, in rows.
    pub scroll: usize,
    pub paused: bool,
    pub status: String,
    pub last_read_ok: bool,
    pub reads: u64,
    pub last_refresh: Instant,
    /// When true, the address-entry prompt is active.
    pub input_mode: bool,
    /// Buffer for the address-entry prompt.
    pub input: String,
    /// Forces a read on the next loop iteration (used after a jump).
    pub force_refresh: bool,
    /// The symbols of the target's ELF file, when one was given.
    pub symbols: Option<SymbolTable>,
    /// Whether symbols are shown.
    pub overlay: bool,
}

/// The monitor's state, as values.
#[verifier::ext_equal]
pub struct AppModel {
    pub cfg: Config,
    pub data: Seq<u8>,
    pub seeded: bool,
    pub last_change: Seq<Option<Instant>>,
    pub scroll: usize,
    pub paused: bool,
    pub status: Seq<char>,
    pub last_read_ok: bool,
    pub reads: u64,
    pub last_refresh: Instant,
    pub input_mode: bool,
    pub input: Seq<char>,
    pub force_refresh: bool,
    pub symbols: Option<TableModel>,
    pub overlay: bool,
}

impl View for App {
    type V = AppModel;

    open spec fn view(&self) -> AppModel {
        AppModel {
            cfg: self.cfg,
            data: self.data@,
            seeded: self.seeded,
            last_change: self.last_change@,
            scroll: self.scroll,
            paused: self.paused,
            status: self.status@,
            last_read_ok: self.last_read_ok,
            reads: self.reads,
            last_refresh: self.last_refresh,
            input_mode: self.input_mode,
            input: self.input@,
            force_refresh: self.force_refresh,
            symbols: match self.symbols {
                Some(t) => Some(t@),
                None => None,
            },
            overlay: self.overlay,
        }
    }
}

/// `a / b`, rounded up.
pub open spec fn rounded_up(a: nat, b: nat) -> nat {
    ((a + b - 1) / b as int) as nat
}

/// `n` zero bytes.
pub open spec fn zeros(n: nat) -> Seq<u8> {
    Seq::new(n, |i: int| 0u8)
}

/// No change seen, for `n` bytes.
pub open spec fn no_changes(n: nat) -> Seq<Option<Instant>> {
    Seq::new(n, |i: int| None::<Instant>)
}

/// What a read brought: the bytes and the reader's description of itself, or the error's text.
pub type ReadOutcome = Result<(Seq<u8>, Seq<char>), Seq<char>>;

impl AppModel {
    /// The state before the first read.
    pub open spec fn fresh(cfg: Config, now: Instant) -> AppModel {
        AppModel {
            cfg,
            data: zeros(cfg.len as nat),
            seeded: false,
            last_change: no_changes(cfg.len as nat),
            scroll: 0,
            paused: false,
            status: "starting…"@,
            last_read_ok: false,
            reads: 0,
            last_refresh: now,
            input_mode: false,
            input: Seq::empty(),
            force_refresh: false,
            symbols: None,
            overlay: false,
        }
    }

    /// Nothing was read since the start or the last jump.
    pub open spec fn unread(self) -> bool {
        !self.seeded && self.last_change == no_changes(self.cfg.len as nat)
    }

    /// The snapshot and the change times are as long as the region.
    pub open spec fn wf(self) -> bool {
        &&& self.data.len() == self.cfg.len
        &&& self.last_change.len() == self.cfg.len
        &&& self.cfg.len <= isize::MAX
    }

    /// The rows that the region takes.
    pub open spec fn rows(self) -> nat {
        rounded_up(self.cfg.len as nat, self.cfg.bytes_per_row as nat)
    }

    /// The scroll offset at which the last of the region's rows is the last of `viewport` rows.
    pub open spec fn bottom(self, viewport: nat) -> nat {
        if self.rows() >= viewport {
            (self.rows() - viewport) as nat
        } else {
            0
        }
    }

    /// Is byte `i` within its highlight window?
    pub open spec fn hot(self, i: int, now: Instant) -> bool {
        0 <= i < self.last_change.len() && self.last_change[i] is Some && elapsed(
            self.last_change[i]->0,
            now,
        ) < self.cfg.highlight.nanos
    }

    /// The state after a jump to `addr`.
    pub open spec fn at(self, addr: u32) -> AppModel {
        AppModel {
            cfg: Config { addr, ..self.cfg },
            data: zeros(self.cfg.len as nat),
            last_change: no_changes(self.cfg.len as nat),
            seeded: false,
            scroll: 0,
            force_refresh: true,
            ..self
        }
    }

    /// The change times after `bytes` were read at `now`.
    pub open spec fn changes_after(self, bytes: Seq<u8>, now: Instant) -> Seq<Option<Instant>> {
        Seq::new(
            self.last_change.len(),
            |i: int|
                if self.seeded && bytes[i] != self.data[i] {
                    Some(now)
                } else {
                    self.last_change[i]
                },
        )
    }

    /// The state after a read at `now` that ended with `outcome`.
    pub open spec fn after_read(self, outcome: ReadOutcome, now: Instant) -> AppModel {
        match outcome {
            Ok((bytes, description)) => AppModel {
                last_change: self.changes_after(bytes, now),
                data: bytes,
                seeded: true,
                last_read_ok: true,
                reads: (self.reads + 1) as u64,
                status: description,
                last_refresh: now,
                ..self
            },
            Err(e) => AppModel {
                last_read_ok: false,
                status: "read error: "@ + e,
                last_refresh: now,
                ..self
            },
        }
    }

    /// The state after reads that all failed, with these errors at these times.
    pub open spec fn after_failures(self, failures: Seq<(Seq<char>, Instant)>) -> AppModel
        decreases failures.len(),
    {
        if failures.len() == 0 {
            self
        } else {
            self.after_failures(failures.drop_last()).after_read(
                Err(failures.last().0),
                failures.last().1,
            )
        }
    }

    /// Is a read to be made at `now`?
    pub open spec fn read_due(self, now: Instant) -> bool {
        self.force_refresh || (!self.paused && elapsed(self.last_refresh, now)
            >= self.cfg.refresh.nanos)
    }
}

fn zero_bytes(n: usize) -> (v: Vec<u8>)
    ensures
        v@ == zeros(n as nat),
{
    let v: Vec<u8> = vec![0u8; n];
    assert(v@ =~= zeros(n as nat));
    v
}

fn blank_changes(n: usize) -> (v: Vec<Option<Instant>>)
    ensures
        v@ == no_changes(n as nat),
{
    let v: Vec<Option<Instant>> = vec![None; n];
    assert(v@ =~= no_changes(n as nat));
    v
}

impl App {
    /// The state is consistent, and the symbol table is sorted.
    pub open spec fn wf(&self) -> bool {
        &&& self@.wf()
        &&& self.symbols matches Some(t) ==> t.wf()
    }

    /// A monitor that has read nothing yet.
    pub fn new(cfg: Config, now: Instant) -> (app: App)
        requires
            cfg.len <= isize::MAX,
        ensures
            app.wf(),
            app@ == AppModel::fresh(cfg, now),
    {
        let len: usize = cfg.len;
        App {
            cfg,
            data: zero_bytes(len),
            seeded: false,
            last_change: blank_changes(len),
            scroll: 0,
            paused: false,
            status: "starting…".to_owned(),
            last_read_ok: false,
            reads: 0,
            last_refresh: now,
            input_mode: false,
            input: String::new(),
            force_refresh: false,
            symbols: None,
            overlay: false,
        }
    }

    /// Shows the symbols of `table`.
    pub fn attach_symbols(&mut self, table: SymbolTable)
        requires
            table.wf(),
        ensures
            final(self)@ == (AppModel {
                symbols: Some(table@),
                overlay: true,
                ..old(self)@
            }),
            old(self).wf() ==> final(self).wf(),
    {
        self.symbols = Some(table);
        self.overlay = true;
    }

    /// The rows that the region takes.
    pub fn total_rows(&self) -> (n: usize)
        requires
            self.cfg.bytes_per_row > 0,
        ensures
            n == self@.rows(),
    {
        let q: usize = self.cfg.len / self.cfg.bytes_per_row;
        let r: usize = self.cfg.len % self.cfg.bytes_per_row;
        proof {
            lemma_rounded_up(self.cfg.len as nat, self.cfg.bytes_per_row as nat);
        }
        if r > 0 {
            q + 1
        } else {
            q
        }
    }

    /// Points the monitor at a new base address, discarding stale change state.
    pub fn goto(&mut self, addr: u32)
        requires
            old(self).cfg.len <= isize::MAX,
        ensures
            final(self)@ == old(self)@.at(addr),
            old(self).wf() ==> final(self).wf(),
    {
        self.cfg.addr = addr;
        self.data = zero_bytes(self.cfg.len);
        self.last_change = blank_changes(self.cfg.len);
        self.seeded = false;
        self.scroll = 0;
        self.force_refresh = true;
    }

    /// Takes in what a read at `now` brought: the bytes and the reader's description, or an error.
    pub fn record(&mut self, outcome: Result<(Vec<u8>, String), String>, now: Instant)
        requires
            old(self).wf(),
            outcome matches Ok((bytes, _)) ==> bytes@.len() == old(self).cfg.len && old(self).reads
                < u64::MAX,
        ensures
            final(self).wf(),
            match outcome {
                Ok((bytes, description)) => final(self)@ == old(self)@.after_read(
                    Ok((bytes@, description@)),
                    now,
                ),
                Err(e) => final(self)@ == old(self)@.after_read(Err(e@), now),
            },
    {
        match outcome {
            Ok((bytes, description)) => {
                let ghost before: AppModel = self@;
                if self.seeded {
                    let len: usize = self.cfg.len;
                    let mut i: usize = 0;
                    while i < len
                        invariant
                            i <= len,
                            len == before.cfg.len,
                            before.wf(),
                            before.seeded,
                            bytes@.len() == len,
                            self@ == (AppModel { last_change: self.last_change@, ..before }),
                            self.last_change@.len() == len,
                            forall|j: int|
                                0 <= j < i ==> #[trigger] self.last_change@[j]
                                    == before.changes_after(bytes@, now)[j],
                            forall|j: int|
                                i <= j < len ==> #[trigger] self.last_change@[j]
                                    == before.last_change[j],
                        decreases len - i,
                    {
                        if bytes[i] != self.data[i] {
                            self.last_change[i] = Some(now);
                        }
                        i = i + 1;
                    }
                }
                assert(self.last_change@ =~= before.changes_after(bytes@, now));
                self.data = bytes;
                self.seeded = true;
                self.last_read_ok = true;
                self.reads = self.reads + 1;
                self.status = description;
            },
            Err(e) => {
                self.last_read_ok = false;
                let mut text: String = "read error: ".to_owned();
                text.append(e.as_str());
                self.status = text;
            },
        }
        self.last_refresh = now;
    }

    /// Pulls a fresh snapshot and updates per-byte change timestamps.
    pub fn refresh<R: MemReader>(&mut self, reader: &mut R, now: Instant) -> (r: Result<
        (),
        String,
    >)
        requires
            old(self).wf(),
            old(self).reads < u64::MAX,
        ensures
            r == Ok::<(), String>(()),
            final(self).wf(),
            refreshed(old(self)@, old(reader), now, final(self)@, final(reader)),
    {
        let mut buf: Vec<u8> = zero_bytes(self.cfg.len);
        match reader.read(self.cfg.addr, buf.as_mut_slice()) {
            Ok(_) => {
                let description: String = reader.describe();
                self.record(Ok((buf, description)), now);
            },
            Err(e) => {
                self.record(Err(e), now);
            },
        }
        Ok(())
    }

    /// Reads if it is time to: after a jump, or when the refresh interval is over and the monitor
    /// is not paused.
    pub fn tick<R: MemReader>(&mut self, reader: &mut R, now: Instant) -> (r: Result<
        (),
        String,
    >)
        requires
            old(self).wf(),
            old(self).reads < u64::MAX,
        ensures
            r == Ok::<(), String>(()),
            final(self).wf(),
            ticked(old(self)@, old(reader), now, final(self)@, final(reader)),
    {
        let due: bool = now.duration_since(self.last_refresh).nanos >= self.cfg.refresh.nanos;
        if self.force_refresh || (!self.paused && due) {
            self.force_refresh = false;
            self.refresh(reader, now)
        } else {
            Ok(())
        }
    }

    /// Is byte `i` currently within its highlight window?
    pub fn is_hot(&self, i: usize, now: Instant) -> (hot: bool)
        ensures
            hot == self@.hot(i as int, now),
    {
        if i < self.last_change.len() {
            match self.last_change[i] {
                Some(t) => now.duration_since(t).nanos < self.cfg.highlight.nanos,
                None => false,
            }
        } else {
            false
        }
    }

    /// Scrolls by `delta` rows, no further than the first row or the bottom.
    pub fn scroll_by(&mut self, delta: isize, viewport_rows: usize)
        requires
            old(self).cfg.bytes_per_row > 0,
            old(self).cfg.len <= isize::MAX,
            isize::MIN <= old(self).scroll + delta <= isize::MAX,
            old(self).scroll <= isize::MAX,
        ensures
            final(self)@ == (AppModel {
                scroll: clamped(
                    old(self).scroll + delta,
                    old(self)@.bottom(viewport_rows as nat) as int,
                ) as usize,
                ..old(self)@
            }),
            old(self).wf() ==> final(self).wf(),
    {
        let max: usize = self.total_rows().saturating_sub(viewport_rows);
        proof {
            lemma_rows(self@);
        }
        let next: isize = self.scroll as isize + delta;
        self.scroll = if next < 0 {
            0
        } else if next > max as isize {
            max
        } else {
            next as usize
        };
    }

    /// Scrolls so that the last row is the last of the viewport.
    pub fn scroll_to_bottom(&mut self, viewport_rows: usize)
        requires
            old(self).cfg.bytes_per_row > 0,
        ensures
            final(self)@ == (AppModel {
                scroll: old(self)@.bottom(viewport_rows as nat) as usize,
                ..old(self)@
            }),
            old(self).wf() ==> final(self).wf(),
    {
        self.scroll = self.total_rows().saturating_sub(viewport_rows);
    }
}

/// Can a refresh at `now` take the monitor from `pre` to `post` and the reader from `reader` to
/// `reader_after`? The reader is asked for the region, and what it gives is taken in.
pub open spec fn refreshed<R: MemReader>(
    pre: AppModel,
    reader: &R,
    now: Instant,
    post: AppModel,
    reader_after: &R,
) -> bool {
    ||| exists|bytes: Seq<u8>, description: Seq<char>|
        {
            &&& bytes.len() == pre.cfg.len
            &&& #[trigger] R::may_read(
                reader,
                pre.cfg.addr,
                zeros(pre.cfg.len as nat),
                reader_after,
                Ok(bytes),
            )
            &&& #[trigger] reader_after.may_describe(description)
            &&& post == pre.after_read(Ok((bytes, description)), now)
        }
    ||| exists|e: Seq<char>|
        {
            &&& #[trigger] R::may_read(
                reader,
                pre.cfg.addr,
                zeros(pre.cfg.len as nat),
                reader_after,
                Err(e),
            )
            &&& post == pre.after_read(Err(e), now)
        }
}

/// Can a pass at `now` take the monitor from `pre` to `post` and the reader from `reader` to
/// `reader_after`? If a read is due, the region is refreshed, and none is asked for any more;
/// otherwise nothing happens.
pub open spec fn ticked<R: MemReader>(
    pre: AppModel,
    reader: &R,
    now: Instant,
    post: AppModel,
    reader_after: &R,
) -> bool {
    if pre.read_due(now) {
        refreshed(
            AppModel { force_refresh: false, ..pre },
            reader,
            now,
            post,
            reader_after,
        )
    } else {
        post == pre && *reader_after == *reader
    }
}

/// `x`, but no less than 0 and no more than `max`.
pub open spec fn clamped(x: int, max: int) -> int {
    if x < 0 {
        0
    } else if x > max {
        max
    } else {
        x
    }
}

/// Division that rounds up, by quotient and remainder.
pub proof fn lemma_rounded_up(a: nat, b: nat)
    requires
        b > 0,
    ensures
        rounded_up(a, b) == a / b + if a % b > 0 {
            1nat
        } else {
            0nat
        },
        rounded_up(a, b) <= a,
        rounded_up(a, b) * b < a + b,
        rounded_up(a, b) * b >= a,
{
    let q = (a / b) as int;
    let r = (a % b) as int;
    vstd::arithmetic::div_mod::lemma_fundamental_div_mod(a as int, b as int);
    assert(a == b * q + r);
    if r > 0 {
        assert(b * q + b == b * (q + 1)) by (nonlinear_arith);
        vstd::arithmetic::div_mod::lemma_fundamental_div_mod_converse(
            a + b - 1,
            b as int,
            q + 1,
            r - 1,
        );
        assert(q + 1 <= a) by (nonlinear_arith)
            requires
                a == b * q + r,
                b >= 1,
                r >= 1,
                q >= 0,
        ;
        assert((q + 1) * b == b * q + b) by (nonlinear_arith);
    } else {
        vstd::arithmetic::div_mod::lemma_fundamental_div_mod_converse(a + b - 1, b as int, q, b - 1);
        assert(q <= a) by (nonlinear_arith)
            requires
                a == b * q,
                b >= 1,
                q >= 0,
        ;
        assert(q * b == b * q) by (nonlinear_arith);
    }
}

/// A region takes no more rows than it has bytes.
proof fn lemma_rows(m: AppModel)
    requires
        m.cfg.bytes_per_row > 0,
    ensures
        m.rows() <= m.cfg.len,
{
    lemma_rounded_up(m.cfg.len as nat, m.cfg.bytes_per_row as nat);
}

// ---------------------------------------------------------------------------
// Laws
// ---------------------------------------------------------------------------

/// Reads that fail leave it so that nothing was read.
proof fn lemma_unread(m: AppModel, failures: Seq<(Seq<char>, Instant)>)
    requires
        m.unread(),
    ensures
        m.after_failures(failures).unread(),
    decreases failures.len(),
{
    if failures.len() > 0 {
        lemma_unread(m, failures.drop_last());
    }
}

/// The first read that succeeds after a start or a jump flashes nothing, whatever it brings and
/// however many reads failed before it.
pub proof fn lemma_first_read_flashes_nothing(
    cfg: Config,
    start: Instant,
    m: AppModel,
    addr: u32,
    failures: Seq<(Seq<char>, Instant)>,
    bytes: Seq<u8>,
    description: Seq<char>,
    now: Instant,
    i: int,
    t: Instant,
)
    ensures
        !AppModel::fresh(cfg, start).after_failures(failures).after_read(
            Ok((bytes, description)),
            now,
        ).hot(i, t),
        !m.at(addr).after_failures(failures).after_read(Ok((bytes, description)), now).hot(i, t),
{
    lemma_unread(AppModel::fresh(cfg, start), failures);
    lemma_unread(m.at(addr), failures);
}

/// No byte flashes after a refresh that succeeds, if none did before since the start or the last
/// jump, whatever the bytes are; a refresh that fails leaves it so.
pub proof fn lemma_first_refresh_flashes_nothing<R: MemReader>(
    pre: AppModel,
    reader: &R,
    now: Instant,
    post: AppModel,
    reader_after: &R,
    i: int,
    t: Instant,
)
    requires
        pre.unread(),
        refreshed(pre, reader, now, post, reader_after),
    ensures
        post.last_read_ok ==> !post.hot(i, t),
        !post.last_read_ok ==> post.unread(),
{
}

/// After a refresh that succeeds, a byte that differs from the snapshot before has changed at that
/// time, and every other byte when it had changed before.
pub proof fn lemma_refresh_marks_changes<R: MemReader>(
    pre: AppModel,
    reader: &R,
    now: Instant,
    post: AppModel,
    reader_after: &R,
    i: int,
    t: Instant,
)
    requires
        pre.wf(),
        pre.seeded,
        refreshed(pre, reader, now, post, reader_after),
        post.last_read_ok,
        0 <= i < pre.cfg.len,
    ensures
        post.last_change[i] == if post.data[i] != pre.data[i] {
            Some(now)
        } else {
            pre.last_change[i]
        },
        post.hot(i, t) == if post.data[i] != pre.data[i] {
            elapsed(now, t) < pre.cfg.highlight.nanos
        } else {
            pre.hot(i, t)
        },
{
}

/// After a read, a byte that changed is highlighted as long as the highlight lasts, and no other
/// byte's highlight begins or ends.
pub proof fn lemma_changes_flash(
    m: AppModel,
    bytes: Seq<u8>,
    description: Seq<char>,
    now: Instant,
    i: int,
    t: Instant,
)
    requires
        m.wf(),
        m.seeded,
        0 <= i < m.cfg.len,
    ensures
        m.after_read(Ok((bytes, description)), now).hot(i, t) == if bytes[i] != m.data[i] {
            elapsed(now, t) < m.cfg.highlight.nanos
        } else {
            m.hot(i, t)
        },
{
}

/// A highlight that is over stays over until the next read.
pub proof fn lemma_highlight_ends(m: AppModel, i: int, t: Instant, later: Instant)
    requires
        t.nanos <= later.nanos,
        !m.hot(i, t),
    ensures
        !m.hot(i, later),
{
}

/// A read that failed leaves the snapshot, the highlights and the count of reads as they are; it
/// tells its error.
pub proof fn lemma_failed_read(m: AppModel, error: Seq<char>, now: Instant, i: int, t: Instant)
    ensures
        ({
            let post = m.after_read(Err(error), now);
            &&& post.data == m.data
            &&& post.seeded == m.seeded
            &&& post.reads == m.reads
            &&& post.hot(i, t) == m.hot(i, t)
            &&& !post.last_read_ok
            &&& post.status == "read error: "@ + error
        }),
{
}

/// A jump drops all that was known of the old region and asks for a read at once, even while
/// paused. Of two jumps the last counts.
pub proof fn lemma_jump(m: AppModel, first: u32, addr: u32, i: int, t: Instant)
    requires
        m.wf(),
    ensures
        m.at(addr).wf(),
        m.at(addr).cfg.addr == addr,
        m.at(addr).data == zeros(m.cfg.len as nat),
        m.at(addr).scroll == 0,
        !m.at(addr).hot(i, t),
        m.at(addr).read_due(t),
        m.at(first).at(addr) == m.at(addr),
{
}

/// While the monitor is paused no read is due, unless a jump asked for one.
pub proof fn lemma_pause_stops_reads(m: AppModel, t: Instant)
    requires
        m.paused,
        !m.force_refresh,
    ensures
        !m.read_due(t),
{
}

/// After a read the next is due when the refresh interval is over, whether the read failed or not.
pub proof fn lemma_reads_keep_their_distance(
    m: AppModel,
    outcome: ReadOutcome,
    now: Instant,
    t: Instant,
)
    requires
        !m.paused,
        !m.force_refresh,
    ensures
        m.after_read(outcome, now).read_due(t) == (elapsed(now, t) >= m.cfg.refresh.nanos),
{
}

/// A pass reads if and only if a read was asked for, or the monitor is not paused and the refresh
/// interval is over. It then reads once, at the region's address, and the read that was asked for is
/// done; otherwise neither the monitor nor the reader changes.
pub proof fn lemma_pass<R: MemReader>(
    pre: AppModel,
    reader: &R,
    now: Instant,
    post: AppModel,
    reader_after: &R,
)
    requires
        ticked(pre, reader, now, post, reader_after),
    ensures
        pre.read_due(now) <==> pre.force_refresh || (!pre.paused && elapsed(pre.last_refresh, now)
            >= pre.cfg.refresh.nanos),
        pre.read_due(now) ==> post.last_refresh == now && exists|
            outcome: Result<Seq<u8>, Seq<char>>,
        | #[trigger]
            R::may_read(
                reader,
                pre.cfg.addr,
                zeros(pre.cfg.len as nat),
                reader_after,
                outcome,
            ) && (outcome matches Ok(bytes) ==> bytes == post.data),
        !pre.read_due(now) ==> post == pre && *reader_after == *reader,
        !post.force_refresh,
        post.paused == pre.paused,
        post.cfg == pre.cfg,
{
    let asked = AppModel { force_refresh: false, ..pre };
    let before = zeros(pre.cfg.len as nat);
    if pre.read_due(now) {
        if exists|bytes: Seq<u8>, description: Seq<char>|
            {
                &&& bytes.len() == asked.cfg.len
                &&& #[trigger] R::may_read(reader, asked.cfg.addr, before, reader_after, Ok(bytes))
                &&& #[trigger] reader_after.may_describe(description)
                &&& post == asked.after_read(Ok((bytes, description)), now)
            } {
            let (bytes, description) = choose|bytes: Seq<u8>, description: Seq<char>|
                {
                    &&& bytes.len() == asked.cfg.len
                    &&& #[trigger] R::may_read(
                        reader,
                        asked.cfg.addr,
                        before,
                        reader_after,
                        Ok(bytes),
                    )
                    &&& #[trigger] reader_after.may_describe(description)
                    &&& post == asked.after_read(Ok((bytes, description)), now)
                };
            let outcome: Result<Seq<u8>, Seq<char>> = Ok(bytes);
            assert(R::may_read(reader, pre.cfg.addr, before, reader_after, outcome));
        } else {
            let e = choose|e: Seq<char>|
                {
                    &&& #[trigger] R::may_read(reader, asked.cfg.addr, before, reader_after, Err(e))
                    &&& post == asked.after_read(Err(e), now)
                };
            let outcome: Result<Seq<u8>, Seq<char>> = Err(e);
            assert(R::may_read(reader, pre.cfg.addr, before, reader_after, outcome));
        }
    }
}

/// While the monitor is paused a jump brings one read: after the pass that makes it, none is due.
pub proof fn lemma_paused_jump_reads_once<R: MemReader>(
    pre: AppModel,
    reader: &R,
    now: Instant,
    post: AppModel,
    reader_after: &R,
    t: Instant,
)
    requires
        pre.paused,
        ticked(pre, reader, now, post, reader_after),
    ensures
        pre.read_due(now) <==> pre.force_refresh,
        !post.read_due(t),
{
}

/// A refresh from the synthetic region always succeeds: the snapshot is then the region as the
/// read left it.
pub proof fn lemma_mock_refresh(
    pre: AppModel,
    reader: &MockReader,
    now: Instant,
    post: AppModel,
    reader_after: &MockReader,
)
    requires
        pre.wf(),
        pre.reads < u64::MAX,
        0 < pre.cfg.len < 0x1_0000_0000,
        refreshed(pre, reader, now, post, reader_after),
    ensures
        post.last_read_ok,
        post.seeded,
        post.reads == pre.reads + 1,
        post.data == reader_after@.bytes(pre.cfg.addr, pre.cfg.len as nat),
        reader_after@ == reader@.mutated(pre.cfg.addr, pre.cfg.len as u32),
{
}

/// A new monitor shows zeros that nothing was read into, from the top, and waits for nothing: it is
/// neither paused nor asked for a read, the prompt is closed, and it has no symbols.
pub proof fn lemma_start(cfg: Config, now: Instant)
    ensures
        ({
            let m = AppModel::fresh(cfg, now);
            &&& m.cfg == cfg
            &&& m.data.len() == cfg.len
            &&& forall|i: int| 0 <= i < cfg.len ==> #[trigger] m.data[i] == 0
            &&& !m.seeded
            &&& m.last_change.len() == cfg.len
            &&& forall|i: int| 0 <= i < cfg.len ==> (#[trigger] m.last_change[i]) is None
            &&& m.scroll == 0
            &&& !m.paused
            &&& m.status == "starting…"@
            &&& !m.last_read_ok
            &&& m.reads == 0
            &&& m.last_refresh == now
            &&& !m.input_mode
            &&& m.input.len() == 0
            &&& !m.force_refresh
            &&& m.symbols is None
            &&& !m.overlay
        }),
{
}

/// A jump changes the address and drops the snapshot, the highlights and the scroll offset; all else
/// stays: the rest of the configuration, the pause, the status, the counter, the prompt, the symbols.
pub proof fn lemma_jump_keeps(m: AppModel, addr: u32)
    ensures
        ({
            let post = m.at(addr);
            &&& post.cfg == (Config { addr, ..m.cfg })
            &&& post.data.len() == m.cfg.len
            &&& forall|i: int| 0 <= i < m.cfg.len ==> #[trigger] post.data[i] == 0
            &&& post.last_change.len() == m.cfg.len
            &&& forall|i: int| 0 <= i < m.cfg.len ==> (#[trigger] post.last_change[i]) is None
            &&& !post.seeded
            &&& post.scroll == 0
            &&& post.force_refresh
            &&& post == (AppModel {
                cfg: post.cfg,
                data: post.data,
                last_change: post.last_change,
                seeded: false,
                scroll: 0,
                force_refresh: true,
                ..m
            })
        }),
{
}

/// A read that succeeded leaves the bytes that were read as the snapshot, the reader's description as
/// the status, its time as the time of the last refresh, and one more read; nothing else changes but
/// the times of changes.
pub proof fn lemma_good_read(m: AppModel, bytes: Seq<u8>, description: Seq<char>, now: Instant)
    requires
        m.reads < u64::MAX,
    ensures
        ({
            let post = m.after_read(Ok((bytes, description)), now);
            &&& post.data == bytes
            &&& post.status == description
            &&& post.last_refresh == now
            &&& post.reads == m.reads + 1
            &&& post.last_read_ok
            &&& post.seeded
            &&& post.last_change.len() == m.last_change.len()
            &&& post == (AppModel {
                data: bytes,
                status: description,
                last_refresh: now,
                reads: post.reads,
                last_read_ok: true,
                seeded: true,
                last_change: post.last_change,
                ..m
            })
        }),
{
}

/// A read that failed changes the status, its flag and the time of the last refresh, and nothing else.
pub proof fn lemma_failed_read_keeps(m: AppModel, error: Seq<char>, now: Instant)
    ensures
        m.after_read(Err(error), now) == (AppModel {
            status: "read error: "@ + error,
            last_read_ok: false,
            last_refresh: now,
            ..m
        }),
{
}

/// The time at which a byte changed: that of the last read that found it other than the read before,
/// unless it was the first.
pub proof fn lemma_change_times(m: AppModel, bytes: Seq<u8>, now: Instant, i: int)
    requires
        0 <= i < m.last_change.len(),
    ensures
        m.changes_after(bytes, now).len() == m.last_change.len(),
        m.seeded && bytes[i] != m.data[i] ==> m.changes_after(bytes, now)[i] == Some(now),
        !m.seeded || bytes[i] == m.data[i] ==> m.changes_after(bytes, now)[i] == m.last_change[i],
{
}

/// A byte is highlighted from when it changed until the highlight duration is over.
pub proof fn lemma_highlight_window(m: AppModel, i: int, change: Instant, t: Instant)
    requires
        0 <= i < m.last_change.len(),
    ensures
        m.last_change[i] is None ==> !m.hot(i, t),
        m.last_change[i] == Some(change) && t.nanos >= change.nanos ==> (m.hot(i, t) <==> t.nanos
            < change.nanos + m.cfg.highlight.nanos),
        m.last_change[i] == Some(change) && t.nanos < change.nanos ==> (m.hot(i, t) <==> 0
            < m.cfg.highlight.nanos),
        !m.hot(-1, t),
        !m.hot(m.last_change.len() as int, t),
{
}

/// When a read is due: at once after a jump; otherwise, unless the monitor is paused, as soon as the
/// refresh interval has passed since the last one.
pub proof fn lemma_due(m: AppModel, t: Instant)
    requires
        t.nanos >= m.last_refresh.nanos,
    ensures
        m.force_refresh ==> m.read_due(t),
        !m.force_refresh && m.paused ==> !m.read_due(t),
        !m.force_refresh && !m.paused ==> (m.read_due(t) <==> t.nanos >= m.last_refresh.nanos
            + m.cfg.refresh.nanos),
{
}

/// The rows of a region hold all its bytes, and none of them is empty. At the bottom, the last row is
/// the last of the viewport; a viewport that holds all rows has its bottom at the top.
pub proof fn lemma_rows_hold_the_region(m: AppModel, viewport: nat)
    requires
        m.cfg.bytes_per_row > 0,
    ensures
        m.rows() * m.cfg.bytes_per_row >= m.cfg.len,
        m.rows() > 0 ==> (m.rows() - 1) * m.cfg.bytes_per_row < m.cfg.len,
        m.rows() >= viewport ==> m.bottom(viewport) + viewport == m.rows(),
        m.rows() < viewport ==> m.bottom(viewport) == 0,
{
    let n = m.rows() as int;
    let b = m.cfg.bytes_per_row as int;
    lemma_rounded_up(m.cfg.len as nat, b as nat);
    assert((n - 1) * b == n * b - b) by (nonlinear_arith);
}

/// What a refresh does with what its reader gives. The reader is asked for the region, into a buffer of
/// zeros. If it succeeds, the bytes are the snapshot and the reader's description the status; if it
/// fails, its error is told and the snapshot stays.
pub proof fn lemma_refresh_outcome<R: MemReader>(
    pre: AppModel,
    reader: &R,
    now: Instant,
    post: AppModel,
    reader_after: &R,
    blank: Seq<u8>,
)
    requires
        pre.reads < u64::MAX,
        blank.len() == pre.cfg.len,
        forall|i: int| 0 <= i < blank.len() ==> #[trigger] blank[i] == 0,
        refreshed(pre, reader, now, post, reader_after),
    ensures
        post.last_refresh == now,
        post.cfg == pre.cfg,
        post.scroll == pre.scroll,
        post.paused == pre.paused,
        post.symbols == pre.symbols,
        post.overlay == pre.overlay,
        post.last_read_ok ==> post.reads == pre.reads + 1 && post.data.len() == pre.cfg.len
            && R::may_read(
            reader,
            pre.cfg.addr,
            blank,
            reader_after,
            Ok(post.data),
        ) && reader_after.may_describe(post.status),
        !post.last_read_ok ==> post.reads == pre.reads && post.data == pre.data && exists|
            e: Seq<char>,
        | #[trigger]
            R::may_read(
                reader,
                pre.cfg.addr,
                blank,
                reader_after,
                Err(e),
            ) && post.status == "read error: "@ + e,
{
    assert(zeros(pre.cfg.len as nat) =~= blank);
}

/// The model of a monitor is what its fields hold.
pub proof fn lemma_app_view(app: App)
    ensures
        app@.cfg == app.cfg,
        app@.data == app.data@,
        app@.seeded == app.seeded,
        app@.last_change == app.last_change@,
        app@.scroll == app.scroll,
        app@.paused == app.paused,
        app@.status == app.status@,
        app@.last_read_ok == app.last_read_ok,
        app@.reads == app.reads,
        app@.last_refresh == app.last_refresh,
        app@.input_mode == app.input_mode,
        app@.input == app.input@,
        app@.force_refresh == app.force_refresh,
        app.symbols is None ==> app@.symbols is None,
        app.symbols matches Some(t) ==> app@.symbols == Some(t@),
        app@.overlay == app.overlay,
{
}

} // verus!
