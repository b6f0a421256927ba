//! ELF symbol overlay: maps live addresses back to firmware symbol names.
//!
//! A table answers two questions while a region is rendered:
//!   * which symbol contains a given address (for the title and continuation rows), and
//!   * which symbols begin within a given byte span (for the row gutter).

use crate::elf::{elf_symbols, read_elf_symbols, ElfSymbol, ElfSymbolModel, SymbolClass};
use vstd::prelude::*;

verus! {

/// One named symbol with a 32-bit target address and its byte size (0 if none).
#[derive(Debug)]
pub struct Symbol {
    pub name: String,
    pub addr: u32,
    pub size: u32,
}

/// One named symbol.
#[verifier::ext_equal]
pub struct SymbolModel {
    pub name: Seq<char>,
    pub addr: u32,
    pub size: u32,
}

impl View for Symbol {
    type V = SymbolModel;

    open spec fn view(&self) -> SymbolModel {
        SymbolModel { name: self.name@, addr: self.addr, size: self.size }
    }
}

/// The models of a sequence of symbols.
pub open spec fn models(s: Seq<Symbol>) -> Seq<SymbolModel> {
    s.map_values(|x: Symbol| x@)
}

// ---------------------------------------------------------------------------
// Which symbols of a file are kept
// ---------------------------------------------------------------------------

/// The table entry for a symbol of the file: variables and functions with a name and an address
/// other than zero that fits in 32 bits. Of the size, the low 32 bits count.
pub open spec fn kept(s: ElfSymbolModel) -> Option<SymbolModel> {
    if (s.class == SymbolClass::Data || s.class == SymbolClass::Text) && 0 < s.address <= u32::MAX
        && s.name is Some && s.name->0.len() > 0 {
        Some(
            SymbolModel {
                name: s.name->0,
                addr: s.address as u32,
                size: (s.size % 0x1_0000_0000) as u32,
            },
        )
    } else {
        None
    }
}

/// The entries for the symbols of a file, in the file's order.
pub open spec fn all_kept(raw: Seq<ElfSymbolModel>) -> Seq<SymbolModel>
    decreases raw.len(),
{
    if raw.len() == 0 {
        Seq::empty()
    } else {
        match kept(raw.last()) {
            Some(s) => all_kept(raw.drop_last()).push(s),
            None => all_kept(raw.drop_last()),
        }
    }
}

// ---------------------------------------------------------------------------
// Sorting by address and size
// ---------------------------------------------------------------------------

/// Does `a` come no later than `b` by address, then size?
pub open spec fn in_order(a: SymbolModel, b: SymbolModel) -> bool {
    a.addr < b.addr || (a.addr == b.addr && a.size <= b.size)
}

/// Is `s` sorted by address, then size?
pub open spec fn sorted(s: Seq<SymbolModel>) -> bool {
    forall|i: int, j: int| 0 <= i <= j < s.len() ==> in_order(#[trigger] s[i], #[trigger] s[j])
}

/// `s` with `x` put behind all that come no later than it, counted from the end.
pub open spec fn inserted(s: Seq<SymbolModel>, x: SymbolModel) -> Seq<SymbolModel>
    decreases s.len(),
{
    if s.len() == 0 || in_order(s.last(), x) {
        s.push(x)
    } else {
        inserted(s.drop_last(), x).push(s.last())
    }
}

/// The stable sort of `s` by address, then size.
pub open spec fn stable_sort(s: Seq<SymbolModel>) -> Seq<SymbolModel>
    decreases s.len(),
{
    if s.len() == 0 {
        Seq::empty()
    } else {
        inserted(stable_sort(s.drop_last()), s.last())
    }
}

/// Two sequences merged from their ends; of equals, those of `a` come first.
spec fn merged(a: Seq<SymbolModel>, b: Seq<SymbolModel>) -> Seq<SymbolModel>
    decreases a.len() + b.len(),
{
    if a.len() == 0 {
        b
    } else if b.len() == 0 {
        a
    } else if in_order(a.last(), b.last()) {
        merged(a, b.drop_last()).push(b.last())
    } else {
        merged(a.drop_last(), b).push(a.last())
    }
}

/// Inserting into a merge is merging with an insertion.
proof fn lemma_insert_into_merged(a: Seq<SymbolModel>, b: Seq<SymbolModel>, x: SymbolModel)
    ensures
        inserted(merged(a, b), x) == merged(a, inserted(b, x)),
    decreases a.len() + b.len(),
{
    if a.len() == 0 {
    } else if b.len() == 0 {
        assert(inserted(b, x) =~= seq![x]);
        assert(seq![x].drop_last() =~= b);
        if !in_order(a.last(), x) {
            lemma_insert_into_merged(a.drop_last(), b, x);
            assert(merged(a.drop_last(), b) =~= a.drop_last());
        }
    } else {
        let m = merged(a, b);
        let bx = inserted(b, x);
        if in_order(b.last(), x) {
            assert(bx.drop_last() =~= b);
            if in_order(a.last(), x) {
            } else {
                lemma_insert_into_merged(a.drop_last(), b, x);
                assert(m.drop_last() =~= merged(a.drop_last(), b));
            }
        } else {
            assert(bx.drop_last() =~= inserted(b.drop_last(), x));
            if in_order(a.last(), b.last()) {
                lemma_insert_into_merged(a, b.drop_last(), x);
                assert(m.drop_last() =~= merged(a, b.drop_last()));
            } else {
                lemma_insert_into_merged(a.drop_last(), b, x);
                assert(m.drop_last() =~= merged(a.drop_last(), b));
            }
        }
    }
}

/// The sort of a whole is the merge of the sorts of its two parts.
proof fn lemma_sort_is_merge(a: Seq<SymbolModel>, b: Seq<SymbolModel>)
    ensures
        stable_sort(a + b) == merged(stable_sort(a), stable_sort(b)),
    decreases b.len(),
{
    if b.len() == 0 {
        assert(a + b =~= a);
    } else {
        assert((a + b).drop_last() =~= a + b.drop_last());
        lemma_sort_is_merge(a, b.drop_last());
        lemma_insert_into_merged(stable_sort(a), stable_sort(b.drop_last()), b.last());
    }
}

fn key_in_order(a: &Symbol, b: &Symbol) -> (r: bool)
    ensures
        r == in_order(a@, b@),
{
    a.addr < b.addr || (a.addr == b.addr && a.size <= b.size)
}

proof fn lemma_models_ends(s: Seq<Symbol>)
    requires
        s.len() > 0,
    ensures
        models(s.drop_last()) == models(s).drop_last(),
        models(s).last() == s.last()@,
        models(s).len() == s.len(),
{
    assert(models(s.drop_last()) =~= models(s).drop_last());
}

fn merge(a: Vec<Symbol>, b: Vec<Symbol>) -> (out: Vec<Symbol>)
    ensures
        models(out@) == merged(models(a@), models(b@)),
{
    let ghost whole: Seq<SymbolModel> = merged(models(a@), models(b@));
    let mut a: Vec<Symbol> = a;
    let mut b: Vec<Symbol> = b;
    // The end of the result, last symbol first.
    let mut rev: Vec<Symbol> = Vec::new();
    assert(models(rev@).reverse() =~= Seq::empty());
    assert(merged(models(a@), models(b@)) + Seq::<SymbolModel>::empty() =~= whole);
    while a.len() > 0 && b.len() > 0
        invariant
            whole == merged(models(a@), models(b@)) + models(rev@).reverse(),
        decreases a.len() + b.len(),
    {
        let ghost old_a: Seq<Symbol> = a@;
        let ghost old_b: Seq<Symbol> = b@;
        let ghost old_rev: Seq<Symbol> = rev@;
        proof {
            lemma_models_ends(a@);
            lemma_models_ends(b@);
        }
        let from_b: bool = key_in_order(&a[a.len() - 1], &b[b.len() - 1]);
        let next: Option<Symbol> = if from_b {
            b.pop()
        } else {
            a.pop()
        };
        match next {
            Some(x) => {
                rev.push(x);
                proof {
                    assert(models(rev@).reverse() =~= seq![x@] + models(old_rev).reverse());
                    if from_b {
                        assert(b@ =~= old_b.drop_last());
                    } else {
                        assert(a@ =~= old_a.drop_last());
                    }
                    assert(merged(models(old_a), models(old_b)) =~= merged(models(a@), models(b@))
                        + seq![x@]);
                    assert(whole =~= merged(models(a@), models(b@)) + models(rev@).reverse());
                }
            },
            None => {},
        }
    }
    let mut out: Vec<Symbol> = if a.len() > 0 {
        a
    } else {
        b
    };
    assert(models(out@) =~= merged(models(a@), models(b@)));
    while rev.len() > 0
        invariant
            whole == models(out@) + models(rev@).reverse(),
        decreases rev.len(),
    {
        let ghost old_out: Seq<Symbol> = out@;
        let ghost old_rev: Seq<Symbol> = rev@;
        match rev.pop() {
            Some(x) => {
                out.push(x);
                proof {
                    assert(models(old_rev).reverse() =~= seq![x@] + models(rev@).reverse());
                    assert(models(out@) =~= models(old_out) + seq![x@]);
                    assert(whole =~= models(out@) + models(rev@).reverse());
                }
            },
            None => {},
        }
    }
    assert(whole =~= models(out@));
    out
}

/// Sorts symbols by address, then size; equals keep their order.
fn sort_symbols(v: Vec<Symbol>) -> (out: Vec<Symbol>)
    ensures
        models(out@) == stable_sort(models(v@)),
    decreases v.len(),
{
    let n: usize = v.len();
    if n <= 1 {
        proof {
            if n == 1 {
                lemma_models_ends(v@);
                assert(models(v@).drop_last() =~= Seq::empty());
                reveal_with_fuel(stable_sort, 2);
                assert(models(v@) =~= Seq::<SymbolModel>::empty().push(models(v@).last()));
            } else {
                assert(models(v@) =~= Seq::empty());
            }
        }
        return v;
    }
    let ghost whole: Seq<Symbol> = v@;
    let mut front: Vec<Symbol> = v;
    let back: Vec<Symbol> = front.split_off(n / 2);
    proof {
        assert(models(whole) =~= models(front@) + models(back@));
        lemma_sort_is_merge(models(front@), models(back@));
    }
    let front: Vec<Symbol> = sort_symbols(front);
    let back: Vec<Symbol> = sort_symbols(back);
    merge(front, back)
}

// ---------------------------------------------------------------------------
// Dropping repeated entries
// ---------------------------------------------------------------------------

/// `s` without the entries that have the name and address of the entry kept just before them.
pub open spec fn without_repeats(s: Seq<SymbolModel>) -> Seq<SymbolModel>
    decreases s.len(),
{
    if s.len() == 0 {
        Seq::empty()
    } else {
        let front = without_repeats(s.drop_last());
        if front.len() > 0 && front.last().addr == s.last().addr && front.last().name
            == s.last().name {
            front
        } else {
            front.push(s.last())
        }
    }
}

/// The entries of the table for a file with these symbols.
pub open spec fn table_entries(raw: Seq<ElfSymbolModel>) -> Seq<SymbolModel> {
    without_repeats(stable_sort(all_kept(raw)))
}

fn drop_repeats(v: Vec<Symbol>) -> (out: Vec<Symbol>)
    ensures
        models(out@) == without_repeats(models(v@)),
{
    let ghost all: Seq<SymbolModel> = models(v@);
    let mut out: Vec<Symbol> = Vec::new();
    let mut rest: Vec<Symbol> = Vec::new();
    let mut v: Vec<Symbol> = v;
    // Turn the order round, so that symbols can be taken from the front.
    while v.len() > 0
        invariant
            all == models(v@) + models(rest@).reverse(),
        decreases v.len(),
    {
        let ghost old_v: Seq<Symbol> = v@;
        let ghost old_rest: Seq<Symbol> = rest@;
        match v.pop() {
            Some(x) => {
                rest.push(x);
                proof {
                    assert(models(rest@).reverse() =~= seq![x@] + models(old_rest).reverse());
                    assert(models(old_v) =~= models(v@) + seq![x@]);
                    assert(all =~= models(v@) + models(rest@).reverse());
                }
            },
            None => {},
        }
    }
    assert(all =~= models(rest@).reverse());
    assert(all.take(0) =~= Seq::empty());
    assert(models(out@) =~= Seq::empty());
    while rest.len() > 0
        invariant
            rest.len() <= all.len(),
            models(rest@).reverse() == all.skip(all.len() - rest.len()),
            models(out@) == without_repeats(all.take(all.len() - rest.len())),
        decreases rest.len(),
    {
        let ghost k: int = all.len() - rest.len();
        let ghost old_rest: Seq<Symbol> = rest@;
        let ghost old_out: Seq<Symbol> = out@;
        match rest.pop() {
            Some(x) => {
                proof {
                    assert(models(old_rest).reverse()[0] == x@);
                    assert(x@ == all[k]);
                    assert(all.take(k + 1).drop_last() =~= all.take(k));
                    assert(models(old_rest).reverse() =~= seq![x@] + models(rest@).reverse());
                    assert(models(rest@).reverse() =~= models(old_rest).reverse().drop_first());
                    assert(all.skip(k + 1) =~= all.skip(k).drop_first());
                    if out@.len() > 0 {
                        lemma_models_ends(out@);
                    }
                }
                let repeat: bool = out.len() > 0 && out[out.len() - 1].addr == x.addr && out[out.len()
                    - 1].name == x.name;
                if !repeat {
                    out.push(x);
                    assert(models(out@) =~= models(old_out).push(x@));
                }
            },
            None => {},
        }
    }
    assert(all.take(all.len() as int) =~= all);
    out
}

// ---------------------------------------------------------------------------
// Lookups
// ---------------------------------------------------------------------------

/// The first symbol for which `p` holds.
pub open spec fn first_match(s: Seq<SymbolModel>, p: spec_fn(SymbolModel) -> bool) -> Option<
    SymbolModel,
>
    decreases s.len(),
{
    if s.len() == 0 {
        None
    } else if p(s[0]) {
        Some(s[0])
    } else {
        first_match(s.drop_first(), p)
    }
}

/// The address of the first symbol named `name`.
pub open spec fn address_of(s: Seq<SymbolModel>, name: Seq<char>) -> Option<u32> {
    match first_match(s, |x: SymbolModel| x.name == name) {
        Some(x) => Some(x.addr),
        None => None,
    }
}

/// The size of the first symbol named `name` that has one.
pub open spec fn sized(s: Seq<SymbolModel>, name: Seq<char>) -> Option<u32> {
    match first_match(s, |x: SymbolModel| x.name == name && x.size > 0) {
        Some(x) => Some(x.size),
        None => None,
    }
}

/// The first address behind a span.
pub open spec fn span_end(addr: u32, len: u32) -> int {
    addr + len
}

/// Does `x` start at `addr`, or does its range hold `addr`?
pub open spec fn covers(x: SymbolModel, addr: u32) -> bool {
    x.addr == addr || x.addr <= addr < span_end(x.addr, x.size)
}

/// Does `x` enclose what it covers more tightly than `y`? It starts later or, from the same start, has
/// a size, where `y` has none or a larger one.
pub open spec fn nearer(x: SymbolModel, y: SymbolModel) -> bool {
    x.addr > y.addr || (x.addr == y.addr && x.size > 0 && (y.size == 0 || x.size < y.size))
}

/// Of the symbols that cover `addr`, the nearest: the one with the greatest start and, among those,
/// the smallest size, where any size goes before none. Of equals it is the last.
pub open spec fn nearest(s: Seq<SymbolModel>, addr: u32) -> Option<SymbolModel>
    decreases s.len(),
{
    if s.len() == 0 {
        None
    } else {
        match nearest(s.drop_last(), addr) {
            Some(x) => if covers(s.last(), addr) && !nearer(x, s.last()) {
                Some(s.last())
            } else {
                Some(x)
            },
            None => if covers(s.last(), addr) {
                Some(s.last())
            } else {
                None
            },
        }
    }
}

/// The symbol that encloses `addr`, with the offset of `addr` in it: the nearest of those that cover
/// it.
pub open spec fn enclosing(s: Seq<SymbolModel>, addr: u32) -> Option<(SymbolModel, u32)> {
    match nearest(s, addr) {
        Some(x) => Some((x, (addr - x.addr) as u32)),
        None => None,
    }
}

/// The symbols that start in the `len` bytes from `addr`.
pub open spec fn starting(s: Seq<SymbolModel>, addr: u32, len: u32) -> Seq<SymbolModel> {
    s.filter(|x: SymbolModel| addr <= x.addr < span_end(addr, len))
}

/// The nearest symbol covers the address, and no other that covers it is nearer.
proof fn lemma_nearest(s: Seq<SymbolModel>, addr: u32)
    ensures
        match nearest(s, addr) {
            Some(x) => exists|i: int|
                0 <= i < s.len() && #[trigger] s[i] == x && covers(x, addr) && forall|j: int|
                    0 <= j < s.len() && covers(#[trigger] s[j], addr) ==> !nearer(s[j], x),
            None => forall|i: int| 0 <= i < s.len() ==> !covers(#[trigger] s[i], addr),
        },
    decreases s.len(),
{
    if s.len() > 0 {
        let t = s.drop_last();
        let last = s.len() - 1;
        lemma_nearest(t, addr);
        assert forall|j: int| 0 <= j < last implies #[trigger] s[j] == t[j] by {}
        match nearest(t, addr) {
            Some(x) => {
                let i = choose|i: int|
                    0 <= i < t.len() && #[trigger] t[i] == x && covers(x, addr) && forall|j: int|
                        0 <= j < t.len() && covers(#[trigger] t[j], addr) ==> !nearer(t[j], x);
                assert(s[i] == x);
                assert(s[last] == s.last());
            },
            None => {
                assert(s[last] == s.last());
            },
        }
    }
}

/// A symbol that covers the address is the nearest if no other is nearer and none behind it is as
/// near.
proof fn lemma_nearest_is(s: Seq<SymbolModel>, addr: u32, b: int)
    requires
        0 <= b < s.len(),
        covers(s[b], addr),
        forall|j: int| 0 <= j < s.len() && covers(#[trigger] s[j], addr) ==> !nearer(s[j], s[b]),
        forall|j: int| b < j < s.len() && covers(#[trigger] s[j], addr) ==> nearer(s[b], s[j]),
    ensures
        nearest(s, addr) == Some(s[b]),
    decreases s.len(),
{
    let t = s.drop_last();
    assert forall|j: int| 0 <= j < t.len() implies #[trigger] t[j] == s[j] by {}
    lemma_nearest(t, addr);
    if b < t.len() {
        lemma_nearest_is(t, addr, b);
        assert(s[s.len() - 1] == s.last());
    } else {
        assert(s[b] == s.last());
        match nearest(t, addr) {
            Some(x) => {
                let i = choose|i: int| 0 <= i < t.len() && #[trigger] t[i] == x && covers(x, addr);
                assert(s[i] == x);
            },
            None => {},
        }
    }
}

/// A filter keeps what lies between two positions outside of which it keeps nothing.
proof fn lemma_filter_window(s: Seq<SymbolModel>, p: spec_fn(SymbolModel) -> bool, a: int, b: int)
    requires
        0 <= a <= b <= s.len(),
        forall|i: int| 0 <= i < s.len() ==> (p(#[trigger] s[i]) <==> a <= i < b),
    ensures
        s.filter(p) == s.subrange(a, b),
    decreases s.len(),
{
    reveal(Seq::filter);
    if s.len() == 0 {
        assert(s.filter(p) =~= s.subrange(a, b));
    } else {
        let t = s.drop_last();
        assert forall|i: int| 0 <= i < t.len() implies (p(#[trigger] t[i]) <==> a <= i < b) by {
            assert(t[i] == s[i]);
        }
        assert(p(s[s.len() - 1]) <==> a <= s.len() - 1 < b);
        if b == s.len() {
            if a == b {
                lemma_filter_window(t, p, a - 1, a - 1);
                assert(s.filter(p) =~= s.subrange(a, b));
            } else {
                lemma_filter_window(t, p, a, b - 1);
                assert(s.subrange(a, b) =~= t.subrange(a, b - 1).push(s.last()));
            }
        } else {
            lemma_filter_window(t, p, a, b);
            assert(s.subrange(a, b) =~= t.subrange(a, b));
        }
    }
}

// ---------------------------------------------------------------------------
// The table
// ---------------------------------------------------------------------------

/// All data and function symbols from an ELF file, sorted by address for fast lookup.
#[derive(Debug)]
pub struct SymbolTable {
    /// Sorted by address, then size.
    pub syms: Vec<Symbol>,
    pub path: String,
}

/// A symbol table: its entries, and the path of the file that they come from.
#[verifier::ext_equal]
pub struct TableModel {
    pub entries: Seq<SymbolModel>,
    pub path: Seq<char>,
}

impl View for SymbolTable {
    type V = TableModel;

    open spec fn view(&self) -> TableModel {
        TableModel { entries: self.entries(), path: self.path@ }
    }
}

/// A file that could not be read as ELF.
#[derive(Debug)]
pub struct LoadError {
    pub path: String,
    /// What is wrong with the file.
    pub cause: String,
}

impl LoadError {
    /// What was being done when the error came up.
    pub fn context(&self) -> (out: String)
        ensures
            out@ == "parsing ELF "@ + self.path@,
    {
        let mut out: String = "parsing ELF ".to_owned();
        out.append(self.path.as_str());
        out
    }
}

impl SymbolTable {
    /// The entries of the table, in order.
    pub open spec fn entries(&self) -> Seq<SymbolModel> {
        models(self.syms@)
    }

    /// The entries are sorted by address, then size.
    pub open spec fn wf(&self) -> bool {
        sorted(self.entries())
    }

    /// Builds the table for a file with the symbols `raw`.
    pub fn from_elf_symbols(path: &str, raw: Vec<ElfSymbol>) -> (t: SymbolTable)
        ensures
            t.wf(),
            t.entries() == table_entries(raw@.map_values(|s: ElfSymbol| s@)),
            t.path@ == path@,
    {
        let ghost all: Seq<ElfSymbolModel> = raw@.map_values(|s: ElfSymbol| s@);
        let mut syms: Vec<Symbol> = Vec::new();
        let mut i: usize = 0;
        assert(all.take(0) =~= Seq::empty());
        assert(models(syms@) =~= Seq::empty());
        while i < raw.len()
            invariant
                i <= raw.len(),
                all == raw@.map_values(|s: ElfSymbol| s@),
                models(syms@) == all_kept(all.take(i as int)),
            decreases raw.len() - i,
        {
            let ghost old_syms: Seq<Symbol> = syms@;
            let s: &ElfSymbol = &raw[i];
            assert(all.take(i + 1).drop_last() =~= all.take(i as int));
            assert(all.take(i + 1).last() == s@);
            // Keep variables and functions; skip sections, files and the like.
            let wanted: bool = match s.class {
                SymbolClass::Data => true,
                SymbolClass::Text => true,
                _ => false,
            };
            if wanted && s.address != 0 && s.address <= 0xFFFF_FFFF {
                match &s.name {
                    Some(name) => {
                        if !name.as_str().is_empty() {
                            let size: u64 = s.size;
                            assert(size as u32 == size % 0x1_0000_0000) by (bit_vector);
                            let kept_symbol: Symbol = Symbol {
                                name: name.clone(),
                                addr: s.address as u32,
                                #[verifier::truncate]
                                size: size as u32,
                            };
                            syms.push(kept_symbol);
                            assert(models(syms@) =~= models(old_syms).push(kept_symbol@));
                        }
                    },
                    None => {},
                }
            }
            i = i + 1;
        }
        assert(all.take(all.len() as int) =~= all);
        let syms: Vec<Symbol> = drop_repeats(sort_symbols(syms));
        proof {
            lemma_table_sorted(all);
        }
        SymbolTable { syms, path: path.to_owned() }
    }

    /// Parses the ELF file at `path`, which holds `data`, and collects its data and function
    /// symbols.
    pub fn load(path: &str, data: &[u8]) -> (r: Result<SymbolTable, LoadError>)
        ensures
            match elf_symbols(data@) {
                Ok(raw) => r matches Ok(t) && t.wf() && t.entries() == table_entries(raw) && t.path@
                    == path@,
                Err(cause) => r matches Err(e) && e.path@ == path@ && e.cause@ == cause,
            },
    {
        match read_elf_symbols(data) {
            Ok(raw) => Ok(SymbolTable::from_elf_symbols(path, raw)),
            Err(cause) => Err(LoadError { path: path.to_owned(), cause }),
        }
    }

    /// The number of symbols.
    pub fn len(&self) -> (n: usize)
        ensures
            n == self.entries().len(),
    {
        self.syms.len()
    }

    /// Address of the first symbol named exactly `name`, if any.
    pub fn resolve(&self, name: &str) -> (r: Option<u32>)
        ensures
            r == address_of(self.entries(), name@),
    {
        let wanted: String = name.to_owned();
        let ghost all: Seq<SymbolModel> = self.entries();
        let ghost p: spec_fn(SymbolModel) -> bool = |x: SymbolModel| x.name == name@;
        let mut i: usize = 0;
        assert(all.skip(0) =~= all);
        while i < self.syms.len()
            invariant
                i <= self.syms.len(),
                all == models(self.syms@),
                p == (|x: SymbolModel| x.name == name@),
                wanted@ == name@,
                first_match(all, p) == first_match(all.skip(i as int), p),
            decreases self.syms.len() - i,
        {
            assert(all.skip(i as int)[0] == self.syms@[i as int]@);
            assert(all.skip(i as int).drop_first() =~= all.skip(i + 1));
            if self.syms[i].name == wanted {
                return Some(self.syms[i].addr);
            }
            i = i + 1;
        }
        None
    }

    /// Byte size of the first sized symbol named exactly `name`, if any.
    pub fn size_of(&self, name: &str) -> (r: Option<u32>)
        ensures
            r == sized(self.entries(), name@),
    {
        let wanted: String = name.to_owned();
        let ghost all: Seq<SymbolModel> = self.entries();
        let ghost p: spec_fn(SymbolModel) -> bool = |x: SymbolModel| x.name == name@ && x.size > 0;
        let mut i: usize = 0;
        assert(all.skip(0) =~= all);
        while i < self.syms.len()
            invariant
                i <= self.syms.len(),
                all == models(self.syms@),
                p == (|x: SymbolModel| x.name == name@ && x.size > 0),
                wanted@ == name@,
                first_match(all, p) == first_match(all.skip(i as int), p),
            decreases self.syms.len() - i,
        {
            assert(all.skip(i as int)[0] == self.syms@[i as int]@);
            assert(all.skip(i as int).drop_first() =~= all.skip(i + 1));
            if self.syms[i].name == wanted && self.syms[i].size > 0 {
                return Some(self.syms[i].size);
            }
            i = i + 1;
        }
        None
    }

    /// The index just past the last symbol that starts before `bound`.
    fn partition(&self, bound: u64) -> (p: usize)
        requires
            self.wf(),
        ensures
            p <= self.entries().len(),
            forall|i: int| 0 <= i < p ==> (#[trigger] self.entries()[i]).addr < bound,
            forall|i: int|
                p <= i < self.entries().len() ==> (#[trigger] self.entries()[i]).addr >= bound,
    {
        let ghost all: Seq<SymbolModel> = self.entries();
        let mut lo: usize = 0;
        let mut hi: usize = self.syms.len();
        while lo < hi
            invariant
                all == models(self.syms@),
                sorted(all),
                lo <= hi <= all.len(),
                forall|i: int| 0 <= i < lo ==> (#[trigger] all[i]).addr < bound,
                forall|i: int| hi <= i < all.len() ==> (#[trigger] all[i]).addr >= bound,
            decreases hi - lo,
        {
            let mid: usize = lo + (hi - lo) / 2;
            assert(all[mid as int] == self.syms@[mid as int]@);
            if (self.syms[mid].addr as u64) < bound {
                assert forall|i: int| 0 <= i < mid + 1 implies (#[trigger] all[i]).addr < bound by {
                    assert(in_order(all[i], all[mid as int]));
                }
                lo = mid + 1;
            } else {
                assert forall|i: int| mid <= i < all.len() implies (#[trigger] all[i]).addr
                    >= bound by {
                    assert(in_order(all[mid as int], all[i]));
                }
                hi = mid;
            }
        }
        lo
    }

    /// Symbol whose `[addr, addr+size)` range covers `addr`, or that starts there, with the offset
    /// into it. Prefers the nearest enclosing symbol when ranges nest.
    pub fn containing(&self, addr: u32) -> (r: Option<(&Symbol, u32)>)
        requires
            self.wf(),
        ensures
            match r {
                Some((s, off)) => enclosing(self.entries(), addr) == Some((s@, off)),
                None => enclosing(self.entries(), addr) is None,
            },
    {
        let ghost all: Seq<SymbolModel> = self.entries();
        // Walk back from the last symbol that starts at or before `addr`. A start that covers it
        // wins over all before it; of the symbols at that start, the smallest that has a size wins.
        let upper: usize = self.partition(addr as u64 + 1);
        let mut i: usize = upper;
        let mut best: Option<usize> = None;
        let mut done: bool = false;
        while i > 0 && !done
            invariant
                all == models(self.syms@),
                sorted(all),
                i <= upper <= all.len(),
                forall|j: int| upper <= j < all.len() ==> (#[trigger] all[j]).addr > addr,
                match best {
                    Some(b) => {
                        &&& i <= b < upper
                        &&& covers(all[b as int], addr)
                        &&& forall|j: int|
                            i <= j < upper && covers(#[trigger] all[j], addr) ==> !nearer(
                                all[j],
                                all[b as int],
                            )
                        &&& forall|j: int|
                            b < j < upper && covers(#[trigger] all[j], addr) ==> nearer(
                                all[b as int],
                                all[j],
                            )
                    },
                    None => forall|j: int| i <= j < upper ==> !covers(#[trigger] all[j], addr),
                },
                done ==> best is Some && forall|j: int|
                    0 <= j < i ==> (#[trigger] all[j]).addr < all[best->0 as int].addr,
            decreases
                    i + if done {
                        0int
                    } else {
                        1int
                    },
        {
            let k: usize = i - 1;
            let s: &Symbol = &self.syms[k];
            assert(s@ == all[k as int]);
            let covering: bool = s.addr == addr || (s.addr <= addr && (addr as u64) < s.addr as u64
                + s.size as u64);
            match best {
                None => {
                    if covering {
                        best = Some(k);
                    }
                    i = k;
                },
                Some(b) => {
                    let t: &Symbol = &self.syms[b];
                    assert(t@ == all[b as int]);
                    assert(in_order(all[k as int], all[b as int]));
                    if s.addr < t.addr {
                        assert forall|j: int| 0 <= j < i implies (#[trigger] all[j]).addr
                            < all[b as int].addr by {
                            assert(in_order(all[j], all[k as int]));
                        }
                        done = true;
                    } else {
                        if covering && s.size > 0 && s.size < t.size {
                            best = Some(k);
                        }
                        i = k;
                    }
                },
            }
        }
        proof {
            lemma_nearest(all, addr);
        }
        match best {
            Some(b) => {
                proof {
                    assert forall|j: int|
                        0 <= j < all.len() && covers(#[trigger] all[j], addr) implies !nearer(
                        all[j],
                        all[b as int],
                    ) by {
                        if j >= upper {
                            assert(all[j].addr > addr);
                        }
                    }
                    lemma_nearest_is(all, addr, b as int);
                }
                let s: &Symbol = &self.syms[b];
                assert(s@ == all[b as int]);
                Some((s, addr - s.addr))
            },
            None => {
                assert forall|j: int| 0 <= j < all.len() implies !covers(#[trigger] all[j], addr) by {
                    if j >= upper {
                        assert(all[j].addr > addr);
                    }
                }
                None
            },
        }
    }

    /// All symbols whose start address falls within `[addr, addr+len)`.
    pub fn starting_in(&self, addr: u32, len: u32) -> (out: Vec<&Symbol>)
        requires
            self.wf(),
        ensures
            out@.map_values(|s: &Symbol| s@) == starting(self.entries(), addr, len),
    {
        let ghost all: Seq<SymbolModel> = self.entries();
        let end: u64 = addr as u64 + len as u64;
        let start: usize = self.partition(addr as u64);
        let mut out: Vec<&Symbol> = Vec::new();
        let mut i: usize = start;
        assert(out@.map_values(|s: &Symbol| s@) =~= all.subrange(start as int, start as int));
        while i < self.syms.len() && (self.syms[i].addr as u64) < end
            invariant
                all == models(self.syms@),
                start <= i <= all.len(),
                forall|j: int| start <= j < i ==> (#[trigger] all[j]).addr < end,
                out@.map_values(|s: &Symbol| s@) == all.subrange(start as int, i as int),
            decreases self.syms.len() - i,
        {
            let ghost old_out: Seq<&Symbol> = out@;
            out.push(&self.syms[i]);
            proof {
                assert(all[i as int] == self.syms@[i as int]@);
                assert(out@.map_values(|s: &Symbol| s@) =~= old_out.map_values(
                    |s: &Symbol| s@,
                ).push(all[i as int]));
                assert(all.subrange(start as int, i + 1) =~= all.subrange(
                    start as int,
                    i as int,
                ).push(all[i as int]));
            }
            i = i + 1;
        }
        proof {
            let p = |x: SymbolModel| addr <= x.addr < span_end(addr, len);
            assert forall|j: int| 0 <= j < all.len() implies (p(#[trigger] all[j]) <==> start <= j
                < i) by {
                if j >= i {
                    assert(in_order(all[i as int], all[j]));
                }
            }
            lemma_filter_window(all, p, start as int, i as int);
        }
        out
    }
}

// ---------------------------------------------------------------------------
// Laws
// ---------------------------------------------------------------------------

/// What comes no earlier than all of `s` and `x` comes no earlier than all of the two together.
proof fn lemma_inserted_below(s: Seq<SymbolModel>, x: SymbolModel, y: SymbolModel)
    requires
        forall|i: int| 0 <= i < s.len() ==> in_order(#[trigger] s[i], y),
        in_order(x, y),
    ensures
        forall|i: int| 0 <= i < inserted(s, x).len() ==> in_order(#[trigger] inserted(s, x)[i], y),
    decreases s.len(),
{
    if s.len() == 0 || in_order(s.last(), x) {
        assert forall|i: int| 0 <= i < inserted(s, x).len() implies in_order(
            #[trigger] inserted(s, x)[i],
            y,
        ) by {
            if i < s.len() {
                assert(in_order(s[i], y));
            }
        }
    } else {
        assert(in_order(s[s.len() - 1], y));
        assert forall|i: int| 0 <= i < s.drop_last().len() implies in_order(
            #[trigger] s.drop_last()[i],
            y,
        ) by {
            assert(in_order(s[i], y));
        }
        let front = inserted(s.drop_last(), x);
        lemma_inserted_below(s.drop_last(), x, y);
        assert forall|i: int| 0 <= i < inserted(s, x).len() implies in_order(
            #[trigger] inserted(s, x)[i],
            y,
        ) by {
            if i < front.len() {
                assert(in_order(front[i], y));
            }
        }
    }
}

proof fn lemma_inserted(s: Seq<SymbolModel>, x: SymbolModel)
    requires
        sorted(s),
    ensures
        sorted(inserted(s, x)),
        inserted(s, x).len() == s.len() + 1,
    decreases s.len(),
{
    if s.len() == 0 || in_order(s.last(), x) {
        assert forall|i: int, j: int| 0 <= i <= j < s.push(x).len() implies in_order(
            #[trigger] s.push(x)[i],
            #[trigger] s.push(x)[j],
        ) by {
            if j == s.len() && i < s.len() {
                assert(in_order(s[i], s[s.len() - 1]));
            }
        }
    } else {
        lemma_inserted(s.drop_last(), x);
        lemma_inserted_below(s.drop_last(), x, s.last());
    }
}

/// The stable sort puts a table in order.
pub proof fn lemma_sort_sorts(s: Seq<SymbolModel>)
    ensures
        sorted(stable_sort(s)),
        stable_sort(s).len() == s.len(),
    decreases s.len(),
{
    if s.len() > 0 {
        lemma_sort_sorts(s.drop_last());
        lemma_inserted(stable_sort(s.drop_last()), s.last());
    }
}

proof fn lemma_repeats_sorted(s: Seq<SymbolModel>)
    requires
        sorted(s),
    ensures
        sorted(without_repeats(s)),
        s.len() > 0 ==> forall|i: int|
            0 <= i < without_repeats(s).len() ==> in_order(#[trigger] without_repeats(s)[i], s.last()),
    decreases s.len(),
{
    if s.len() > 0 {
        lemma_repeats_sorted(s.drop_last());
        let front = without_repeats(s.drop_last());
        if s.len() > 1 {
            assert(in_order(s[s.len() - 2], s[s.len() - 1]));
        }
    }
}

/// Every table is sorted by address, then size.
pub proof fn lemma_table_sorted(raw: Seq<ElfSymbolModel>)
    ensures
        sorted(table_entries(raw)),
{
    lemma_sort_sorts(all_kept(raw));
    lemma_repeats_sorted(stable_sort(all_kept(raw)));
}

proof fn lemma_inserted_multiset(s: Seq<SymbolModel>, x: SymbolModel)
    ensures
        inserted(s, x).to_multiset() == s.to_multiset().insert(x),
    decreases s.len(),
{
    broadcast use vstd::seq_lib::group_to_multiset_ensures;

    if s.len() == 0 || in_order(s.last(), x) {
    } else {
        lemma_inserted_multiset(s.drop_last(), x);
        assert(s =~= s.drop_last().push(s.last()));
        assert(inserted(s, x).to_multiset() =~= s.to_multiset().insert(x));
    }
}

/// The stable sort keeps every symbol, and adds none.
pub proof fn lemma_sort_permutes(s: Seq<SymbolModel>)
    ensures
        stable_sort(s).to_multiset() == s.to_multiset(),
    decreases s.len(),
{
    broadcast use vstd::seq_lib::group_to_multiset_ensures;

    if s.len() > 0 {
        lemma_sort_permutes(s.drop_last());
        lemma_inserted_multiset(stable_sort(s.drop_last()), s.last());
        assert(s =~= s.drop_last().push(s.last()));
    }
}

/// Does `x` have the address and the size of `k`?
pub open spec fn same_key(k: SymbolModel) -> spec_fn(SymbolModel) -> bool {
    |x: SymbolModel| x.addr == k.addr && x.size == k.size
}

proof fn lemma_filter_push(s: Seq<SymbolModel>, x: SymbolModel, p: spec_fn(SymbolModel) -> bool)
    ensures
        s.push(x).filter(p) == if p(x) {
            s.filter(p).push(x)
        } else {
            s.filter(p)
        },
{
    reveal(Seq::filter);
    assert(s.push(x).drop_last() =~= s);
}

proof fn lemma_inserted_stable(s: Seq<SymbolModel>, x: SymbolModel, k: SymbolModel)
    requires
        sorted(s),
    ensures
        inserted(s, x).filter(same_key(k)) == s.push(x).filter(same_key(k)),
    decreases s.len(),
{
    let p = same_key(k);
    if s.len() == 0 || in_order(s.last(), x) {
    } else {
        let t = s.drop_last();
        assert(!(p(x) && p(s.last())));
        assert(sorted(t)) by {
            assert forall|i: int, j: int| 0 <= i <= j < t.len() implies in_order(
                #[trigger] t[i],
                #[trigger] t[j],
            ) by {
                assert(in_order(s[i], s[j]));
            }
        }
        lemma_filter_push(t, x, p);
        lemma_filter_push(s, x, p);
        lemma_filter_push(t, s.last(), p);
        assert(t.push(s.last()) =~= s);
        lemma_filter_push(inserted(t, x), s.last(), p);
        lemma_inserted_stable(t, x, k);
    }
}

/// Symbols of equal address and size keep their order in the stable sort.
pub proof fn lemma_sort_is_stable(s: Seq<SymbolModel>, k: SymbolModel)
    ensures
        stable_sort(s).filter(same_key(k)) == s.filter(same_key(k)),
    decreases s.len(),
{
    reveal(Seq::filter);
    if s.len() > 0 {
        let t = stable_sort(s.drop_last());
        lemma_sort_is_stable(s.drop_last(), k);
        lemma_sort_sorts(s.drop_last());
        lemma_inserted_stable(t, s.last(), k);
        assert(t.push(s.last()).drop_last() =~= t);
    } else {
        assert(stable_sort(s) =~= s);
    }
}

proof fn lemma_first_match(s: Seq<SymbolModel>, p: spec_fn(SymbolModel) -> bool)
    ensures
        match first_match(s, p) {
            Some(x) => exists|i: int|
                0 <= i < s.len() && #[trigger] s[i] == x && p(x) && forall|j: int|
                    0 <= j < i ==> !p(#[trigger] s[j]),
            None => forall|i: int| 0 <= i < s.len() ==> !p(#[trigger] s[i]),
        },
    decreases s.len(),
{
    if s.len() == 0 {
    } else if p(s[0]) {
    } else {
        let t = s.drop_first();
        lemma_first_match(t, p);
        match first_match(t, p) {
            Some(x) => {
                let i = choose|i: int|
                    0 <= i < t.len() && #[trigger] t[i] == x && p(x) && forall|j: int|
                        0 <= j < i ==> !p(#[trigger] t[j]);
                assert(s[i + 1] == x);
                assert forall|j: int| 0 <= j < i + 1 implies !p(#[trigger] s[j]) by {
                    if j > 0 {
                        assert(t[j - 1] == s[j]);
                    }
                }
            },
            None => {
                assert forall|i: int| 0 <= i < s.len() implies !p(#[trigger] s[i]) by {
                    if i > 0 {
                        assert(t[i - 1] == s[i]);
                    }
                }
            },
        }
    }
}

/// A name resolves if and only if a symbol has it, and then to the address of the first such.
pub proof fn lemma_resolve(s: Seq<SymbolModel>, name: Seq<char>)
    ensures
        match address_of(s, name) {
            Some(a) => exists|i: int|
                0 <= i < s.len() && (#[trigger] s[i]).addr == a && s[i].name == name && forall|j: int|
                    0 <= j < i ==> (#[trigger] s[j]).name != name,
            None => forall|i: int| 0 <= i < s.len() ==> (#[trigger] s[i]).name != name,
        },
{
    let p = |x: SymbolModel| x.name == name;
    lemma_first_match(s, p);
    match first_match(s, p) {
        Some(x) => {
            let i = choose|i: int|
                0 <= i < s.len() && #[trigger] s[i] == x && p(x) && forall|j: int|
                    0 <= j < i ==> !p(#[trigger] s[j]);
            assert forall|j: int| 0 <= j < i implies (#[trigger] s[j]).name != name by {
                assert(!p(s[j]));
            }
            assert(s[i].addr == x.addr && s[i].name == name);
        },
        None => {
            assert forall|i: int| 0 <= i < s.len() implies (#[trigger] s[i]).name != name by {
                assert(!p(s[i]));
            }
        },
    }
}

/// A name has a size if and only if a sized symbol has it, and then that of the first such.
pub proof fn lemma_size_of(s: Seq<SymbolModel>, name: Seq<char>)
    ensures
        match sized(s, name) {
            Some(n) => n > 0 && exists|i: int|
                0 <= i < s.len() && (#[trigger] s[i]).size == n && s[i].name == name && forall|j: int|
                    0 <= j < i ==> (#[trigger] s[j]).name != name || s[j].size == 0,
            None => forall|i: int|
                0 <= i < s.len() ==> (#[trigger] s[i]).name != name || s[i].size == 0,
        },
{
    let p = |x: SymbolModel| x.name == name && x.size > 0;
    lemma_first_match(s, p);
    match first_match(s, p) {
        Some(x) => {
            let i = choose|i: int|
                0 <= i < s.len() && #[trigger] s[i] == x && p(x) && forall|j: int|
                    0 <= j < i ==> !p(#[trigger] s[j]);
            assert forall|j: int| 0 <= j < i implies (#[trigger] s[j]).name != name || s[j].size
                == 0 by {
                assert(!p(s[j]));
            }
            assert(s[i].size == x.size && s[i].name == name);
        },
        None => {
            assert forall|i: int| 0 <= i < s.len() implies (#[trigger] s[i]).name != name
                || s[i].size == 0 by {
                assert(!p(s[i]));
            }
        },
    }
}

/// Does an entry have this name and address?
pub open spec fn has_entry(s: Seq<SymbolModel>, name: Seq<char>, addr: u32) -> bool {
    exists|k: int| 0 <= k < s.len() && (#[trigger] s[k]).name == name && s[k].addr == addr
}

proof fn lemma_repeats_subset(s: Seq<SymbolModel>, k: int)
    requires
        0 <= k < without_repeats(s).len(),
    ensures
        s.contains(without_repeats(s)[k]),
    decreases s.len(),
{
    let t = s.drop_last();
    let x = without_repeats(s)[k];
    if k < without_repeats(t).len() {
        lemma_repeats_subset(t, k);
        let i = choose|i: int| 0 <= i < t.len() && t[i] == x;
        assert(s[i] == x);
    } else {
        assert(s[s.len() - 1] == x);
    }
}

proof fn lemma_repeats_represent(s: Seq<SymbolModel>, i: int)
    requires
        0 <= i < s.len(),
    ensures
        has_entry(without_repeats(s), s[i].name, s[i].addr),
    decreases s.len(),
{
    let t = s.drop_last();
    let front = without_repeats(t);
    let out = without_repeats(s);
    if i < t.len() {
        lemma_repeats_represent(t, i);
        let k = choose|k: int|
            0 <= k < front.len() && (#[trigger] front[k]).name == t[i].name && front[k].addr
                == t[i].addr;
        assert(out[k] == front[k]);
    } else {
        let k = out.len() - 1;
        assert(out[k].name == s[i].name && out[k].addr == s[i].addr);
    }
}

proof fn lemma_kept_members(raw: Seq<ElfSymbolModel>)
    ensures
        forall|i: int|
            0 <= i < raw.len() && kept(#[trigger] raw[i]) is Some ==> all_kept(raw).contains(
                kept(raw[i])->0,
            ),
        forall|x: SymbolModel| #[trigger]
            all_kept(raw).contains(x) ==> exists|i: int|
                0 <= i < raw.len() && kept(#[trigger] raw[i]) == Some(x),
    decreases raw.len(),
{
    if raw.len() > 0 {
        let t = raw.drop_last();
        lemma_kept_members(t);
        let front = all_kept(t);
        let out = all_kept(raw);
        assert forall|i: int| 0 <= i < raw.len() && kept(#[trigger] raw[i]) is Some implies out.contains(
            kept(raw[i])->0,
        ) by {
            if i < t.len() {
                assert(t[i] == raw[i]);
                let k = choose|k: int| 0 <= k < front.len() && front[k] == kept(t[i])->0;
                assert(out[k] == kept(raw[i])->0);
            } else {
                assert(out[out.len() - 1] == kept(raw[i])->0);
            }
        }
        assert forall|x: SymbolModel| #[trigger] out.contains(x) implies exists|i: int|
            0 <= i < raw.len() && kept(#[trigger] raw[i]) == Some(x) by {
            let k = choose|k: int| 0 <= k < out.len() && out[k] == x;
            if k < front.len() {
                assert(front[k] == x);
                assert(front.contains(x));
                let i = choose|i: int| 0 <= i < t.len() && kept(#[trigger] t[i]) == Some(x);
                assert(kept(raw[i]) == Some(x));
            } else {
                assert(kept(raw[raw.len() - 1]) == Some(x));
            }
        }
    }
}

proof fn lemma_sort_members(s: Seq<SymbolModel>, x: SymbolModel)
    ensures
        stable_sort(s).contains(x) <==> s.contains(x),
{
    broadcast use vstd::seq_lib::group_to_multiset_ensures;

    lemma_sort_permutes(s);
    assert(s.contains(x) <==> s.to_multiset().count(x) > 0);
    assert(stable_sort(s).contains(x) <==> stable_sort(s).to_multiset().count(x) > 0);
}

/// Every entry of a table is a symbol of the file that is to be kept.
pub proof fn lemma_entries_come_from_file(raw: Seq<ElfSymbolModel>, k: int)
    requires
        0 <= k < table_entries(raw).len(),
    ensures
        exists|i: int| 0 <= i < raw.len() && kept(#[trigger] raw[i]) == Some(table_entries(raw)[k]),
{
    let list = all_kept(raw);
    let x = table_entries(raw)[k];
    lemma_repeats_subset(stable_sort(list), k);
    lemma_sort_members(list, x);
    lemma_kept_members(raw);
    assert(list.contains(x));
}

/// Every symbol of the file that is to be kept has an entry of its name and address, and its name
/// resolves.
pub proof fn lemma_kept_symbols_resolve(raw: Seq<ElfSymbolModel>, i: int)
    requires
        0 <= i < raw.len(),
        kept(raw[i]) is Some,
    ensures
        has_entry(table_entries(raw), kept(raw[i])->0.name, kept(raw[i])->0.addr),
        address_of(table_entries(raw), kept(raw[i])->0.name) is Some,
{
    let list = all_kept(raw);
    let ordered = stable_sort(list);
    let out = table_entries(raw);
    let x = kept(raw[i])->0;
    lemma_kept_members(raw);
    assert(list.contains(x));
    lemma_sort_members(list, x);
    let j = choose|j: int| 0 <= j < ordered.len() && ordered[j] == x;
    lemma_repeats_represent(ordered, j);
    lemma_resolve(out, x.name);
    let k = choose|k: int|
        0 <= k < out.len() && (#[trigger] out[k]).name == x.name && out[k].addr == x.addr;
    assert(out[k].name == x.name);
}

/// A symbol covers its own address and every address of its range.
pub proof fn lemma_covers(x: SymbolModel, addr: u32)
    ensures
        covers(x, addr) <==> addr == x.addr || x.addr <= addr < x.addr + x.size,
{
}

/// An address has an enclosing symbol if and only if a symbol covers it. The enclosing symbol is one
/// of the table that covers the address, the offset leads from its start to the address, and of the
/// symbols that cover the address it has the greatest start and, among those, the smallest size,
/// where any size goes before none.
pub proof fn lemma_enclosing_is_nearest(s: Seq<SymbolModel>, addr: u32)
    ensures
        enclosing(s, addr) is None <==> forall|i: int|
            0 <= i < s.len() ==> !covers(#[trigger] s[i], addr),
        enclosing(s, addr) matches Some((x, off)) ==> {
            &&& s.contains(x)
            &&& covers(x, addr)
            &&& x.addr + off == addr
            &&& forall|j: int|
                0 <= j < s.len() && covers(#[trigger] s[j], addr) ==> s[j].addr < x.addr || (
                s[j].addr == x.addr && (s[j].size == 0 || 0 < x.size <= s[j].size))
        },
{
    lemma_nearest(s, addr);
}

/// At its start a symbol with a size goes before one without.
pub proof fn lemma_sized_symbol_wins(s: Seq<SymbolModel>, i: int)
    requires
        0 <= i < s.len(),
        s[i].size > 0,
    ensures
        enclosing(s, s[i].addr) matches Some((x, off)) && x.addr == s[i].addr && off == 0 && 0
            < x.size <= s[i].size,
{
    assert(covers(s[i], s[i].addr));
    lemma_nearest(s, s[i].addr);
}

/// An address that a symbol covers has an enclosing symbol, however many others start between the
/// two.
pub proof fn lemma_covered_is_enclosed(s: Seq<SymbolModel>, addr: u32, i: int)
    requires
        0 <= i < s.len(),
        covers(s[i], addr),
    ensures
        enclosing(s, addr) is Some,
{
    lemma_nearest(s, addr);
}

/// Of two symbols that cover an address, one of which lies within the other, the outer one is not
/// what encloses the address. A symbol without a size at the very start of another lies beside it.
pub proof fn lemma_inner_symbol_wins(s: Seq<SymbolModel>, addr: u32, outer: int, inner: int)
    requires
        0 <= outer < s.len(),
        0 <= inner < s.len(),
        covers(s[outer], addr),
        covers(s[inner], addr),
        s[outer].addr <= s[inner].addr,
        s[inner].addr + s[inner].size <= s[outer].addr + s[outer].size,
        s[inner].addr > s[outer].addr || 0 < s[inner].size < s[outer].size,
    ensures
        enclosing(s, addr) matches Some((x, _)) && (x.addr != s[outer].addr || x.size
            != s[outer].size),
{
    lemma_nearest(s, addr);
}

/// The address that a name resolves to is the start of its enclosing symbol.
pub proof fn lemma_resolved_is_enclosed(s: Seq<SymbolModel>, name: Seq<char>)
    requires
        address_of(s, name) is Some,
    ensures
        enclosing(s, address_of(s, name)->0) matches Some((x, off)) && off == 0,
{
    let addr = address_of(s, name)->0;
    lemma_resolve(s, name);
    let i = choose|i: int|
        0 <= i < s.len() && (#[trigger] s[i]).addr == addr && s[i].name == name && forall|j: int|
            0 <= j < i ==> (#[trigger] s[j]).name != name;
    assert(covers(s[i], addr));
    lemma_nearest(s, addr);
}

/// No two neighbouring entries of a table have the same address and name.
pub proof fn lemma_no_repeats(raw: Seq<ElfSymbolModel>, i: int)
    requires
        0 <= i < table_entries(raw).len() - 1,
    ensures
        table_entries(raw)[i].addr != table_entries(raw)[i + 1].addr || table_entries(raw)[i].name
            != table_entries(raw)[i + 1].name,
{
    lemma_neighbours_differ(stable_sort(all_kept(raw)), i);
}

proof fn lemma_neighbours_differ(s: Seq<SymbolModel>, i: int)
    requires
        0 <= i < without_repeats(s).len() - 1,
    ensures
        without_repeats(s)[i].addr != without_repeats(s)[i + 1].addr || without_repeats(s)[i].name
            != without_repeats(s)[i + 1].name,
    decreases s.len(),
{
    let front = without_repeats(s.drop_last());
    if i < front.len() - 1 {
        lemma_neighbours_differ(s.drop_last(), i);
    }
}

/// The symbols found in a span are those of the table that start in it.
pub proof fn lemma_starting_members(s: Seq<SymbolModel>, addr: u32, len: u32, x: SymbolModel)
    ensures
        starting(s, addr, len).contains(x) <==> s.contains(x) && addr <= x.addr < addr + len,
{
    let p = |x: SymbolModel| addr <= x.addr < span_end(addr, len);
    if starting(s, addr, len).contains(x) {
        let i = choose|i: int| 0 <= i < s.filter(p).len() && s.filter(p)[i] == x;
        s.lemma_filter_pred(p, i);
        s.lemma_filter_contains_rev(p, x);
    }
    if s.contains(x) && addr <= x.addr < addr + len {
        let i = choose|i: int| 0 <= i < s.len() && s[i] == x;
        s.lemma_filter_contains(p, i);
    }
}

/// Where a sorted sequence is cut by an address: behind the symbols that start before it.
proof fn lemma_cut(s: Seq<SymbolModel>, bound: int) -> (p: int)
    requires
        sorted(s),
    ensures
        0 <= p <= s.len(),
        forall|i: int| 0 <= i < p ==> (#[trigger] s[i]).addr < bound,
        forall|i: int| p <= i < s.len() ==> (#[trigger] s[i]).addr >= bound,
    decreases s.len(),
{
    if s.len() == 0 {
        0
    } else if s.last().addr < bound {
        assert forall|i: int| 0 <= i < s.len() implies (#[trigger] s[i]).addr < bound by {
            assert(in_order(s[i], s[s.len() - 1]));
        }
        s.len() as int
    } else {
        let t = s.drop_last();
        assert forall|i: int, j: int| 0 <= i <= j < t.len() implies in_order(
            #[trigger] t[i],
            #[trigger] t[j],
        ) by {
            assert(in_order(s[i], s[j]));
        }
        let p = lemma_cut(t, bound);
        assert forall|i: int| 0 <= i < p implies (#[trigger] s[i]).addr < bound by {
            assert(t[i] == s[i]);
        }
        assert forall|i: int| p <= i < s.len() implies (#[trigger] s[i]).addr >= bound by {
            if i < t.len() {
                assert(t[i] == s[i]);
            }
        }
        p
    }
}

/// The symbols that start in two adjoining spans are those of the one, then those of the other.
pub proof fn lemma_starting_splits(s: Seq<SymbolModel>, addr: u32, m: u32, n: u32)
    requires
        sorted(s),
        addr + m <= u32::MAX,
        m + n <= u32::MAX,
    ensures
        starting(s, addr, (m + n) as u32) == starting(s, addr, m) + starting(
            s,
            (addr + m) as u32,
            n,
        ),
{
    let a = lemma_cut(s, addr as int);
    let b = lemma_cut(s, addr + m);
    let c = lemma_cut(s, addr + m + n);
    if a > b {
        assert(s[b].addr < addr);
    }
    if b > c {
        assert(s[c].addr < addr + m);
    }
    let mid = (addr + m) as u32;
    let whole = (m + n) as u32;
    lemma_filter_window(s, |x: SymbolModel| addr <= x.addr < span_end(addr, m), a, b);
    lemma_filter_window(s, |x: SymbolModel| mid <= x.addr < span_end(mid, n), b, c);
    lemma_filter_window(s, |x: SymbolModel| addr <= x.addr < span_end(addr, whole), a, c);
    assert(s.subrange(a, c) =~= s.subrange(a, b) + s.subrange(b, c));
}

/// Which symbols of a file are kept: variables and functions with a name, at an address that is not
/// zero and has no more than 32 bits. They keep their name, their address and the low 32 bits of their
/// size.
pub proof fn lemma_kept(s: ElfSymbolModel)
    ensures
        kept(s) is Some <==> (s.class == SymbolClass::Data || s.class == SymbolClass::Text)
            && s.address != 0 && s.address < 0x1_0000_0000 && (s.name matches Some(n) && n.len()
            > 0),
        kept(s) matches Some(x) ==> {
            &&& s.name == Some(x.name)
            &&& x.addr == s.address
            &&& x.size == s.size as int % 0x1_0000_0000
        },
{
}

/// One more symbol in a file adds its entry behind the others, if it is kept, and changes nothing else.
pub proof fn lemma_kept_one_by_one(raw: Seq<ElfSymbolModel>, s: ElfSymbolModel)
    ensures
        all_kept(Seq::empty()).len() == 0,
        kept(s) is None ==> all_kept(raw.push(s)) == all_kept(raw),
        kept(s) matches Some(x) ==> all_kept(raw.push(s)) == all_kept(raw).push(x),
{
    assert(raw.push(s).drop_last() =~= raw);
}

/// A table is the kept symbols, sorted, without the entries that have the name and the address of the
/// entry before them, and no others are left out.
pub proof fn lemma_table_entries(raw: Seq<ElfSymbolModel>, s: Seq<SymbolModel>, x: SymbolModel)
    ensures
        table_entries(raw) == without_repeats(stable_sort(all_kept(raw))),
        without_repeats(Seq::empty()).len() == 0,
        ({
            let w = without_repeats(s);
            let repeats = w.len() > 0 && w[w.len() - 1].addr == x.addr && w[w.len() - 1].name
                == x.name;
            &&& repeats ==> without_repeats(s.push(x)) == w
            &&& !repeats ==> without_repeats(s.push(x)) == w.push(x)
        }),
{
    assert(s.push(x).drop_last() =~= s);
}

/// The entries of a table come in the order of their addresses and, at one address, of their sizes.
pub proof fn lemma_table_order(raw: Seq<ElfSymbolModel>, i: int, j: int)
    requires
        0 <= i <= j < table_entries(raw).len(),
    ensures
        table_entries(raw)[i].addr <= table_entries(raw)[j].addr,
        table_entries(raw)[i].addr == table_entries(raw)[j].addr ==> table_entries(raw)[i].size
            <= table_entries(raw)[j].size,
{
    lemma_table_sorted(raw);
    assert(in_order(table_entries(raw)[i], table_entries(raw)[j]));
}

/// Being sorted is having the addresses, and at one address the sizes, in order.
pub proof fn lemma_sorted(s: Seq<SymbolModel>)
    ensures
        sorted(s) <==> forall|i: int, j: int|
            0 <= i <= j < s.len() ==> (#[trigger] s[i]).addr < (#[trigger] s[j]).addr || (s[i].addr
                == s[j].addr && s[i].size <= s[j].size),
{
    if sorted(s) {
        assert forall|i: int, j: int| 0 <= i <= j < s.len() implies (#[trigger] s[i]).addr < (
        #[trigger] s[j]).addr || (s[i].addr == s[j].addr && s[i].size <= s[j].size) by {
            assert(in_order(s[i], s[j]));
        }
    }
}

/// Of entries that cover an address and have the same start and size, the last one encloses it.
pub proof fn lemma_last_of_equals_encloses(s: Seq<SymbolModel>, addr: u32, b: int)
    requires
        0 <= b < s.len(),
        s[b].addr == addr || s[b].addr <= addr < s[b].addr + s[b].size,
        forall|j: int|
            0 <= j < s.len() && ((#[trigger] s[j]).addr == addr || s[j].addr <= addr < s[j].addr
                + s[j].size) ==> s[j].addr < s[b].addr || (s[j].addr == s[b].addr && (s[j].size == 0
                || 0 < s[b].size <= s[j].size)),
        forall|j: int|
            b < j < s.len() ==> (#[trigger] s[j]).addr != s[b].addr || s[j].size != s[b].size,
    ensures
        enclosing(s, addr) == Some((s[b], (addr - s[b].addr) as u32)),
{
    assert forall|j: int| b < j < s.len() && covers(#[trigger] s[j], addr) implies nearer(
        s[b],
        s[j],
    ) by {}
    lemma_nearest_is(s, addr, b);
}

/// The symbols that start in a span stand together in a sorted table, in its order: before them are
/// those that start before the span, behind them those that start behind it.
pub proof fn lemma_starting_is_a_run(s: Seq<SymbolModel>, addr: u32, len: u32)
    requires
        sorted(s),
    ensures
        exists|a: int, b: int|
            {
                &&& 0 <= a <= b <= s.len()
                &&& starting(s, addr, len) == #[trigger] s.subrange(a, b)
                &&& forall|i: int| 0 <= i < a ==> (#[trigger] s[i]).addr < addr
                &&& forall|i: int| a <= i < b ==> addr <= (#[trigger] s[i]).addr < addr + len
                &&& forall|i: int| b <= i < s.len() ==> (#[trigger] s[i]).addr >= addr + len
            },
{
    let a = lemma_cut(s, addr as int);
    let b = lemma_cut(s, addr + len);
    if a > b {
        assert(s[b].addr < addr);
    }
    lemma_filter_window(s, |x: SymbolModel| addr <= x.addr < span_end(addr, len), a, b);
    assert(starting(s, addr, len) == s.subrange(a, b));
}

/// The models of a table and of its symbols are what their fields hold.
pub proof fn lemma_symbol_views(s: Symbol, t: SymbolTable, i: int)
    ensures
        s@.name == s.name@,
        s@.addr == s.addr,
        s@.size == s.size,
        t@.path == t.path@,
        t@.entries == t.entries(),
        t.entries().len() == t.syms@.len(),
        0 <= i < t.syms@.len() ==> t.entries()[i] == t.syms@[i]@,
{
}

} // verus!
