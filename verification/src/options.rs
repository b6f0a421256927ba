//! From command line options to a configuration.

use crate::app::{Config, Endian};
use crate::number::{argument_number, invalid_number_text, parse_u32, trim, trimmed};
use crate::symbols::{
    address_of, lemma_resolve, lemma_size_of, sized, SymbolModel, SymbolTable,
};
use crate::text::{decimal, format_decimal};
use crate::time::{Duration, NANOS_PER_MILLI};
use vstd::prelude::*;

verus! {

/// The bytes to monitor when neither an option nor a symbol says how many.
pub const DEFAULT_LEN: usize = 256;

/// The options that say what is monitored and how it is shown.
#[derive(Debug)]
pub struct Options {
    /// Start address: a number or, with an ELF file, the name of a symbol.
    pub addr: String,
    /// Number of bytes to monitor.
    pub len: Option<usize>,
    /// Refresh interval in milliseconds.
    pub refresh: u64,
    /// Highlight duration for changed bytes, in milliseconds.
    pub highlight: u64,
    /// Bytes per displayed row.
    pub width: usize,
    /// Word grouping in bytes for the hex columns.
    pub word: usize,
    /// Whether multi-byte words are big-endian.
    pub big_endian: bool,
}

/// What is wrong with the options.
#[derive(Debug)]
pub enum OptionError {
    /// The address is no number, and no symbol's name.
    Addr(String),
    /// The word size is not 1, 2 or 4.
    Word(usize),
    /// The row width is zero or no multiple of the word size.
    Width(usize, usize),
    /// The length is zero.
    Len,
}

/// The same, with the text as characters.
pub enum OptionErrorModel {
    Addr(Seq<char>),
    Word(usize),
    Width(usize, usize),
    Len,
}

impl View for OptionError {
    type V = OptionErrorModel;

    open spec fn view(&self) -> OptionErrorModel {
        match self {
            OptionError::Addr(text) => OptionErrorModel::Addr(text@),
            OptionError::Word(word) => OptionErrorModel::Word(*word),
            OptionError::Width(width, word) => OptionErrorModel::Width(*width, *word),
            OptionError::Len => OptionErrorModel::Len,
        }
    }
}

/// Where an address option leads, and the size of the symbol that it names: the option is a
/// number or else, with a table, a symbol's name.
pub open spec fn region_start(addr: Seq<char>, table: Option<Seq<SymbolModel>>) -> Result<
    (u32, Option<u32>),
    Seq<char>,
> {
    match argument_number(addr) {
        Ok(v) => Ok((v, None)),
        Err(e) => match table {
            None => Err(invalid_number_text(addr, e)),
            Some(entries) => match address_of(entries, trimmed(addr)) {
                Some(a) => Ok((a, sized(entries, trimmed(addr)))),
                None => Err(invalid_number_text(addr, e) + ", and no symbol has this name"@),
            },
        },
    }
}

/// The length of the region: as given, else the symbol's size, else the default.
pub open spec fn region_len(len: Option<usize>, symbol_size: Option<u32>) -> usize {
    match len {
        Some(n) => n,
        None => match symbol_size {
            Some(n) => n as usize,
            None => DEFAULT_LEN,
        },
    }
}

impl Options {
    /// The configuration that the options stand for, or the first thing that is wrong with them.
    pub open spec fn config(&self, table: Option<Seq<SymbolModel>>) -> Result<
        Config,
        OptionErrorModel,
    > {
        match region_start(self.addr@, table) {
            Err(text) => Err(OptionErrorModel::Addr(text)),
            Ok((addr, symbol_size)) => {
                let len = region_len(self.len, symbol_size);
                if self.word != 1 && self.word != 2 && self.word != 4 {
                    Err(OptionErrorModel::Word(self.word))
                } else if self.width == 0 || self.width % self.word != 0 {
                    Err(OptionErrorModel::Width(self.width, self.word))
                } else if len == 0 {
                    Err(OptionErrorModel::Len)
                } else {
                    Ok(
                        Config {
                            addr,
                            len,
                            bytes_per_row: self.width,
                            word_size: self.word,
                            endian: if self.big_endian {
                                Endian::Big
                            } else {
                                Endian::Little
                            },
                            refresh: Duration {
                                nanos: (self.refresh * NANOS_PER_MILLI) as u128,
                            },
                            highlight: Duration {
                                nanos: (self.highlight * NANOS_PER_MILLI) as u128,
                            },
                        },
                    )
                }
            },
        }
    }

    /// Checks the options and turns them into a configuration.
    pub fn configure(&self, table: Option<&SymbolTable>) -> (r: Result<Config, OptionError>)
        ensures
            match r {
                Ok(cfg) => self.config(table_entries_of(table)) == Ok::<Config, OptionErrorModel>(
                    cfg,
                ),
                Err(e) => self.config(table_entries_of(table)) == Err::<Config, OptionErrorModel>(
                    e@,
                ),
            },
    {
        let (addr, symbol_size): (u32, Option<u32>) = match parse_u32(self.addr.as_str()) {
            Ok(v) => (v, None),
            Err(text) => match table {
                None => {
                    return Err(OptionError::Addr(text));
                },
                Some(t) => {
                    let name: &str = trim(self.addr.as_str());
                    match t.resolve(name) {
                        Some(a) => (a, t.size_of(name)),
                        None => {
                            let mut text: String = text;
                            text.append(", and no symbol has this name");
                            return Err(OptionError::Addr(text));
                        },
                    }
                },
            },
        };
        let len: usize = match self.len {
            Some(n) => n,
            None => match symbol_size {
                Some(n) => n as usize,
                None => DEFAULT_LEN,
            },
        };
        if self.word != 1 && self.word != 2 && self.word != 4 {
            return Err(OptionError::Word(self.word));
        }
        if self.width == 0 || self.width % self.word != 0 {
            return Err(OptionError::Width(self.width, self.word));
        }
        if len == 0 {
            return Err(OptionError::Len);
        }
        Ok(
            Config {
                addr,
                len,
                bytes_per_row: self.width,
                word_size: self.word,
                endian: if self.big_endian {
                    Endian::Big
                } else {
                    Endian::Little
                },
                refresh: Duration::from_millis(self.refresh),
                highlight: Duration::from_millis(self.highlight),
            },
        )
    }
}

/// The entries of a table, if there is one.
pub open spec fn table_entries_of(table: Option<&SymbolTable>) -> Option<Seq<SymbolModel>> {
    match table {
        Some(t) => Some(t.entries()),
        None => None,
    }
}

impl OptionErrorModel {
    /// The message about this error.
    pub open spec fn text(self) -> Seq<char> {
        match self {
            OptionErrorModel::Addr(text) => text,
            OptionErrorModel::Word(word) => "--word must be 1, 2 or 4 (got "@ + decimal(word as nat)
                + ")"@,
            OptionErrorModel::Width(width, word) => "--width ("@ + decimal(width as nat)
                + ") must be a non-zero multiple of --word ("@ + decimal(word as nat) + ")"@,
            OptionErrorModel::Len => "--len must be greater than 0"@,
        }
    }
}

impl OptionError {
    /// The message about this error.
    pub fn message(&self) -> (out: String)
        ensures
            out@ == self@.text(),
    {
        match self {
            OptionError::Addr(text) => text.clone(),
            OptionError::Word(word) => {
                let mut out: String = "--word must be 1, 2 or 4 (got ".to_owned();
                out.append(format_decimal(*word as u128).as_str());
                out.append(")");
                out
            },
            OptionError::Width(width, word) => {
                let mut out: String = "--width (".to_owned();
                out.append(format_decimal(*width as u128).as_str());
                out.append(") must be a non-zero multiple of --word (");
                out.append(format_decimal(*word as u128).as_str());
                out.append(")");
                out
            },
            OptionError::Len => "--len must be greater than 0".to_owned(),
        }
    }
}

// ---------------------------------------------------------------------------
// Laws
// ---------------------------------------------------------------------------

/// An accepted configuration can be shown: the words have 1, 2 or 4 bytes, a row is a whole number
/// of words and not empty, and neither is the region.
pub proof fn lemma_accepted_config(o: Options, table: Option<Seq<SymbolModel>>)
    requires
        o.config(table) is Ok,
    ensures
        ({
            let c = o.config(table)->Ok_0;
            &&& c.word_size == 1 || c.word_size == 2 || c.word_size == 4
            &&& c.bytes_per_row > 0
            &&& c.bytes_per_row % c.word_size == 0
            &&& c.len > 0
        }),
{
}

/// Where the address option names a sized symbol and is no number, and no length is given, the
/// region starts at the address of that name and has its size; nothing but the word size and the
/// row width can then be wrong.
pub proof fn lemma_symbol_region(o: Options, entries: Seq<SymbolModel>)
    requires
        argument_number(o.addr@) is Err,
        sized(entries, trimmed(o.addr@)) is Some,
        o.len is None,
        o.word == 1 || o.word == 2 || o.word == 4,
        o.width > 0,
        o.width % o.word == 0,
    ensures
        o.config(Some(entries)) matches Ok(c) && c.len == sized(entries, trimmed(o.addr@))->0
            && Some(c.addr) == address_of(entries, trimmed(o.addr@)),
{
    lemma_size_of(entries, trimmed(o.addr@));
    lemma_resolve(entries, trimmed(o.addr@));
}

/// Every accepted configuration carries its options over: the intervals are as many milliseconds as
/// the options say, the row width, the word size and the byte order are those that were asked for, a
/// length that was given is the length, and an address that is a number is the address.
pub proof fn lemma_options_carry_over(o: Options, table: Option<Seq<SymbolModel>>)
    requires
        o.config(table) is Ok,
    ensures
        ({
            let c = o.config(table)->Ok_0;
            &&& c.refresh.nanos == o.refresh * 1_000_000
            &&& c.highlight.nanos == o.highlight * 1_000_000
            &&& c.bytes_per_row == o.width
            &&& c.word_size == o.word
            &&& c.endian == Endian::Big <==> o.big_endian
            &&& o.len matches Some(n) ==> c.len == n
            &&& argument_number(o.addr@) matches Ok(v) ==> c.addr == v
            &&& argument_number(o.addr@) is Ok && o.len is None ==> c.len == 256
        }),
{
}

/// Where the address option is no number, it is a symbol's name, with the white space around it left
/// out: the region starts there. Without a length, a symbol without a size leaves 256 bytes.
pub proof fn lemma_symbol_address(o: Options, table: Option<Seq<SymbolModel>>)
    requires
        o.config(table) is Ok,
        argument_number(o.addr@) is Err,
    ensures
        table is Some,
        ({
            let c = o.config(table)->Ok_0;
            let name = trimmed(o.addr@);
            &&& address_of(table->0, name) == Some(c.addr)
            &&& o.len is None ==> match sized(table->0, name) {
                Some(n) => c.len == n,
                None => c.len == 256,
            }
        }),
{
}

/// Options are refused for these reasons and no other, and the first of them is told: the address is
/// no number and, with a table, no symbol's name; the word has not 1, 2 or 4 bytes; a row has no bytes
/// or is no whole number of words; the region is empty.
pub proof fn lemma_refused_options(o: Options, table: Option<Seq<SymbolModel>>)
    ensures
        ({
            let name = trimmed(o.addr@);
            let number = argument_number(o.addr@);
            let found = number is Ok || (table is Some && address_of(table->0, name) is Some);
            let sizes = if number is Ok || table is None {
                None
            } else {
                sized(table->0, name)
            };
            let empty = match o.len {
                Some(n) => n == 0,
                None => sizes == Some(0u32),
            };
            match o.config(table) {
                Ok(_) => {
                    &&& found
                    &&& o.word == 1 || o.word == 2 || o.word == 4
                    &&& o.width > 0
                    &&& o.width % o.word == 0
                    &&& !empty
                },
                Err(OptionErrorModel::Addr(text)) => {
                    &&& !found
                    &&& text == invalid_number_text(o.addr@, number->Err_0) + if table is Some {
                        ", and no symbol has this name"@
                    } else {
                        Seq::empty()
                    }
                },
                Err(OptionErrorModel::Word(w)) => {
                    &&& found
                    &&& w == o.word
                    &&& w != 1 && w != 2 && w != 4
                },
                Err(OptionErrorModel::Width(width, word)) => {
                    &&& found
                    &&& width == o.width
                    &&& word == o.word
                    &&& word == 1 || word == 2 || word == 4
                    &&& width == 0 || width % word != 0
                },
                Err(OptionErrorModel::Len) => {
                    &&& found
                    &&& o.word == 1 || o.word == 2 || o.word == 4
                    &&& o.width > 0
                    &&& o.width % o.word == 0
                    &&& empty
                },
            }
        }),
{
    let text = invalid_number_text(o.addr@, argument_number(o.addr@)->Err_0);
    assert(text + Seq::<char>::empty() =~= text);
}

/// What is said of refused options names the option and its value.
pub proof fn lemma_option_messages(text: Seq<char>, width: usize, word: usize)
    ensures
        OptionErrorModel::Addr(text).text() == text,
        OptionErrorModel::Word(word).text() == "--word must be 1, 2 or 4 (got "@ + decimal(
            word as nat,
        ) + ")"@,
        OptionErrorModel::Width(width, word).text() == "--width ("@ + decimal(width as nat)
            + ") must be a non-zero multiple of --word ("@ + decimal(word as nat) + ")"@,
        OptionErrorModel::Len.text() == "--len must be greater than 0"@,
{
}

/// The models say what the values hold.
pub proof fn lemma_option_views(e: OptionError, table: Option<&SymbolTable>)
    ensures
        match e {
            OptionError::Addr(text) => e@ == OptionErrorModel::Addr(text@),
            OptionError::Word(word) => e@ == OptionErrorModel::Word(word),
            OptionError::Width(width, word) => e@ == OptionErrorModel::Width(width, word),
            OptionError::Len => e@ == OptionErrorModel::Len,
        },
        table matches Some(t) ==> table_entries_of(table) == Some(t.entries()),
        table is None ==> table_entries_of(table) is None,
{
}

} // verus!
