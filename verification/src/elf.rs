//! The symbols of an ELF file, as the `object` crate reads them.

use object::{Object, ObjectSymbol, SymbolKind};
use vstd::prelude::*;

verus! {

/// What a symbol of an ELF file stands for.
#[derive(Clone, Copy, Debug, PartialEq, Eq, Structural)]
pub enum SymbolClass {
    Unknown,
    /// Executable code.
    Text,
    /// A data object.
    Data,
    Section,
    File,
    Label,
    /// Thread local storage.
    Tls,
    Other,
}

/// One symbol of an ELF file, as it stands there. A name that cannot be read is absent.
#[derive(Debug)]
pub struct ElfSymbol {
    pub class: SymbolClass,
    pub address: u64,
    pub size: u64,
    pub name: Option<String>,
}

/// One symbol of an ELF file.
pub struct ElfSymbolModel {
    pub class: SymbolClass,
    pub address: u64,
    pub size: u64,
    pub name: Option<Seq<char>>,
}

impl View for ElfSymbol {
    type V = ElfSymbolModel;

    open spec fn view(&self) -> ElfSymbolModel {
        ElfSymbolModel {
            class: self.class,
            address: self.address,
            size: self.size,
            name: match self.name {
                Some(n) => Some(n@),
                None => None,
            },
        }
    }
}

/// The symbols in an ELF file's symbol table, in the order in which they stand there, or what is
/// wrong with the file.
pub uninterp spec fn elf_symbols(data: Seq<u8>) -> Result<Seq<ElfSymbolModel>, Seq<char>>;

/// `object::File::parse` reads `data` as an object file, and `symbols` walks its symbol table;
/// `kind`, `address`, `size` and `name` are read off each symbol. What they give is a function of
/// the bytes alone. Which symbols a given file holds is not stated here.
#[verifier::external_body]
pub(crate) fn read_elf_symbols(data: &[u8]) -> (r: Result<Vec<ElfSymbol>, String>)
    ensures
        match r {
            Ok(v) => elf_symbols(data@) == Ok::<Seq<ElfSymbolModel>, Seq<char>>(
                v@.map_values(|s: ElfSymbol| s@),
            ),
            Err(e) => elf_symbols(data@) == Err::<Seq<ElfSymbolModel>, Seq<char>>(e@),
        },
{
    let file = object::File::parse(data).map_err(|e| e.to_string())?;
    let class = |k: SymbolKind| match k {
        SymbolKind::Unknown => SymbolClass::Unknown,
        SymbolKind::Text => SymbolClass::Text,
        SymbolKind::Data => SymbolClass::Data,
        SymbolKind::Section => SymbolClass::Section,
        SymbolKind::File => SymbolClass::File,
        SymbolKind::Label => SymbolClass::Label,
        SymbolKind::Tls => SymbolClass::Tls,
        _ => SymbolClass::Other,
    };
    let name = |n: object::Result<&str>| n.ok().map(|n| n.to_string());
    Ok(file.symbols().map(|s| {
        ElfSymbol { class: class(s.kind()), address: s.address(), size: s.size(), name: name(s.name()) }
    }).collect())
}

/// The model of a symbol is what its fields hold.
pub proof fn lemma_elf_symbol_view(s: ElfSymbol)
    ensures
        s@.class == s.class,
        s@.address == s.address,
        s@.size == s.size,
        s.name is None ==> s@.name is None,
        s.name matches Some(n) ==> s@.name == Some(n@),
{
}

} // verus!
