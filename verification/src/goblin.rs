use vstd::prelude::*;

use crate::definitions::{ElfParser, Symbol, SymbolKind, SymbolView, symbols_view};
use crate::demangle::{demangle_symbol_name, demangled_name};

verus! {

/// `SHN_UNDEF`: the symbol is undefined.
pub const SHN_UNDEF: usize = 0;

/// `SHN_ABS`: the symbol has an absolute value.
pub const SHN_ABS: usize = 0xfff1;

/// `SHN_COMMON`: a common symbol.
pub const SHN_COMMON: usize = 0xfff2;

/// `STB_WEAK`: weak binding.
pub const STB_WEAK: u8 = 2;

pub const STT_NOTYPE: u8 = 0;

pub const STT_OBJECT: u8 = 1;

pub const STT_FUNC: u8 = 2;

pub const STT_SECTION: u8 = 3;

pub const STT_FILE: u8 = 4;

pub const STT_COMMON: u8 = 5;

/// `SHF_WRITE`: the section is writable.
pub const SHF_WRITE: u64 = 0x1;

/// `SHF_ALLOC`: the section occupies memory at run time.
pub const SHF_ALLOC: u64 = 0x2;

/// `SHF_EXECINSTR`: the section holds code.
pub const SHF_EXECINSTR: u64 = 0x4;

/// `SHT_NOBITS`: the section takes no space in the file.
pub const SHT_NOBITS: u32 = 8;

/// One ELF symbol table entry, as plain values.
#[derive(Debug, Clone)]
pub struct ElfSymbolEntry {
    /// The name from the string table, or `None` when there is none at the
    /// entry's offset.
    pub name: Option<String>,
    pub st_info: u8,
    pub st_shndx: usize,
    pub st_size: u64,
}

pub struct ElfSymbolEntryView {
    pub name: Option<Seq<char>>,
    pub st_info: u8,
    pub st_shndx: usize,
    pub st_size: u64,
}

impl View for ElfSymbolEntry {
    type V = ElfSymbolEntryView;

    open spec fn view(&self) -> ElfSymbolEntryView {
        ElfSymbolEntryView {
            name: match self.name {
                Some(n) => Some(n@),
                None => None,
            },
            st_info: self.st_info,
            st_shndx: self.st_shndx,
            st_size: self.st_size,
        }
    }
}

pub open spec fn entries_view(s: Seq<ElfSymbolEntry>) -> Seq<ElfSymbolEntryView> {
    s.map_values(|e: ElfSymbolEntry| e@)
}

/// The fields of an ELF section header that symbol kinds depend on.
#[derive(Debug, Clone, Copy, PartialEq, Eq, Structural)]
pub struct SectionHeaderInfo {
    pub sh_type: u32,
    pub sh_flags: u64,
}

/// The symbol type: the low four bits of `st_info`.
pub open spec fn st_type(info: u8) -> u8 {
    info & 0xf
}

/// The symbol binding: the high four bits of `st_info`.
pub open spec fn st_bind(info: u8) -> u8 {
    info >> 4
}

/// The kind of an ELF symbol, from its section index, binding, type and the
/// flags and type of its section.
pub open spec fn elf_symbol_kind(sym: ElfSymbolEntryView, headers: Seq<SectionHeaderInfo>) -> SymbolKind {
    let header: Option<SectionHeaderInfo> = if sym.st_shndx < headers.len() {
        Some(headers[sym.st_shndx as int])
    } else {
        None
    };
    if sym.st_shndx == SHN_UNDEF {
        SymbolKind::Undefined
    } else if sym.st_shndx == SHN_ABS {
        SymbolKind::Absolute
    } else if sym.st_shndx == SHN_COMMON {
        SymbolKind::Common
    } else if st_bind(sym.st_info) == STB_WEAK {
        SymbolKind::Weak
    } else {
        let t = st_type(sym.st_info);
        if t == STT_OBJECT || t == STT_COMMON {
            match header {
                Some(h) => if h.sh_flags & SHF_WRITE == 0 {
                    SymbolKind::RoData
                } else if h.sh_flags & SHF_ALLOC != 0 && h.sh_type == SHT_NOBITS {
                    SymbolKind::Bss
                } else {
                    SymbolKind::Data
                },
                None => SymbolKind::Data,
            }
        } else if t == STT_FUNC {
            SymbolKind::Code
        } else if t == STT_FILE {
            SymbolKind::Other
        } else if t == STT_SECTION {
            SymbolKind::OtherSect
        } else if t == STT_NOTYPE {
            match header {
                Some(h) => if h.sh_flags & SHF_EXECINSTR != 0 {
                    SymbolKind::Code
                } else if h.sh_flags & SHF_WRITE == 0 && h.sh_flags & SHF_ALLOC != 0 {
                    SymbolKind::RoData
                } else if h.sh_type == SHT_NOBITS {
                    SymbolKind::Bss
                } else {
                    SymbolKind::Data
                },
                None => SymbolKind::Unknown,
            }
        } else {
            SymbolKind::Unknown
        }
    }
}

/// Whether a symbol with this section index lies in a section of the file:
/// not undefined, absolute or common.
pub open spec fn is_defined_here(shndx: usize) -> bool {
    shndx != 0 && shndx != 0xfff1 && shndx != 0xfff2
}

/// Law: a symbol is weak exactly when its binding (the high four bits of
/// `st_info`) is `STB_WEAK` and it lies in a section of the file.
pub proof fn lemma_weak_only_by_binding(sym: ElfSymbolEntryView, headers: Seq<SectionHeaderInfo>)
    ensures
        elf_symbol_kind(sym, headers) == SymbolKind::Weak <==> is_defined_here(sym.st_shndx) && sym.st_info
            >> 4 == 2,
{
}

/// Law: apart from weak binding, the binding does not matter: two symbols
/// in the same section with the same type, neither of them weak, have the
/// same kind (a local symbol is classified as a global one would be).
pub proof fn lemma_binding_does_not_matter(
    a: ElfSymbolEntryView,
    b: ElfSymbolEntryView,
    headers: Seq<SectionHeaderInfo>,
)
    requires
        a.st_shndx == b.st_shndx,
        a.st_info & 0xf == b.st_info & 0xf,
        a.st_info >> 4 != 2,
        b.st_info >> 4 != 2,
    ensures
        elf_symbol_kind(a, headers) == elf_symbol_kind(b, headers),
{
}

/// Law: a function (`STT_FUNC`) that lies in a section of the file and is
/// not weak is code, whatever its binding.
pub proof fn lemma_function_is_code(sym: ElfSymbolEntryView, headers: Seq<SectionHeaderInfo>)
    ensures
        is_defined_here(sym.st_shndx) && sym.st_info >> 4 != 2 && sym.st_info & 0xf == 2 ==> elf_symbol_kind(
            sym,
            headers,
        ) == SymbolKind::Code,
{
}

/// The kind of the ELF symbol `sym`, given the file's section headers.
pub fn map_symbol_kind(sym: &ElfSymbolEntry, section_headers: &Vec<SectionHeaderInfo>) -> (k: SymbolKind)
    ensures
        k == elf_symbol_kind(sym@, section_headers@),
        k == SymbolKind::Weak <==> is_defined_here(sym.st_shndx) && sym.st_info >> 4 == 2,
        is_defined_here(sym.st_shndx) && sym.st_info >> 4 != 2 && sym.st_info & 0xf == 2 ==> k
            == SymbolKind::Code,
{
    proof {
        lemma_weak_only_by_binding(sym@, section_headers@);
        lemma_function_is_code(sym@, section_headers@);
    }
    if sym.st_shndx == SHN_UNDEF {
        return SymbolKind::Undefined;
    }
    if sym.st_shndx == SHN_ABS {
        return SymbolKind::Absolute;
    }
    if sym.st_shndx == SHN_COMMON {
        return SymbolKind::Common;
    }
    if sym.st_info >> 4 == STB_WEAK {
        return SymbolKind::Weak;
    }
    let header: Option<SectionHeaderInfo> = if sym.st_shndx < section_headers.len() {
        Some(section_headers[sym.st_shndx])
    } else {
        None
    };
    let t = sym.st_info & 0xf;
    if t == STT_OBJECT || t == STT_COMMON {
        match header {
            Some(h) => if h.sh_flags & SHF_WRITE == 0 {
                SymbolKind::RoData
            } else if h.sh_flags & SHF_ALLOC != 0 && h.sh_type == SHT_NOBITS {
                SymbolKind::Bss
            } else {
                SymbolKind::Data
            },
            None => SymbolKind::Data,
        }
    } else if t == STT_FUNC {
        SymbolKind::Code
    } else if t == STT_FILE {
        SymbolKind::Other
    } else if t == STT_SECTION {
        SymbolKind::OtherSect
    } else if t == STT_NOTYPE {
        match header {
            Some(h) => if h.sh_flags & SHF_EXECINSTR != 0 {
                SymbolKind::Code
            } else if h.sh_flags & SHF_WRITE == 0 && h.sh_flags & SHF_ALLOC != 0 {
                SymbolKind::RoData
            } else if h.sh_type == SHT_NOBITS {
                SymbolKind::Bss
            } else {
                SymbolKind::Data
            },
            None => SymbolKind::Unknown,
        }
    } else {
        SymbolKind::Unknown
    }
}

/// `goblin::elf::Elf::parse` on these bytes: `None` when it succeeds,
/// otherwise the text of its error.
pub uninterp spec fn goblin_parse_failure(data: Seq<u8>) -> Option<Seq<char>>;

/// The entries of `Elf::syms` for the file in these bytes, each name looked
/// up with `Elf::strtab.get_at`.
pub uninterp spec fn goblin_symbol_entries(data: Seq<u8>) -> Seq<ElfSymbolEntryView>;

/// The section headers (`Elf::section_headers`) of the file in these bytes.
pub uninterp spec fn goblin_section_headers(data: Seq<u8>) -> Seq<SectionHeaderInfo>;

/// Calls `goblin::elf::Elf::parse` on `data`, then reads every entry of
/// `syms` (name through `strtab.get_at`, `st_info`, `st_shndx`, `st_size`)
/// and every section header (`sh_type`, `sh_flags`). Claimed: the call fails
/// exactly when the parse does, with its error's text, and otherwise gives
/// the entries and headers in table order.
#[verifier::external_body]
fn read_goblin_elf(data: &[u8]) -> (r: Result<(Vec<ElfSymbolEntry>, Vec<SectionHeaderInfo>), String>)
    ensures
        match r {
            Ok((syms, headers)) => goblin_parse_failure(data@) is None && entries_view(syms@)
                == goblin_symbol_entries(data@) && headers@ == goblin_section_headers(data@),
            Err(e) => goblin_parse_failure(data@) == Some(e@),
        },
{
    let elf = goblin::elf::Elf::parse(data).map_err(|e| e.to_string())?;
    let syms = elf.syms.iter().map(|s| ElfSymbolEntry {
        name: elf.strtab.get_at(s.st_name).map(String::from),
        st_info: s.st_info, st_shndx: s.st_shndx, st_size: s.st_size,
    }).collect();
    let headers = elf.section_headers.iter().map(|h|
        SectionHeaderInfo { sh_type: h.sh_type, sh_flags: h.sh_flags }).collect();
    Ok((syms, headers))
}

/// The symbol that an ELF symbol table entry contributes: none for an
/// untyped entry of size 0; otherwise its demangled name (empty when the
/// string table has none) with its size and kind.
pub open spec fn elf_entry_symbol(e: ElfSymbolEntryView, headers: Seq<SectionHeaderInfo>) -> Option<SymbolView> {
    if st_type(e.st_info) == STT_NOTYPE && e.st_size == 0 {
        None
    } else {
        Some(
            SymbolView {
                name: demangled_name(
                    match e.name {
                        Some(n) => n,
                        None => Seq::<char>::empty(),
                    },
                ),
                size: e.st_size as usize,
                kind: elf_symbol_kind(e, headers),
                address: 0,
            },
        )
    }
}

pub open spec fn elf_symbols(entries: Seq<ElfSymbolEntryView>, headers: Seq<SectionHeaderInfo>) -> Seq<SymbolView>
    decreases entries.len(),
{
    if entries.len() == 0 {
        seq![]
    } else {
        let rest = elf_symbols(entries.drop_last(), headers);
        match elf_entry_symbol(entries.last(), headers) {
            Some(s) => rest.push(s),
            None => rest,
        }
    }
}

/// The symbols of an ELF symbol table, in table order.
pub fn symbols_from_entries(entries: &Vec<ElfSymbolEntry>, headers: &Vec<SectionHeaderInfo>) -> (v: Vec<Symbol>)
    ensures
        symbols_view(v@) == elf_symbols(entries_view(entries@), headers@),
{
    let mut v: Vec<Symbol> = Vec::new();
    let mut i: usize = 0;
    while i < entries.len()
        invariant
            i <= entries.len(),
            symbols_view(v@) == elf_symbols(entries_view(entries@.take(i as int)), headers@),
        decreases entries.len() - i,
    {
        let e = &entries[i];
        assert(entries_view(entries@.take(i + 1)).drop_last() == entries_view(entries@.take(i as int)));
        assert(entries_view(entries@.take(i + 1)).last() == entries@[i as int]@);
        if !(e.st_info & 0xf == STT_NOTYPE && e.st_size == 0) {
            let name = match &e.name {
                Some(n) => demangle_symbol_name(n.as_str()),
                None => demangle_symbol_name(""),
            };
            proof {
                if e.name is None {
                    assert(""@ == Seq::<char>::empty()) by {
                        reveal_strlit("");
                    }
                }
            }
            let kind = map_symbol_kind(e, headers);
            let s = Symbol { name, size: e.st_size as usize, kind, address: 0 };
            let ghost old_v = v@;
            v.push(s);
            assert(symbols_view(v@) == symbols_view(old_v).push(s@));
        }
        i += 1;
    }
    assert(entries@.take(entries.len() as int) == entries@);
    v
}

/// What the `goblin` parser gives for the object file `data`.
pub open spec fn goblin_symbol_list(data: Seq<u8>) -> Result<Seq<SymbolView>, Seq<char>> {
    match goblin_parse_failure(data) {
        Some(e) => Err(e),
        None => Ok(elf_symbols(goblin_symbol_entries(data), goblin_section_headers(data))),
    }
}

/// Reads symbols with the `goblin` crate.
pub struct GoblinParser;

impl ElfParser for GoblinParser {
    /// The symbols of the ELF file whose bytes are `input`, names demangled.
    fn get_symbols(&self, input: &[u8]) -> (r: Result<Vec<Symbol>, String>)
        ensures
            match r {
                Ok(v) => goblin_symbol_list(input@) == Ok::<Seq<SymbolView>, Seq<char>>(
                    symbols_view(v@),
                ),
                Err(e) => goblin_symbol_list(input@) == Err::<Seq<SymbolView>, Seq<char>>(e@),
            },
    {
        match read_goblin_elf(input) {
            Ok((syms, headers)) => Ok(symbols_from_entries(&syms, &headers)),
            Err(e) => Err(e),
        }
    }
}

} // verus!
