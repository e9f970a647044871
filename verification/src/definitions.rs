use vstd::prelude::*;

use crate::text::string_from_str;

verus! {

/// Where a symbol lives, as far as its size accounting is concerned.
#[derive(Debug, Clone, Copy, PartialEq, Eq, Hash, Structural)]
pub enum SymbolKind {
    Code,
    Data,
    Bss,
    RoData,
    Weak,
    Undefined,
    Other,
    OtherSect,
    ErrSection,
    Unknown,
    NoSection,
    Absolute,
    Common,
}

/// The display name of each kind.
pub open spec fn kind_label(k: SymbolKind) -> Seq<char> {
    match k {
        SymbolKind::Code => "Code"@,
        SymbolKind::Data => "Data"@,
        SymbolKind::Bss => "BSS"@,
        SymbolKind::RoData => "ROData"@,
        SymbolKind::Weak => "Weak"@,
        SymbolKind::Undefined => "Undefined"@,
        SymbolKind::Other => "Other"@,
        SymbolKind::OtherSect => "OtherSect"@,
        SymbolKind::ErrSection => "ErrSection"@,
        SymbolKind::Unknown => "Unknown"@,
        SymbolKind::NoSection => "None"@,
        SymbolKind::Absolute => "Absolute"@,
        SymbolKind::Common => "Common"@,
    }
}

impl SymbolKind {
    /// The name under which the kind is displayed.
    pub fn label(&self) -> (s: String)
        ensures
            s@ == kind_label(*self),
    {
        match self {
            SymbolKind::Code => string_from_str("Code"),
            SymbolKind::Data => string_from_str("Data"),
            SymbolKind::Bss => string_from_str("BSS"),
            SymbolKind::RoData => string_from_str("ROData"),
            SymbolKind::Weak => string_from_str("Weak"),
            SymbolKind::Undefined => string_from_str("Undefined"),
            SymbolKind::Other => string_from_str("Other"),
            SymbolKind::OtherSect => string_from_str("OtherSect"),
            SymbolKind::ErrSection => string_from_str("ErrSection"),
            SymbolKind::Unknown => string_from_str("Unknown"),
            SymbolKind::NoSection => string_from_str("None"),
            SymbolKind::Absolute => string_from_str("Absolute"),
            SymbolKind::Common => string_from_str("Common"),
        }
    }
}

/// A sized symbol of an object file.
#[derive(Debug, Clone, PartialEq, Eq, Hash)]
pub struct Symbol {
    pub name: String,
    pub size: usize,
    pub kind: SymbolKind,
    pub address: u64,
}

/// The mathematical value of a `Symbol`.
pub struct SymbolView {
    pub name: Seq<char>,
    pub size: usize,
    pub kind: SymbolKind,
    pub address: u64,
}

impl View for Symbol {
    type V = SymbolView;

    open spec fn view(&self) -> SymbolView {
        SymbolView { name: self.name@, size: self.size, kind: self.kind, address: self.address }
    }
}

/// The views of a sequence of symbols.
pub open spec fn symbols_view(s: Seq<Symbol>) -> Seq<SymbolView> {
    s.map_values(|x: Symbol| x@)
}

/// A source of symbols. `input` is what the parser reads: the bytes of the
/// object file, or for a parser that runs an external tool, that tool's
/// output.
pub trait ElfParser {
    fn get_symbols(&self, input: &[u8]) -> Result<Vec<Symbol>, String>;
}

} // verus!
