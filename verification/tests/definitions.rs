use elf_diff::definitions::{Symbol, SymbolKind};

#[test]
fn test_symbol_demangle() {
    let mut symbol = Symbol {
        name: "_ZN3foo3barEv".to_string(),
        size: 10,
        kind: SymbolKind::Code,
        address: 0,
    };
    symbol.demangle();
    assert_eq!(symbol.name, "foo::bar()");

    let mut symbol2 = Symbol {
        name: "not_mangled".to_string(),
        size: 20,
        kind: SymbolKind::Data,
        address: 0,
    };
    symbol2.demangle();
    assert_eq!(symbol2.name, "not_mangled");
}

#[test]
fn demangle_keeps_size_kind_and_address() {
    let mut symbol = Symbol {
        name: "_ZN3foo3bazEi".to_string(),
        size: 7,
        kind: SymbolKind::Bss,
        address: 42,
    };
    symbol.demangle();
    assert_eq!(symbol.name, "foo::baz(int)");
    assert_eq!(symbol.size, 7);
    assert_eq!(symbol.kind, SymbolKind::Bss);
    assert_eq!(symbol.address, 42);
}

#[test]
fn kind_labels() {
    assert_eq!(SymbolKind::Code.label(), "Code");
    assert_eq!(SymbolKind::Data.label(), "Data");
    assert_eq!(SymbolKind::Bss.label(), "BSS");
    assert_eq!(SymbolKind::RoData.label(), "ROData");
    assert_eq!(SymbolKind::Weak.label(), "Weak");
    assert_eq!(SymbolKind::Undefined.label(), "Undefined");
    assert_eq!(SymbolKind::Other.label(), "Other");
    assert_eq!(SymbolKind::OtherSect.label(), "OtherSect");
    assert_eq!(SymbolKind::ErrSection.label(), "ErrSection");
    assert_eq!(SymbolKind::Unknown.label(), "Unknown");
    assert_eq!(SymbolKind::NoSection.label(), "None");
    assert_eq!(SymbolKind::Absolute.label(), "Absolute");
    assert_eq!(SymbolKind::Common.label(), "Common");
}
