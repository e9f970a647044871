use elf_diff::definitions::{Symbol, SymbolKind};
use elf_diff::demangle::{
    demangle_symbol_name, demangle_symbol_name_with_hash, demangle_symbols, select_demangled,
};

#[test]
fn test_rust_demangle() {
    // Example from std library
    assert_eq!(
        demangle_symbol_name("_ZN3std2io4Read11read_to_end17hb85a0f6802e14499E"),
        "std::io::Read::read_to_end"
    );
}

#[test]
fn test_cpp_demangle() {
    // Basic C++ function void foo::bar()
    assert_eq!(demangle_symbol_name("_ZN3foo3barEv"), "foo::bar()");
    // Basic C++ function int foo::baz(int)
    assert_eq!(demangle_symbol_name("_ZN3foo3bazEi"), "foo::baz(int)");
}

#[test]
fn test_non_mangled() {
    assert_eq!(demangle_symbol_name("main"), "main");
    assert_eq!(demangle_symbol_name("MyClass::MyMethod"), "MyClass::MyMethod");
}

#[test]
fn test_empty_string() {
    assert_eq!(demangle_symbol_name(""), "");
}

#[test]
fn rust_result_wins_when_it_changes_the_name() {
    let r = select_demangled("_Zx", Some("a::b".to_string()), Some("c".to_string()));
    assert_eq!(r, "a::b");
}

#[test]
fn rust_result_equal_to_input_falls_back_to_cpp() {
    let r = select_demangled("abc", Some("abc".to_string()), Some("cpp".to_string()));
    assert_eq!(r, "cpp");
}

#[test]
fn no_demangling_keeps_the_input() {
    assert_eq!(select_demangled("abc", None, None), "abc");
    assert_eq!(select_demangled("abc", Some("abc".to_string()), None), "abc");
    assert_eq!(select_demangled("abc", None, Some("x".to_string())), "x");
}

#[test]
fn demangle_symbols_demangles_every_name() {
    let mut syms = vec![
        Symbol { name: "_ZN3foo3barEv".to_string(), size: 1, kind: SymbolKind::Code, address: 0 },
        Symbol { name: "plain".to_string(), size: 2, kind: SymbolKind::Data, address: 3 },
        Symbol {
            name: "_ZN3std2io4Read11read_to_end17hb85a0f6802e14499E".to_string(),
            size: 4,
            kind: SymbolKind::Code,
            address: 0,
        },
    ];
    demangle_symbols(&mut syms);
    assert_eq!(syms[0].name, "foo::bar()");
    assert_eq!(syms[1].name, "plain");
    assert_eq!(syms[1].address, 3);
    assert_eq!(syms[2].name, "std::io::Read::read_to_end::hb85a0f6802e14499");
}

#[test]
fn name_with_hash() {
    assert_eq!(
        demangle_symbol_name_with_hash("_ZN3std2io4Read11read_to_end17hb85a0f6802e14499E"),
        "std::io::Read::read_to_end::hb85a0f6802e14499"
    );
    assert_eq!(demangle_symbol_name_with_hash("_ZN3foo3barEv"), "foo::bar()");
    assert_eq!(demangle_symbol_name_with_hash("main"), "main");
}
