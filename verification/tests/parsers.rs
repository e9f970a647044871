use elf_diff::definitions::ElfParser;
use elf_diff::parsers::{create_parser, ParserChoice};

#[test]
fn parsers_by_name() {
    match create_parser("nm", "x").unwrap() {
        ParserChoice::Nm(p) => assert_eq!(p.nm_path, "nm"),
        _ => panic!("expected nm"),
    }
    assert!(matches!(create_parser("native", "x").unwrap(), ParserChoice::Native(_)));
    assert!(matches!(create_parser("goblin", "x").unwrap(), ParserChoice::Goblin(_)));
}

#[test]
fn unknown_parser_is_an_error() {
    match create_parser("readelf", "x") {
        Err(e) => assert_eq!(e, "Unknown parser type: readelf"),
        Ok(_) => panic!("expected an error"),
    }
}

#[test]
fn choice_dispatches_to_its_parser() {
    let p = create_parser("nm", "x").unwrap();
    let syms = p.get_symbols(b"0 9 T f\n").unwrap();
    assert_eq!(syms[0].size, 9);
    let native = create_parser("native", "x").unwrap();
    let err = native.get_symbols(b"definitely not an object file").unwrap_err();
    assert!(err.starts_with("Failed to parse ELF file: "));
}
