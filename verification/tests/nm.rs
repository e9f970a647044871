use elf_diff::definitions::{ElfParser, SymbolKind};
use elf_diff::nm::{parse_nm_output, IntParseError, NmParser};

#[test]
fn nm_default_path_and_arguments() {
    let p = NmParser::default();
    assert_eq!(p.nm_path, "nm");
    assert_eq!(p.arguments("a.out"), vec!["--print-size", "--size-sort", "--radix=d", "a.out"]);
}

#[test]
fn nm_output_lines_become_symbols() {
    let out = "00000000000004096 00000000000000008 T main\n\
               00000000000008192 00000000000000016 d some data\n\
               \n\
               00000000000000000 00000000000000004 U puts\n";
    let syms = parse_nm_output(out).unwrap();
    assert_eq!(syms.len(), 3);
    assert_eq!(syms[0].name, "main");
    assert_eq!(syms[0].size, 8);
    assert_eq!(syms[0].kind, SymbolKind::Code);
    assert_eq!(syms[0].address, 0);
    // the name is everything after the third space
    assert_eq!(syms[1].name, "some data");
    assert_eq!(syms[1].size, 16);
    assert_eq!(syms[1].kind, SymbolKind::Data);
    assert_eq!(syms[2].kind, SymbolKind::Undefined);
}

#[test]
fn nm_type_letters() {
    let out = "0 1 B b1\n0 1 r r1\n0 1 W w1\n0 1 w w2\n0 1 t t1\n0 1 V v1\n0 1 u u1\n";
    let syms = parse_nm_output(out).unwrap();
    let kinds: Vec<SymbolKind> = syms.iter().map(|s| s.kind).collect();
    assert_eq!(
        kinds,
        vec![
            SymbolKind::Bss,
            SymbolKind::RoData,
            SymbolKind::Weak,
            SymbolKind::Weak,
            SymbolKind::Code,
            SymbolKind::Other,
            SymbolKind::Other
        ]
    );
}

#[test]
fn nm_crlf_and_short_lines() {
    let out = "0 5 T a\r\nnot enough fields\r\n   \t \n0 7 D b";
    let syms = parse_nm_output(out).unwrap();
    assert_eq!(syms.len(), 2);
    assert_eq!(syms[0].name, "a");
    assert_eq!(syms[1].name, "b");
    assert_eq!(syms[1].size, 7);
}

#[test]
fn nm_empty_type_field_reads_as_other() {
    // "0 5  x": the type field is empty
    let syms = parse_nm_output("0 5  x\n").unwrap();
    assert_eq!(syms[0].kind, SymbolKind::Other);
    assert_eq!(syms[0].name, "x");
}

#[test]
fn nm_size_with_plus_sign() {
    let syms = parse_nm_output("0 +12 T f\n").unwrap();
    assert_eq!(syms[0].size, 12);
}

#[test]
fn nm_bad_sizes() {
    let e = parse_nm_output("0 12a T f\n").unwrap_err();
    assert_eq!(e.reason, IntParseError::InvalidDigit);
    assert_eq!(e.line, "0 12a T f");
    assert_eq!(
        e.message(),
        "Failed to parse size from line 0 12a T f: invalid digit found in string"
    );
    let e = parse_nm_output("0  T f\n").unwrap_err();
    assert_eq!(e.reason, IntParseError::Empty);
    let e = parse_nm_output("0 + T f\n").unwrap_err();
    assert_eq!(e.reason, IntParseError::InvalidDigit);
    let e = parse_nm_output("0 -1 T f\n").unwrap_err();
    assert_eq!(e.reason, IntParseError::InvalidDigit);
    let e = parse_nm_output("0 18446744073709551616 T f\n").unwrap_err();
    assert_eq!(e.reason, IntParseError::PosOverflow);
    assert_eq!(
        e.message(),
        "Failed to parse size from line 0 18446744073709551616 T f: number too large to fit in target type"
    );
    let ok = parse_nm_output("0 18446744073709551615 T f\n").unwrap();
    assert_eq!(ok[0].size as u64, 18446744073709551615u64);
}

#[test]
fn nm_first_bad_line_wins() {
    let e = parse_nm_output("0 1 T a\n0 x T b\n0 y T c\n").unwrap_err();
    assert_eq!(e.line, "0 x T b");
}

#[test]
fn nm_parser_reads_bytes() {
    let p = NmParser::default();
    let syms = p.get_symbols(b"0 3 R table\n").unwrap();
    assert_eq!(syms[0].name, "table");
    assert_eq!(syms[0].kind, SymbolKind::RoData);
    let err = p.get_symbols(b"0 z R table\n").unwrap_err();
    assert_eq!(err, "Failed to parse size from line 0 z R table: invalid digit found in string");
}

#[test]
fn nm_invalid_utf8_is_replaced() {
    let syms = NmParser::default().get_symbols(b"0 3 T f\xff\n").unwrap();
    assert_eq!(syms[0].name, "f\u{FFFD}");
}
