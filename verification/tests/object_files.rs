use elf_diff::definitions::{ElfParser, SymbolKind};
use elf_diff::goblin::{map_symbol_kind, ElfSymbolEntry, GoblinParser, SectionHeaderInfo};
use elf_diff::native::{
    collect_object_symbols, NativeParser, ObjectSymbolRecord, SectionClass, SymbolPlacement,
};

fn put16(v: &mut Vec<u8>, x: u16) {
    v.extend_from_slice(&x.to_le_bytes());
}
fn put32(v: &mut Vec<u8>, x: u32) {
    v.extend_from_slice(&x.to_le_bytes());
}
fn put64(v: &mut Vec<u8>, x: u64) {
    v.extend_from_slice(&x.to_le_bytes());
}

/// A small 64-bit little-endian relocatable ELF file with .text, .data,
/// .bss, .rodata and a symbol table.
fn sample_elf() -> Vec<u8> {
    // string tables
    let names = ["main", "counter", "buffer", "table", "_ZN3foo3barEv", "ext", "weak_fn", "abs_sym"];
    let mut strtab = vec![0u8];
    let mut name_off = Vec::new();
    for n in names.iter() {
        name_off.push(strtab.len() as u32);
        strtab.extend_from_slice(n.as_bytes());
        strtab.push(0);
    }
    let sect_names = [".text", ".data", ".bss", ".rodata", ".symtab", ".strtab", ".shstrtab"];
    let mut shstrtab = vec![0u8];
    let mut sect_off = Vec::new();
    for n in sect_names.iter() {
        sect_off.push(shstrtab.len() as u32);
        shstrtab.extend_from_slice(n.as_bytes());
        shstrtab.push(0);
    }
    // symbols: (name index, info, shndx, size)
    let syms: [(usize, u8, u16, u64); 8] = [
        (0, 0x12, 1, 16),      // main: GLOBAL FUNC
        (1, 0x11, 2, 8),       // counter: GLOBAL OBJECT in .data
        (2, 0x11, 3, 64),      // buffer: GLOBAL OBJECT in .bss
        (3, 0x11, 4, 32),      // table: GLOBAL OBJECT in .rodata
        (4, 0x12, 1, 4),       // C++ function
        (5, 0x10, 0, 0),       // ext: GLOBAL NOTYPE undefined
        (6, 0x22, 1, 2),       // weak_fn: WEAK FUNC
        (7, 0x11, 0xfff1, 1),  // abs_sym: GLOBAL OBJECT absolute
    ];
    let mut symtab = vec![0u8; 24];
    for (ni, info, shndx, size) in syms.iter() {
        put32(&mut symtab, name_off[*ni]);
        symtab.push(*info);
        symtab.push(0);
        put16(&mut symtab, *shndx);
        put64(&mut symtab, 0);
        put64(&mut symtab, *size);
    }
    let text = vec![0x90u8; 16];
    let data = vec![0u8; 8];
    let rodata = vec![1u8; 32];

    let mut file = vec![0u8; 64];
    let mut place = |file: &mut Vec<u8>, bytes: &[u8]| -> u64 {
        while file.len() % 8 != 0 {
            file.push(0);
        }
        let off = file.len() as u64;
        file.extend_from_slice(bytes);
        off
    };
    let text_off = place(&mut file, &text);
    let data_off = place(&mut file, &data);
    let rodata_off = place(&mut file, &rodata);
    let symtab_off = place(&mut file, &symtab);
    let strtab_off = place(&mut file, &strtab);
    let shstrtab_off = place(&mut file, &shstrtab);
    while file.len() % 8 != 0 {
        file.push(0);
    }
    let shoff = file.len() as u64;
    // (name, type, flags, offset, size, link, info, align, entsize)
    let headers: [(u32, u32, u64, u64, u64, u32, u32, u64, u64); 8] = [
        (0, 0, 0, 0, 0, 0, 0, 0, 0),
        (sect_off[0], 1, 0x6, text_off, 16, 0, 0, 16, 0),
        (sect_off[1], 1, 0x3, data_off, 8, 0, 0, 8, 0),
        (sect_off[2], 8, 0x3, data_off + 8, 64, 0, 0, 8, 0),
        (sect_off[3], 1, 0x2, rodata_off, 32, 0, 0, 8, 0),
        (sect_off[4], 2, 0, symtab_off, symtab.len() as u64, 6, 1, 8, 24),
        (sect_off[5], 3, 0, strtab_off, strtab.len() as u64, 0, 0, 1, 0),
        (sect_off[6], 3, 0, shstrtab_off, shstrtab.len() as u64, 0, 0, 1, 0),
    ];
    for (name, ty, flags, off, size, link, info, align, entsize) in headers.iter() {
        put32(&mut file, *name);
        put32(&mut file, *ty);
        put64(&mut file, *flags);
        put64(&mut file, 0);
        put64(&mut file, *off);
        put64(&mut file, *size);
        put32(&mut file, *link);
        put32(&mut file, *info);
        put64(&mut file, *align);
        put64(&mut file, *entsize);
    }
    // ELF header
    let mut h = vec![0x7f, b'E', b'L', b'F', 2, 1, 1, 0, 0, 0, 0, 0, 0, 0, 0, 0];
    put16(&mut h, 1); // ET_REL
    put16(&mut h, 62); // EM_X86_64
    put32(&mut h, 1);
    put64(&mut h, 0); // entry
    put64(&mut h, 0); // phoff
    put64(&mut h, shoff);
    put32(&mut h, 0); // flags
    put16(&mut h, 64); // ehsize
    put16(&mut h, 0); // phentsize
    put16(&mut h, 0); // phnum
    put16(&mut h, 64); // shentsize
    put16(&mut h, 8); // shnum
    put16(&mut h, 7); // shstrndx
    file[..64].copy_from_slice(&h);
    file
}

#[test]
fn native_parser_reads_sorted_symbols() {
    let syms = NativeParser.get_symbols(&sample_elf()).unwrap();
    let got: Vec<(&str, usize, SymbolKind)> =
        syms.iter().map(|s| (s.name.as_str(), s.size, s.kind)).collect();
    assert_eq!(
        got,
        vec![
            ("buffer", 64, SymbolKind::Bss),
            ("table", 32, SymbolKind::RoData),
            ("main", 16, SymbolKind::Code),
            ("counter", 8, SymbolKind::Data),
            ("_ZN3foo3barEv", 4, SymbolKind::Code),
            ("weak_fn", 2, SymbolKind::Code),
            ("abs_sym", 1, SymbolKind::Absolute),
        ]
    );
}

#[test]
fn native_parser_rejects_garbage() {
    let err = NativeParser.get_symbols(b"\x7fELF garbage").unwrap_err();
    assert!(err.starts_with("Failed to parse ELF file: "));
}

#[test]
fn goblin_parser_reads_symbols_in_table_order() {
    let syms = GoblinParser.get_symbols(&sample_elf()).unwrap();
    let got: Vec<(&str, usize, SymbolKind)> =
        syms.iter().map(|s| (s.name.as_str(), s.size, s.kind)).collect();
    assert_eq!(
        got,
        vec![
            ("main", 16, SymbolKind::Code),
            ("counter", 8, SymbolKind::Data),
            ("buffer", 64, SymbolKind::Bss),
            ("table", 32, SymbolKind::RoData),
            ("foo::bar()", 4, SymbolKind::Code),
            ("weak_fn", 2, SymbolKind::Weak),
            ("abs_sym", 1, SymbolKind::Absolute),
        ]
    );
}

#[test]
fn goblin_parser_rejects_garbage() {
    assert!(GoblinParser.get_symbols(b"nope").is_err());
}

fn entry(info: u8, shndx: usize) -> ElfSymbolEntry {
    ElfSymbolEntry { name: Some("s".to_string()), st_info: info, st_shndx: shndx, st_size: 1 }
}

#[test]
fn elf_symbol_kinds() {
    let headers = vec![
        SectionHeaderInfo { sh_type: 0, sh_flags: 0 },
        SectionHeaderInfo { sh_type: 1, sh_flags: 0x6 }, // text
        SectionHeaderInfo { sh_type: 1, sh_flags: 0x3 }, // data
        SectionHeaderInfo { sh_type: 8, sh_flags: 0x3 }, // bss
        SectionHeaderInfo { sh_type: 1, sh_flags: 0x2 }, // rodata
        SectionHeaderInfo { sh_type: 1, sh_flags: 0x1 }, // writable, not allocated
    ];
    assert_eq!(map_symbol_kind(&entry(0x12, 0), &headers), SymbolKind::Undefined);
    assert_eq!(map_symbol_kind(&entry(0x11, 0xfff1), &headers), SymbolKind::Absolute);
    assert_eq!(map_symbol_kind(&entry(0x11, 0xfff2), &headers), SymbolKind::Common);
    assert_eq!(map_symbol_kind(&entry(0x21, 2), &headers), SymbolKind::Weak);
    assert_eq!(map_symbol_kind(&entry(0x11, 2), &headers), SymbolKind::Data);
    assert_eq!(map_symbol_kind(&entry(0x11, 3), &headers), SymbolKind::Bss);
    assert_eq!(map_symbol_kind(&entry(0x11, 4), &headers), SymbolKind::RoData);
    assert_eq!(map_symbol_kind(&entry(0x11, 5), &headers), SymbolKind::Data);
    assert_eq!(map_symbol_kind(&entry(0x15, 4), &headers), SymbolKind::RoData);
    assert_eq!(map_symbol_kind(&entry(0x11, 99), &headers), SymbolKind::Data);
    assert_eq!(map_symbol_kind(&entry(0x12, 1), &headers), SymbolKind::Code);
    assert_eq!(map_symbol_kind(&entry(0x14, 1), &headers), SymbolKind::Other);
    assert_eq!(map_symbol_kind(&entry(0x13, 1), &headers), SymbolKind::OtherSect);
    assert_eq!(map_symbol_kind(&entry(0x10, 1), &headers), SymbolKind::Code);
    assert_eq!(map_symbol_kind(&entry(0x10, 4), &headers), SymbolKind::RoData);
    assert_eq!(map_symbol_kind(&entry(0x10, 3), &headers), SymbolKind::Bss);
    assert_eq!(map_symbol_kind(&entry(0x10, 5), &headers), SymbolKind::Data);
    assert_eq!(map_symbol_kind(&entry(0x10, 99), &headers), SymbolKind::Unknown);
    assert_eq!(map_symbol_kind(&entry(0x16, 1), &headers), SymbolKind::Unknown);
}

#[test]
fn object_records_to_symbols() {
    let rec = |name: Option<&str>, size: u64, undefined: bool, placement: SymbolPlacement| {
        ObjectSymbolRecord { name: name.map(|n| n.to_string()), size, undefined, placement }
    };
    let records = vec![
        rec(Some("a"), 4, false, SymbolPlacement::Section(1)),
        rec(Some("b"), 0, false, SymbolPlacement::Section(1)),
        rec(Some("c"), 4, true, SymbolPlacement::Undefined),
        rec(None, 4, false, SymbolPlacement::Section(1)),
        rec(Some("d"), 2, false, SymbolPlacement::Section(7)),
        rec(Some("e"), 2, false, SymbolPlacement::Section(2)),
        rec(Some("f"), 2, false, SymbolPlacement::Common),
        rec(Some("g"), 2, false, SymbolPlacement::NoSection),
    ];
    let sections = vec![(1, SectionClass::Text), (2, SectionClass::Other)];
    let syms = collect_object_symbols(&records, &sections);
    let got: Vec<(&str, SymbolKind)> = syms.iter().map(|s| (s.name.as_str(), s.kind)).collect();
    assert_eq!(
        got,
        vec![
            ("a", SymbolKind::Code),
            ("d", SymbolKind::ErrSection),
            ("e", SymbolKind::OtherSect),
            ("f", SymbolKind::Common),
            ("g", SymbolKind::NoSection),
        ]
    );
}
