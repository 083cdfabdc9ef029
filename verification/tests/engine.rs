use cs2_analysis_engine::{
    collect_symbol_file, disassemble, load_symbol_map, load_symbols, parse_steam_library_folders,
    parse_u64, scan_pattern, select_cs2_processes, try_scan_pattern, Cs2Process, ImageError,
    ImageSection, ModuleImage, NumberError, Pattern, PatternError, PatternMatch, SymbolError,
    SymbolMap,
};
use std::collections::BTreeMap;

fn section(name: &str, address: u64, size: u64, file_range: Option<(u64, u64)>, characteristics: Option<u32>) -> ImageSection {
    ImageSection {
        name: Some(name.to_string()),
        address,
        size,
        file_range,
        characteristics,
    }
}

fn sample_image() -> ModuleImage {
    // File layout: 0x00..0x10 header, 0x10..0x20 .text, 0x20..0x30 .data
    let mut bytes = vec![0u8; 0x30];
    let text = [0x48, 0x8B, 0x05, 0x11, 0x22, 0x33, 0x44, 0x90, 0xC3, 0x48, 0x8B, 0x00, 0x89, 0xCC, 0xCC, 0xCC];
    bytes[0x10..0x20].copy_from_slice(&text);
    let data = b"interface001\0\0\0\0";
    bytes[0x20..0x30].copy_from_slice(data);
    ModuleImage {
        path: "client.dll".to_string(),
        base: 0x1_8000_0000,
        bytes,
        sections: vec![
            section(".text", 0x1000, 0x10, Some((0x10, 0x10)), Some(0x6000_0020)),
            section(".data", 0x2000, 0x40, Some((0x20, 0x10)), Some(0xC000_0040)),
            section(".bss", 0x3000, 0x100, None, Some(0xC000_0080)),
        ],
    }
}

#[test]
fn pattern_parse_with_wildcards() {
    let p = Pattern::parse("48 8B ?? ?? 89").unwrap();
    assert_eq!(p.0, vec![Some(0x48), Some(0x8B), None, None, Some(0x89)]);
}

#[test]
fn pattern_parse_single_question_mark_and_mixed_whitespace() {
    let p = Pattern::parse("  0048\t?\n  ff ").unwrap();
    assert_eq!(p.0, vec![Some(0x48), None, Some(0xFF)]);
}

#[test]
fn pattern_parse_plus_sign_like_from_str_radix() {
    let p = Pattern::parse("+f").unwrap();
    assert_eq!(p.0, vec![Some(0x0F)]);
}

#[test]
fn pattern_parse_empty_is_refused() {
    assert_eq!(Pattern::parse("").unwrap_err(), PatternError::Empty);
    assert_eq!(Pattern::parse(" \t\n ").unwrap_err(), PatternError::Empty);
}

#[test]
fn pattern_parse_reports_first_invalid_token() {
    assert_eq!(
        Pattern::parse("48 ZZ 100").unwrap_err(),
        PatternError::InvalidByte("ZZ".to_string())
    );
    assert_eq!(
        Pattern::parse("48 100").unwrap_err(),
        PatternError::InvalidByte("100".to_string())
    );
    assert_eq!(
        Pattern::parse("???").unwrap_err(),
        PatternError::InvalidByte("???".to_string())
    );
    assert_eq!(
        Pattern::parse("-1").unwrap_err(),
        PatternError::InvalidByte("-1".to_string())
    );
    assert_eq!(Pattern::parse("+").unwrap_err(), PatternError::InvalidByte("+".to_string()));
}

#[test]
fn parse_u64_decimal_and_hex() {
    assert_eq!(parse_u64("42").unwrap(), 42);
    assert_eq!(parse_u64("+7").unwrap(), 7);
    assert_eq!(parse_u64("0x10").unwrap(), 16);
    assert_eq!(parse_u64("0X1f").unwrap(), 31);
    assert_eq!(parse_u64("0xFFFFFFFFFFFFFFFF").unwrap(), u64::MAX);
    assert_eq!(parse_u64("18446744073709551615").unwrap(), u64::MAX);
}

#[test]
fn parse_u64_errors() {
    assert_eq!(
        parse_u64("abc").unwrap_err(),
        NumberError::InvalidInteger("abc".to_string())
    );
    assert_eq!(parse_u64("0x").unwrap_err(), NumberError::InvalidHex("0x".to_string()));
    assert_eq!(parse_u64("0xzz").unwrap_err(), NumberError::InvalidHex("0xzz".to_string()));
    assert_eq!(
        parse_u64("18446744073709551616").unwrap_err(),
        NumberError::InvalidInteger("18446744073709551616".to_string())
    );
    assert_eq!(
        parse_u64("0x10000000000000000").unwrap_err(),
        NumberError::InvalidHex("0x10000000000000000".to_string())
    );
    assert_eq!(parse_u64("").unwrap_err(), NumberError::InvalidInteger(String::new()));
}

#[test]
fn sections_list_names_addresses_and_code_flag() {
    let mut image = sample_image();
    image.sections[2].name = None;
    let sections = image.sections().unwrap();
    assert_eq!(sections.len(), 3);
    assert_eq!(sections[0].name, ".text");
    assert_eq!(sections[0].address, 0x1_8000_1000);
    assert_eq!(sections[0].size, 0x10);
    assert_eq!(sections[0].file_range, Some((0x10, 0x10)));
    assert!(sections[0].executable);
    assert!(!sections[1].executable);
    assert_eq!(sections[2].name, "<unnamed>");
    assert!(!sections[2].executable);
}

#[test]
fn sections_without_coff_flags_are_data() {
    let mut image = sample_image();
    image.sections[0].characteristics = None;
    let sections = image.sections().unwrap();
    assert!(!sections[0].executable);
    assert!(image.check_addresses_fit());
}

#[test]
fn scan_finds_every_match_with_rva_and_va() {
    let image = sample_image();
    let pattern = Pattern::parse("48 8B ?? 89").unwrap();
    let matches = scan_pattern(&image, &pattern);
    assert_eq!(
        matches,
        vec![PatternMatch {
            rva: 0x1009,
            virtual_address: 0x1_8000_1009
        }]
    );
    let pattern = Pattern::parse("48 8B").unwrap();
    let matches = scan_pattern(&image, &pattern);
    assert_eq!(
        matches,
        vec![
            PatternMatch {
                rva: 0x1000,
                virtual_address: 0x1_8000_1000
            },
            PatternMatch {
                rva: 0x1009,
                virtual_address: 0x1_8000_1009
            },
        ]
    );
}

#[test]
fn scan_all_wildcards_matches_every_window() {
    let image = sample_image();
    let pattern = Pattern::parse("?? ?? ??").unwrap();
    let matches = scan_pattern(&image, &pattern);
    // 16 bytes of file data per section give 14 windows of 3 bytes; .bss has none.
    assert_eq!(matches.len(), 28);
    assert_eq!(matches[0].rva, 0x1000);
    assert_eq!(matches[13].rva, 0x100D);
    assert_eq!(matches[14].rva, 0x2000);
}

#[test]
fn scan_does_not_cross_section_data() {
    let image = sample_image();
    // CC CC CC ends .text; 'i' starts .data; the window across them is not scanned.
    let pattern = Pattern::parse("CC 69").unwrap();
    assert!(scan_pattern(&image, &pattern).is_empty());
    let pattern = Pattern::parse("69 6E 74").unwrap();
    assert_eq!(scan_pattern(&image, &pattern)[0].rva, 0x2000);
}

#[test]
fn scan_pattern_longer_than_section_data() {
    let image = sample_image();
    let pattern = Pattern(vec![None; 17]);
    assert!(scan_pattern(&image, &pattern).is_empty());
}

#[test]
fn try_scan_refuses_empty_pattern_and_out_of_file_sections() {
    let image = sample_image();
    assert!(try_scan_pattern(&image, &Pattern(Vec::new())).is_none());
    let mut bad = sample_image();
    bad.sections[1].file_range = Some((0x100, 0x10));
    assert!(try_scan_pattern(&bad, &Pattern::parse("00").unwrap()).is_none());
    assert_eq!(
        try_scan_pattern(&image, &Pattern::parse("90 C3").unwrap()),
        Some(vec![PatternMatch {
            rva: 0x1007,
            virtual_address: 0x1_8000_1007
        }])
    );
}

#[test]
fn try_scan_refuses_address_overflow() {
    let mut image = sample_image();
    image.base = u64::MAX - 0x1000;
    assert!(try_scan_pattern(&image, &Pattern::parse("48 8B").unwrap()).is_none());
}

#[test]
fn bytes_at_va_reads_within_section_file_data() {
    let image = sample_image();
    assert_eq!(image.bytes_at_va(0x1_8000_1007, 2).unwrap(), &[0x90, 0xC3]);
    // Clamped to the end of the section's file data.
    assert_eq!(image.bytes_at_va(0x1_8000_100E, 100).unwrap(), &[0xCC, 0xCC]);
    // Past the file data of .data but inside its memory range: nothing to read.
    assert_eq!(image.bytes_at_va(0x1_8000_2010, 4).unwrap(), &[] as &[u8]);
    // Further on, the read would start past the end of the file.
    assert!(!image.can_read_at(0x1_8000_2020, 4));
}

#[test]
fn bytes_at_va_errors() {
    let image = sample_image();
    assert!(matches!(
        image.bytes_at_va(0x1000, 4),
        Err(ImageError::BelowImageBase { va: 0x1000, base: 0x1_8000_0000 })
    ));
    assert!(matches!(
        image.bytes_at_va(0x1_8000_3000, 4),
        Err(ImageError::NoFileRange { va: 0x1_8000_3000 })
    ));
    assert!(matches!(
        image.bytes_at_va(0x1_8000_5000, 4),
        Err(ImageError::Unmapped { va: 0x1_8000_5000 })
    ));
    assert!(image.can_read_at(0x1_8000_1000, 4));
}

#[test]
fn load_refuses_non_object_bytes() {
    let result = ModuleImage::load("junk.dll".to_string(), vec![1, 2, 3, 4]);
    assert!(matches!(result, Err(ImageError::Parse(_))));
}

#[test]
fn disassemble_decodes_nop_ret() {
    let image = sample_image();
    let symbols = SymbolMap::default();
    let out = disassemble(&image, 0x1_8000_1007, 2, &symbols).unwrap();
    assert_eq!(out.len(), 2);
    assert_eq!(out[0].address, 0x1_8000_1007);
    assert_eq!(out[0].bytes, "90");
    assert_eq!(out[0].text, "nop");
    assert_eq!(out[0].symbol, None);
    assert_eq!(out[1].address, 0x1_8000_1008);
    assert_eq!(out[1].bytes, "C3");
    assert_eq!(out[1].text, "ret");
}

#[test]
fn disassemble_spaces_bytes_and_joins_symbols() {
    let image = sample_image();
    let mut symbols = SymbolMap::default();
    symbols.symbols.insert(
        0x1_8000_1000,
        vec!["client.dll!offset:a".to_string(), "client.dll!offset:b".to_string()],
    );
    let out = disassemble(&image, 0x1_8000_1000, 7, &symbols).unwrap();
    assert_eq!(out.len(), 1);
    assert_eq!(out[0].bytes, "48 8B 05 11 22 33 44");
    assert!(out[0].text.starts_with("mov rax,"));
    assert_eq!(
        out[0].symbol.as_deref(),
        Some("client.dll!offset:a, client.dll!offset:b")
    );
}

#[test]
fn disassemble_truncated_instruction_consumes_remaining_bytes() {
    let image = sample_image();
    let out = disassemble(&image, 0x1_8000_1000, 3, &SymbolMap::default()).unwrap();
    assert_eq!(out.len(), 1);
    assert_eq!(out[0].bytes, "48 8B 05");
    assert_eq!(out[0].text, "(bad)");
}

#[test]
fn disassemble_propagates_read_errors() {
    let image = sample_image();
    assert!(matches!(
        disassemble(&image, 0x10, 4, &SymbolMap::default()),
        Err(ImageError::BelowImageBase { .. })
    ));
}

const OFFSETS: &[u8] = br#"{"engine2.dll": {"x": 1}, "client.dll": {"dwB": 16, "dwA": 32}}"#;
const BUTTONS: &[u8] = br#"{"client.dll": {"jump": 16}}"#;
const INTERFACES: &[u8] = br#"{"Client.DLL": {"Source2Client002": 7}}"#;

#[test]
fn load_symbols_sorted_by_module_value_name() {
    let symbols = load_symbols(OFFSETS, Some(BUTTONS), Some(INTERFACES), None).unwrap();
    let rows: Vec<(String, String, u64)> = symbols
        .iter()
        .map(|s| (s.module.clone(), s.name.clone(), s.value))
        .collect();
    assert_eq!(
        rows,
        vec![
            ("Client.DLL".to_string(), "interface:Source2Client002".to_string(), 7),
            ("client.dll".to_string(), "button:jump".to_string(), 16),
            ("client.dll".to_string(), "offset:dwB".to_string(), 16),
            ("client.dll".to_string(), "offset:dwA".to_string(), 32),
            ("engine2.dll".to_string(), "offset:x".to_string(), 1),
        ]
    );
}

#[test]
fn load_symbols_filter_ignores_ascii_case() {
    let symbols = load_symbols(OFFSETS, Some(BUTTONS), Some(INTERFACES), Some("CLIENT.dll")).unwrap();
    assert_eq!(symbols.len(), 4);
    assert!(symbols.iter().all(|s| s.module.eq_ignore_ascii_case("client.dll")));
}

#[test]
fn load_symbols_optional_files_may_be_missing_or_broken() {
    let symbols = load_symbols(OFFSETS, None, Some(b"not json"), None).unwrap();
    assert_eq!(symbols.len(), 3);
}

#[test]
fn load_symbols_requires_valid_offsets() {
    assert!(matches!(
        load_symbols(b"[1, 2]", Some(BUTTONS), None, None),
        Err(SymbolError::Parse(_))
    ));
    assert!(matches!(
        load_symbols(br#"{"client.dll": {"x": -1}}"#, None, None, None),
        Err(SymbolError::Parse(_))
    ));
}

#[test]
fn load_symbol_map_groups_labels_by_value() {
    let map = load_symbol_map(OFFSETS, Some(BUTTONS), Some(INTERFACES)).unwrap();
    let mut expected: BTreeMap<u64, Vec<String>> = BTreeMap::new();
    expected.insert(1, vec!["engine2.dll!offset:x".to_string()]);
    expected.insert(7, vec!["Client.DLL!interface:Source2Client002".to_string()]);
    expected.insert(
        16,
        vec![
            "client.dll!button:jump".to_string(),
            "client.dll!offset:dwB".to_string(),
        ],
    );
    expected.insert(32, vec!["client.dll!offset:dwA".to_string()]);
    assert_eq!(map.symbols, expected);
}

#[test]
fn collect_symbol_file_prefixes_kind() {
    let data = vec![
        ("a.dll".to_string(), vec![("n1".to_string(), 3u64), ("n2".to_string(), 4u64)]),
        ("b.dll".to_string(), vec![("m".to_string(), 5u64)]),
    ];
    let mut out = Vec::new();
    collect_symbol_file(&mut out, "offset", &data, Some("B.DLL"));
    assert_eq!(out.len(), 1);
    assert_eq!(out[0].module, "b.dll");
    assert_eq!(out[0].name, "offset:m");
    assert_eq!(out[0].value, 5);
    collect_symbol_file(&mut out, "button", &data, None);
    assert_eq!(out.len(), 4);
    assert_eq!(out[1].name, "button:n1");
}

fn process(pid: &str, name: &str) -> Cs2Process {
    Cs2Process {
        pid: pid.to_string(),
        name: name.to_string(),
        exe: None,
    }
}

#[test]
fn select_processes_keeps_cs2_sorted_by_pid_text() {
    let all = vec![
        process("300", "cs2.exe"),
        process("20", "explorer.exe"),
        process("1000", "CS2.EXE"),
        process("42", "Cs2.exe"),
        process("5", "cs2.exe.bak"),
    ];
    let selected = select_cs2_processes(all);
    let pids: Vec<&str> = selected.iter().map(|p| p.pid.as_str()).collect();
    assert_eq!(pids, vec!["1000", "300", "42"]);
}

#[test]
fn steam_library_folders_from_vdf() {
    let vdf = "\"libraryfolders\"\r\n{\r\n\t\"0\"\r\n\t{\r\n\t\t\"path\"\t\t\"C:\\\\Program Files (x86)\\\\Steam\"\r\n\t\t\"label\"\t\t\"\"\r\n\t}\r\n\t\"1\"\r\n\t{\r\n\t\t\"path\"\t\t\"D:\\\\SteamLibrary\"\r\n\t}\r\n}\r\n";
    let folders = parse_steam_library_folders(vdf);
    assert_eq!(
        folders,
        vec![
            "C:\\Program Files (x86)\\Steam".to_string(),
            "D:\\SteamLibrary".to_string()
        ]
    );
}

#[test]
fn steam_library_folders_ignores_incomplete_lines() {
    assert!(parse_steam_library_folders("\"path\"").is_empty());
    assert!(parse_steam_library_folders("").is_empty());
    assert!(parse_steam_library_folders("  x \"path\" \"a\"").is_empty());
    assert_eq!(
        parse_steam_library_folders("\"path\" \"\\\\\\\\\\\\\" tail"),
        vec!["\\\\\\".to_string()]
    );
}

#[test]
fn scan_with_more_wildcards_keeps_every_match_in_order() {
    let image = sample_image();
    let strict = scan_pattern(&image, &Pattern::parse("48 8B 05").unwrap());
    let loose = scan_pattern(&image, &Pattern::parse("48 ?? 05").unwrap());
    let looser = scan_pattern(&image, &Pattern::parse("48 ?? ??").unwrap());
    assert_eq!(strict.len(), 1);
    assert_eq!(looser.len(), 2);
    let mut next = 0;
    for m in &strict {
        let pos = loose[next..].iter().position(|x| x == m).unwrap();
        next += pos + 1;
    }
    let mut next = 0;
    for m in &loose {
        let pos = looser[next..].iter().position(|x| x == m).unwrap();
        next += pos + 1;
    }
}

#[test]
fn load_symbols_strictly_ascending_with_unique_module_and_name() {
    let symbols = load_symbols(OFFSETS, Some(BUTTONS), Some(INTERFACES), None).unwrap();
    for pair in symbols.windows(2) {
        let a = (&pair[0].module, pair[0].value, &pair[0].name);
        let b = (&pair[1].module, pair[1].value, &pair[1].name);
        assert!(a < b);
    }
    for (i, x) in symbols.iter().enumerate() {
        for y in &symbols[i + 1..] {
            assert!(!(x.module == y.module && x.name == y.name));
        }
    }
}

#[test]
fn load_symbols_with_filter_equals_filtered_full_load() {
    let full = load_symbols(OFFSETS, Some(BUTTONS), Some(INTERFACES), None).unwrap();
    for filter in ["CLIENT.DLL", "engine2.dll", "missing.dll"] {
        let filtered = load_symbols(OFFSETS, Some(BUTTONS), Some(INTERFACES), Some(filter)).unwrap();
        let expected: Vec<_> = full
            .iter()
            .filter(|s| s.module.eq_ignore_ascii_case(filter))
            .cloned()
            .collect();
        assert_eq!(filtered, expected);
    }
    assert!(load_symbols(b"nope", None, None, Some("client.dll")).is_err());
    assert!(load_symbols(b"nope", None, None, None).is_err());
}

#[test]
fn parse_u64_reads_formatted_numbers() {
    for n in [0u64, 1, 9, 10, 255, 0x1_8000_1000, 1234567890123, u64::MAX] {
        assert_eq!(parse_u64(&n.to_string()), Ok(n));
        assert_eq!(parse_u64(&format!("{n:#x}")), Ok(n));
        assert_eq!(parse_u64(&format!("{n:#X}")), Ok(n));
        assert_eq!(parse_u64(&format!("0X{n:X}")), Ok(n));
        assert_eq!(parse_u64(&format!("0X{n:x}")), Ok(n));
    }
}

#[test]
fn disassemble_covers_every_byte_read() {
    let image = sample_image();
    let symbols = SymbolMap::default();
    let out = disassemble(&image, 0x1_8000_1000, 16, &symbols).unwrap();
    assert!(!out.is_empty());
    let joined = out.iter().map(|d| d.bytes.as_str()).collect::<Vec<_>>().join(" ");
    let expected = image.bytes[0x10..0x20]
        .iter()
        .map(|b| format!("{b:02X}"))
        .collect::<Vec<_>>()
        .join(" ");
    assert_eq!(joined, expected);
    for pair in out.windows(2) {
        let count = pair[0].bytes.split(' ').count() as u64;
        assert_eq!(pair[1].address, pair[0].address + count);
    }
    let empty = disassemble(&image, 0x1_8000_1000, 0, &symbols).unwrap();
    assert!(empty.is_empty());
}

#[test]
fn pattern_parse_concatenates() {
    for (a, b) in [("48 8B", "?? 89"), ("  ff\t", "?"), ("00", "01 02 ??")] {
        let x = Pattern::parse(a).unwrap();
        let y = Pattern::parse(b).unwrap();
        let both = Pattern::parse(&format!("{a} {b}")).unwrap();
        let mut expected = x.0.clone();
        expected.extend(y.0.iter().cloned());
        assert_eq!(both.0, expected);
    }
}
