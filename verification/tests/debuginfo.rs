use elf_reader::debuginfo::{CfaInfo, DbgDataType, DebugData, TypeInfo, VarInfo};
use elf_reader::dwarf::LoadError;
use elf_reader::elf_reader::ElfReader;
use elf_reader::name_map::NameMap;
use elf_reader::registry::Registry;
use indexmap::IndexMap;
use std::collections::HashMap;

fn empty() -> DebugData {
    DebugData {
        variables: IndexMap::new(),
        types: HashMap::new(),
        typenames: NameMap::new(),
        a2l_type_names: HashMap::new(),
        demangled_names: NameMap::new(),
        unit_names: Vec::new(),
        sections: NameMap::new(),
        symbol_addresses: NameMap::new(),
        cfa_info: Vec::new(),
        epk_string: None,
        epk_addr: 0,
        xcp_meta_data: None,
        is_little_endian: true,
    }
}

fn ty(name: Option<&str>, datatype: DbgDataType) -> TypeInfo {
    TypeInfo { name: name.map(|s| s.to_string()), unit_idx: 0, datatype, dbginfo_offset: 0 }
}

fn info(ext: u8, addr: u64, typeref: usize, unit_idx: usize, function: Option<&str>, namespaces: &[&str]) -> VarInfo {
    VarInfo {
        address: (ext, addr),
        typeref,
        unit_idx,
        function: function.map(|s| s.to_string()),
        namespaces: namespaces.iter().map(|s| s.to_string()).collect(),
    }
}

#[test]
fn unit_names_are_simplified() {
    let mut d = empty();
    d.unit_names = vec![
        Some("/home/me/src/main.c".to_string()),
        Some("C:\\src\\a.b.cpp".to_string()),
        Some("plain".to_string()),
        None,
        Some("dir\\sub/x.c".to_string()),
        Some("dir/".to_string()),
    ];
    let names: Vec<Option<String>> = (0..7).map(|i| d.make_simple_unit_name(i)).collect();
    let expected = [Some("main_c"), Some("a_b_cpp"), Some("plain"), None, Some("sub/x_c"), Some(""), None];
    assert_eq!(names, expected.iter().map(|n| n.map(|s| s.to_string())).collect::<Vec<_>>());
    assert_eq!(d.make_unit_label(0), "main_c");
    assert_eq!(d.make_unit_label(3), "3");
}

#[test]
fn types_have_sizes() {
    assert_eq!(ty(None, DbgDataType::Sint16).get_size(), 2);
    assert_eq!(ty(None, DbgDataType::Float).get_size(), 4);
    assert_eq!(ty(None, DbgDataType::Double).get_size(), 8);
    assert_eq!(ty(None, DbgDataType::Bitfield { basetype: Box::new(ty(None, DbgDataType::Uint32)), bit_offset: 1, bit_size: 3 }).get_size(), 4);
    assert_eq!(ty(None, DbgDataType::Pointer(6, 1)).get_size(), 6);
    assert_eq!(ty(None, DbgDataType::TypeRef(1, 12)).get_size(), 12);
    assert_eq!(ty(None, DbgDataType::Array { size: 33, dim: vec![33], stride: 1, arraytype: Box::new(ty(None, DbgDataType::Uint8)) }).get_size(), 33);
}

#[test]
fn types_have_texts() {
    let text = |t: TypeInfo| t.to_text();
    let member = || vec![("m".to_string(), (ty(None, DbgDataType::Uint8), 0))];
    assert_eq!(text(ty(None, DbgDataType::Uint8)), "Uint8");
    assert_eq!(text(ty(None, DbgDataType::Pointer(8, 1))), "Pointer(...)");
    assert_eq!(text(ty(None, DbgDataType::Other(7))), "Other(7)");
    assert_eq!(text(ty(None, DbgDataType::FuncPtr(8))), "function pointer(8)");
    assert_eq!(
        text(ty(Some("S"), DbgDataType::Struct { size: 1, is_class: false, inheritance: vec![], members: member() })),
        "Struct S(1 members)"
    );
    assert_eq!(
        text(ty(None, DbgDataType::Struct { size: 1, is_class: true, inheritance: vec![], members: vec![] })),
        "Class <anonymous>(0 members)"
    );
    assert_eq!(text(ty(Some("U"), DbgDataType::Union { size: 1, members: member() })), "Union U(1 members)");
    assert_eq!(
        text(ty(Some("E"), DbgDataType::Enum { size: 1, signed: false, enumerators: vec![("A".to_string(), 1), ("B".to_string(), 2)] })),
        "Enum E(2 enumerators)"
    );
    let array = ty(None, DbgDataType::Array { size: 210, dim: vec![10, 3, 7], stride: 4, arraytype: Box::new(ty(None, DbgDataType::Float)) });
    assert_eq!(text(array), "Array([10, 3, 7] x Float)");
    assert_eq!(text(ty(None, DbgDataType::TypeRef(4711, 0))), "TypeRef(4711)");
}

#[test]
fn the_epk_becomes_the_version() {
    let mut d = empty();
    let mut reg = Registry::new();
    ElfReader { debug_data: empty() }.register_epk_addr_info(&mut reg);
    assert_eq!(reg.version, None);
    d.epk_addr = 0x1234;
    ElfReader { debug_data: d }.register_epk_addr_info(&mut reg);
    assert_eq!(reg.version, Some(("<unknown>".to_string(), 0x1234)));
    let mut d = empty();
    d.epk_addr = 0xFFFF_FFFF;
    d.epk_string = Some("V1".to_string());
    ElfReader { debug_data: d }.register_epk_addr_info(&mut reg);
    assert_eq!(reg.version, Some(("V1".to_string(), 0xFFFF_FFFF)));
}

#[test]
fn sections_have_addresses() {
    let mut d = empty();
    assert_eq!(d.get_epk_section_addr(), 0);
    d.sections.insert("xcp_epk".to_string(), (0x10, 0x20));
    assert_eq!(d.get_epk_section_addr(), 0x10);
    assert_eq!((d.get_event_section_addr(), d.get_event_section_end()), (0, None));
    d.sections.insert("xcp_evts".to_string(), (0x30, 0x40));
    assert_eq!((d.get_event_section_addr(), d.get_event_section_end()), (0x30, Some(0x40)));
}

#[test]
fn the_first_signature_counts() {
    let mut d = empty();
    d.variables.insert("XCPLITE_ACSDD".to_string(), Vec::new());
    assert_eq!(ElfReader { debug_data: empty() }.get_target_signature(), None);
    d.variables.insert("XCPLITE__CASDD".to_string(), Vec::new());
    d.variables.insert("XCPLITE__ACSDD".to_string(), Vec::new());
    assert_eq!(ElfReader { debug_data: d }.get_target_signature(), Some("CASDD"));
}

#[test]
fn a_reader_needs_debug_data() {
    assert!(ElfReader::new(Err(LoadError::NoUnits)).is_none());
    assert!(ElfReader::new(Ok(empty())).is_some());
}

#[test]
fn maps_of_names_keep_their_order() {
    let mut m = NameMap::new();
    m.insert("b".to_string(), 1);
    m.insert("a".to_string(), 2);
    m.insert("b".to_string(), 3);
    assert_eq!(m.len(), 2);
    assert_eq!((m.name(0), *m.value(0)), ("b", 3));
    assert_eq!((m.name(1), *m.value(1)), ("a", 2));
    assert_eq!(m.get("b"), Some(&3));
    assert_eq!(m.get("c"), None);
}

fn sample() -> DebugData {
    let mut d = empty();
    d.unit_names = vec![Some("src/main.c".to_string()), None];
    d.sections.insert(".data".to_string(), (0x2000, 0x2100));
    d.sections.insert(".text".to_string(), (0x1000, 0x1fff));
    d.types.insert(9, TypeInfo { name: Some("word".to_string()), unit_idx: 0, datatype: DbgDataType::Uint16, dbginfo_offset: 9 });
    d.types.insert(4, TypeInfo { name: None, unit_idx: 1, datatype: DbgDataType::Uint8, dbginfo_offset: 4 });
    d.typenames.insert("word".to_string(), vec![9, 77]);
    d.demangled_names.insert("_ZN1n1xE".to_string(), "n::x".to_string());
    d.variables.insert("evt__foo".to_string(), vec![info(0, 0xAB, 9, 0, Some("main"), &[])]);
    d.variables.insert("trg__foo".to_string(), Vec::new());
    d.variables.insert("x".to_string(), vec![info(0, 0x1234, 9, 0, None, &["a", "b"]), info(2, 0x8000_0004, 77, 1, Some("f"), &[])]);
    d.variables.insert("__hidden".to_string(), vec![info(0, 1, 9, 0, None, &[])]);
    d.variables.insert("gXcp".to_string(), vec![info(0, 1, 9, 0, None, &[])]);
    d.variables.insert("y".to_string(), vec![info(0, 2, 4, 1, None, &[])]);
    d.cfa_info = vec![
        CfaInfo { function: "f".to_string(), unit_idx: 1, low_pc: 0x10, high_pc: 0x20, cfa_offset: Some(-8) },
        CfaInfo { function: "main".to_string(), unit_idx: 0, low_pc: 0x30, high_pc: 0xABCDEF012, cfa_offset: None },
        CfaInfo { function: "g".to_string(), unit_idx: 1, low_pc: 0, high_pc: 1, cfa_offset: Some(16) },
    ];
    d.epk_string = Some("V1".to_string());
    d.epk_addr = 0xAB12;
    d.xcp_meta_data = Some((0xC0FFEE, vec![1, 2, 3]));
    d
}

#[test]
fn the_summary_counts_everything() {
    let lines = sample().debug_stats();
    assert_eq!(
        lines[2..].to_vec(),
        vec![
            "DebugData information summary:",
            "  Compilation units: 2 units",
            "  Sections: 2 sections",
            "  Endianness: Little Endian",
            "  Variables 6 with 6 unique names",
            "  Demangled names: 1 entries",
            "  Type names: 1 named types",
            "  Types: 2 total types",
            "  CFA info: 3 entries",
            "  EPK string: `V1` at address 0x0000AB12",
            "  XCP metadata section (xcp_meta) found at address 0x00C0FFEE, 3 bytes",
        ]
    );
    assert_eq!(lines[0], "");
    assert_eq!(lines[1], "=".repeat(100));
    let lines = empty().debug_stats();
    assert_eq!(lines[11], "  EPK string: `<not found>` at address 0x00000000");
    assert_eq!(lines[12], "  XCP metadata section (xcp_meta) not found");
}

fn part(lines: &[String], title: &str) -> Option<Vec<String>> {
    let start = lines.iter().position(|l| l == title)?;
    let rest = &lines[start + 1..];
    let end = rest.iter().position(|l| l.starts_with("====")).map_or(rest.len(), |p| p - 1);
    Some(rest[..end].to_vec())
}

#[test]
fn the_report_grows_with_the_level() {
    let d = sample();
    let lines = d.debug_info(0, usize::MAX);
    assert_eq!(part(&lines, "Compilation units in debug_data.unit_names:").unwrap(), vec!["  Unit 0: main_c", "  Unit 1: <unnamed>", ""]);
    assert_eq!(
        part(&lines, "Memory Sections in debug_data.sections:").unwrap(),
        vec!["  '.text': 0x00001000, 4096 bytes (8191)", "  '.data': 0x00002000, 4096 bytes (8448)"]
    );
    assert_eq!(
        part(&lines, "A2L Creator variables:").unwrap(),
        vec!["evt__foo':  main_c:'main' : addr=0:0x000000AB", "0 instances of 'trg__foo' found, skipped"]
    );
    assert_eq!(part(&lines, "Variables:"), None);

    let lines = d.debug_info(1, usize::MAX);
    assert_eq!(
        part(&lines, "Variables:").unwrap()[1..].to_vec(),
        vec![
            "evt__foo :  main_c:'main' : addr=0:0x000000AB",
            "x 2: ",
            " main_c:'<global>' a::b: addr=0:0x00001234",
            " <unnamed>:'f' : addr=2:0x80000004",
            "y :  <unnamed>:'<global>' : addr=0:0x00000002",
        ]
    );
    assert_eq!(part(&lines, "Functions and CFA information by compilation unit:"), None);

    let lines = d.debug_info(2, 0);
    assert_eq!(
        part(&lines, "Variables:").unwrap()[1..].to_vec(),
        vec![
            "evt__foo :  main_c:'main' : addr=0:0x000000AB, type='word', size=2",
            "x :  main_c:'<global>' a::b: addr=0:0x00001234, type='word', size=2",
        ]
    );
    assert_eq!(
        part(&lines, "Functions and CFA information by compilation unit:").unwrap(),
        vec![
            "Compilation Unit 1: 2 functions",
            "  f (0x00000010-0x00000020) [CFA+-8]",
            "  g (0x00000000-0x00000001) [CFA+16]",
            "Compilation Unit 0: 1 functions",
            "  main (0x00000030-0xabcdef012) [CFA unknown]",
        ]
    );
    assert_eq!(part(&lines, "Demangled Names:"), None);

    let lines = d.debug_info(3, 0);
    assert_eq!(part(&lines, "Demangled Names:").unwrap(), vec!["  '_ZN1n1xE' -> 'n::x'"]);
    assert_eq!(part(&lines, "Type names in debug_data.typenames:"), None);

    let lines = d.debug_info(4, 0);
    assert_eq!(
        part(&lines, "Type names in debug_data.typenames:").unwrap(),
        vec!["Type name 'word': 2 references", "  -> type_ref=9, size=2 bytes, unit=0"]
    );
    assert_eq!(part(&lines, "Types in debug_data.types:"), None);

    let lines = d.debug_info(5, 0);
    assert_eq!(
        part(&lines, "Types in debug_data.types:").unwrap(),
        vec!["TypeRef 4: name = '', size = 1 bytes, unit = 1, type=Uint8", "TypeRef 9: name = 'word', size = 2 bytes, unit = 0, type=Uint16"]
    );
    assert!(part(&lines, "Variables:").unwrap().contains(&"__hidden :  main_c:'<global>' : addr=0:0x00000001, type='word', size=2".to_string()));
}
