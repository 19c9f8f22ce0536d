use elf_reader::dwarf::{load_elf_dwarf, read_epk, try_load_elf_dwarf, DieAttributes, LoadError, DW_TAG_COMPILE_UNIT, DW_TAG_NAMESPACE, DW_TAG_VARIABLE};
use elf_reader::elf_reader::ElfReader;
use elf_reader::name_map::NameMap;
use elf_reader::registry::{A2lFormat, Registry};
use std::collections::HashMap;

// The bytes of a 64 bit ELF file
struct Image {
    little: bool,
    bytes: Vec<u8>,
}

impl Image {
    fn u16(&mut self, v: u16) {
        self.bytes.extend_from_slice(&if self.little { v.to_le_bytes() } else { v.to_be_bytes() });
    }

    fn u32(&mut self, v: u32) {
        self.bytes.extend_from_slice(&if self.little { v.to_le_bytes() } else { v.to_be_bytes() });
    }

    fn u64(&mut self, v: u64) {
        self.bytes.extend_from_slice(&if self.little { v.to_le_bytes() } else { v.to_be_bytes() });
    }
}

struct Section {
    name: &'static str,
    kind: u32,
    addr: u64,
    data: Vec<u8>,
    size: Option<u64>,
}

fn section(name: &'static str, addr: u64, data: &[u8]) -> Section {
    Section { name, kind: 1, addr, data: data.to_vec(), size: None }
}

fn symbol_sections(little: bool, symbols: &[(&str, u64)]) -> Vec<Section> {
    let mut strings = vec![0u8];
    let mut table = Image { little, bytes: vec![0; 24] };
    for (name, addr) in symbols {
        table.u32(strings.len() as u32);
        table.bytes.extend_from_slice(&[0x11, 0]);
        table.u16(1);
        table.u64(*addr);
        table.u64(4);
        strings.extend_from_slice(name.as_bytes());
        strings.push(0);
    }
    // the string table is section 1, the symbol table section 2
    vec![
        Section { name: ".strtab", kind: 3, addr: 0, data: strings, size: None },
        Section { name: ".symtab", kind: 2, addr: 0, data: table.bytes, size: None },
    ]
}

fn elf(little: bool, symbols: &[(&str, u64)], more: Vec<Section>) -> Vec<u8> {
    let mut sections = symbol_sections(little, symbols);
    sections.extend(more);
    let mut names = vec![0u8];
    let mut offsets = Vec::new();
    for s in &sections {
        offsets.push(names.len() as u32);
        names.extend_from_slice(s.name.as_bytes());
        names.push(0);
    }
    let shstrtab_name = names.len() as u32;
    names.extend_from_slice(b".shstrtab\0");
    let data_len: usize = sections.iter().map(|s| s.data.len()).sum::<usize>() + names.len();
    let count = sections.len() + 2;

    let mut image = Image { little, bytes: Vec::new() };
    image.bytes.extend_from_slice(&[0x7f, b'E', b'L', b'F', 2, if little { 1 } else { 2 }, 1, 0, 0, 0, 0, 0, 0, 0, 0, 0]);
    image.u16(2); // executable
    image.u16(if little { 62 } else { 21 });
    image.u32(1);
    image.u64(0);
    image.u64(0);
    image.u64(64 + data_len as u64); // section headers stand behind the data
    image.u32(0);
    image.u16(64);
    image.u16(56);
    image.u16(0);
    image.u16(64);
    image.u16(count as u16);
    image.u16(count as u16 - 1);
    let mut starts = Vec::new();
    for s in &sections {
        starts.push(image.bytes.len() as u64);
        image.bytes.extend_from_slice(&s.data);
    }
    let names_start = image.bytes.len() as u64;
    image.bytes.extend_from_slice(&names);
    image.bytes.extend_from_slice(&[0; 64]);
    for (i, s) in sections.iter().enumerate() {
        image.u32(offsets[i]);
        image.u32(s.kind);
        image.u64(0);
        image.u64(s.addr);
        image.u64(starts[i]);
        image.u64(s.size.unwrap_or(s.data.len() as u64));
        image.u32(if s.kind == 2 { 1 } else { 0 });
        image.u32(if s.kind == 2 { 1 } else { 0 });
        image.u64(1);
        image.u64(if s.kind == 2 { 24 } else { 0 });
    }
    image.u32(shstrtab_name);
    image.u32(3);
    image.u64(0);
    image.u64(0);
    image.u64(names_start);
    image.u64(names.len() as u64);
    image.u32(0);
    image.u32(0);
    image.u64(1);
    image.u64(0);
    image.bytes
}

// Abbreviations 1 to 3: compilation unit, namespace and variable, each with a name
const ABBREV: &[u8] = &[1, 0x11, 1, 3, 8, 0, 0, 2, 0x39, 1, 3, 8, 0, 0, 3, 0x34, 0, 3, 8, 0, 0, 0];

fn unit(little: bool, abbrev_offset: u32, entries: &[u8]) -> Vec<u8> {
    let mut image = Image { little, bytes: Vec::new() };
    image.u32(7 + entries.len() as u32);
    image.u16(4);
    image.u32(abbrev_offset);
    image.bytes.push(8);
    image.bytes.extend_from_slice(entries);
    image.bytes
}

// main.c: namespace ns with variable x, and variable y
fn main_unit(little: bool) -> Vec<u8> {
    unit(little, 0, b"\x01main.c\0\x02ns\0\x03x\0\0\x03y\0\0")
}

fn error_of(data: &[u8]) -> &str {
    match try_load_elf_dwarf(data, usize::MAX) {
        Some(Ok(_)) => "Ok",
        Some(Err(LoadError::Parse(_))) => "Parse",
        Some(Err(LoadError::NoDebugInfo)) => "NoDebugInfo",
        Some(Err(LoadError::Section(_))) => "Section",
        Some(Err(LoadError::NoUnits)) => "NoUnits",
        None => "None",
    }
}

#[test]
fn files_without_debug_information_are_refused() {
    assert_eq!(error_of(b"no object file"), "Parse");
    assert_eq!(error_of(&elf(true, &[], vec![])), "NoDebugInfo");
    assert_eq!(error_of(&elf(true, &[], vec![section(".debug_info", 0, b"")])), "NoUnits");
    assert_eq!(error_of(&elf(true, &[], vec![section(".debug_info", 0, b"\x01\0")])), "NoUnits");
    let mut broken = section(".debug_str", 0, b"");
    broken.size = Some(1 << 40);
    assert_eq!(error_of(&elf(true, &[], vec![section(".debug_info", 0, &main_unit(true)), broken])), "Section");
    let far = || section(".far", u64::MAX, b"ab");
    assert_eq!(error_of(&elf(true, &[], vec![section(".debug_info", 0, &main_unit(true)), far()])), "None");
    assert_eq!(error_of(&elf(true, &[], vec![section(".debug_info", 0, b""), far()])), "NoUnits");
    assert_eq!(error_of(&elf(true, &[], vec![section(".debug_info", 0, &main_unit(true))])), "Ok");
}

#[test]
fn units_and_entries_are_read() {
    for little in [true, false] {
        let mut info = main_unit(little);
        let first = info.len();
        info.extend(unit(little, 0x1000, b"\x01lost.c\0\0")); // no abbreviations there
        let second = info.len();
        info.extend(unit(little, 0, b"\x01b.c\0\x03z\0\x07\x03w\0\0")); // stops at the unknown abbreviation
        let data = elf(little, &[], vec![section(".debug_abbrev", 0, ABBREV), section(".debug_info", 0, &info)]);
        let reader = load_elf_dwarf(&data, usize::MAX).unwrap();
        assert_eq!(reader.is_little_endian, little);
        let units: Vec<(usize, usize)> = reader.units.list.iter().map(|u| (u.offset, u.length)).collect();
        assert_eq!(units, vec![(0, first), (second, info.len() - second)]);
        assert_eq!(
            reader.units.list[0].entries,
            vec![
                (0, DW_TAG_COMPILE_UNIT, Some(11)),
                (1, DW_TAG_NAMESPACE, Some(19)),
                (2, DW_TAG_VARIABLE, Some(23)),
                (1, DW_TAG_VARIABLE, Some(27)),
            ]
        );
        assert_eq!(reader.units.list[1].entries, vec![(0, DW_TAG_COMPILE_UNIT, Some(second + 11)), (1, DW_TAG_VARIABLE, Some(second + 16))]);
        assert_eq!(reader.units.get_unit(second + 1), Some(1));
    }
}

#[test]
fn one_unit_behind_the_limit_is_kept() {
    let mut info = Vec::new();
    for _ in 0..4 {
        info.extend(main_unit(true));
    }
    let data = elf(true, &[], vec![section(".debug_abbrev", 0, ABBREV), section(".debug_info", 0, &info)]);
    assert_eq!(load_elf_dwarf(&data, 0).unwrap().units.list.len(), 2);
    assert_eq!(load_elf_dwarf(&data, 1).unwrap().units.list.len(), 3);
    assert_eq!(load_elf_dwarf(&data, 3).unwrap().units.list.len(), 4);
    let mut reader = load_elf_dwarf(&data, 0).unwrap();
    reader.load_variables(0);
    assert_eq!(reader.unit_names, vec![None]);
}

#[test]
fn sections_and_symbols_are_read() {
    let data = elf(
        true,
        &[("start", 0x400), ("", 0x404), ("zero", 0), ("x", 0x408)],
        vec![
            section(".debug_info", 0, &main_unit(true)),
            section(".text", 0x400, b"code"),
            section("xcp_epk", 0x500, b"V1.0\0rest"),
            section("xcp_meta", 0x600, b"km\0"),
        ],
    );
    let reader = load_elf_dwarf(&data, usize::MAX).unwrap();
    assert_eq!(reader.sections.len(), 3);
    assert_eq!(reader.sections.get(".text"), Some(&(0x400, 0x404)));
    assert_eq!(reader.symbol_addresses.len(), 2);
    assert_eq!(reader.symbol_addresses.get("x"), Some(&0x408));
    assert_eq!((reader.epk_addr, reader.epk_string.as_deref()), (0x500, Some("V1.0")));
    assert_eq!(reader.xcp_meta_data, Some((0x600, b"km\0".to_vec())));
    assert!(reader.attributes.is_empty() && reader.cfa_info.is_empty());

    let data = elf(true, &[], vec![section(".debug_info", 0, &main_unit(true))]);
    let reader = load_elf_dwarf(&data, usize::MAX).unwrap();
    assert_eq!((reader.epk_addr, reader.epk_string, reader.xcp_meta_data), (0, None, None));
}

#[test]
fn the_epk_string_ends_with_a_zero_byte() {
    assert_eq!(read_epk(b"V1\0"), Some("V1".to_string()));
    assert_eq!(read_epk(b"\0"), Some(String::new()));
    assert_eq!(read_epk(b"V1"), None);
    assert_eq!(read_epk(b""), None);
    assert_eq!(read_epk(&[b'V', 0xFF, b'1', 0]), Some("V\u{FFFD}1".to_string()));
    assert_eq!(read_epk("\u{e4}\0".as_bytes()), Some("\u{e4}".to_string()));
}

#[test]
fn a_file_is_read_up_to_its_registry() {
    let data = elf(true, &[("evt__foo", 0x710)], vec![section(".debug_abbrev", 0, ABBREV), section(".debug_info", 0, &unit(true, 0, b"\x01main.c\0\x03evt__foo\0\x03speed\0\0")), section("xcp_evts", 0x700, &[0; 32])]);
    let mut reader = load_elf_dwarf(&data, usize::MAX).unwrap();
    let offsets: Vec<usize> = reader.units.list[0].entries.iter().map(|e| e.2.unwrap()).collect();
    let attributes = |name: &str, location: Option<(u8, u64)>| DieAttributes {
        name: Some(name.to_string()),
        linkage_name: None,
        typeref: Some(50),
        location,
        specification: None,
        abstract_origin: None,
    };
    reader.attributes.insert(offsets[0], attributes("main.c", None));
    reader.attributes.insert(offsets[1], attributes("evt__foo", None));
    reader.attributes.insert(offsets[2], attributes("speed", Some((0, 0x900))));
    let variables = reader.load_variables(usize::MAX);
    let word = elf_reader::debuginfo::TypeInfo {
        name: Some("uint16_t".to_string()),
        unit_idx: 0,
        datatype: elf_reader::debuginfo::DbgDataType::Uint16,
        dbginfo_offset: 50,
    };
    let mut typenames = NameMap::new();
    typenames.insert("uint16_t".to_string(), vec![50]);
    let debug_data = reader.collect_debug_data(variables, HashMap::from([(50, word)]), typenames);
    assert_eq!(debug_data.make_simple_unit_name(0), Some("main_c".to_string()));
    let elf = ElfReader { debug_data };
    let mut reg = Registry::new();
    elf.register_events(&mut reg).unwrap();
    assert_eq!(reg.event_list.find_event("foo", 0).unwrap().get_id(), 1);
    let format = A2lFormat { identifiers: NameMap::new(), dyn_offset_offset: 0, dyn_offset_mask: 0, dyn_offset_bits: 0 };
    elf.register_variables(&mut reg, &format, false, usize::MAX, "", "").unwrap();
    assert_eq!(reg.instance_list.instances[0].name, "speed");
    assert_eq!(reg.instance_list.instances[0].address.addr, 0x900);
}
