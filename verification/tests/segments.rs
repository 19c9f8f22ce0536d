use elf_reader::debuginfo::{DbgDataType, DebugData, TypeInfo, VarInfo};
use elf_reader::elf_reader::ElfReader;
use elf_reader::name_map::NameMap;
use elf_reader::registry::{McCalibrationSegment, Registry, SegmentAddress};
use indexmap::IndexMap;
use std::collections::HashMap;

fn info(ext: u8, addr: u64, typeref: usize, unit_idx: usize) -> VarInfo {
    VarInfo { address: (ext, addr), typeref, unit_idx, function: None, namespaces: Vec::new() }
}

// Types 1 and 2 have 16 and 32 bytes, type 3 none
fn reader(vars: Vec<(&str, Vec<VarInfo>)>) -> ElfReader {
    let mut variables: IndexMap<String, Vec<VarInfo>> = IndexMap::new();
    for (name, infos) in vars {
        variables.insert(name.to_string(), infos);
    }
    let mut types = HashMap::new();
    for (offset, size) in [(1usize, 16u64), (2, 32), (3, 0), (4, 0x1_0000)] {
        types.insert(offset, TypeInfo { name: None, unit_idx: 0, datatype: DbgDataType::Other(size), dbginfo_offset: offset });
    }
    ElfReader {
        debug_data: DebugData {
            variables,
            types,
            typenames: NameMap::new(),
            a2l_type_names: HashMap::new(),
            demangled_names: NameMap::new(),
            unit_names: Vec::new(),
            sections: NameMap::new(),
            symbol_addresses: NameMap::new(),
            cfa_info: Vec::new(),
            epk_string: None,
            epk_addr: 0,
            xcp_meta_data: None,
            is_little_endian: true,
        },
    }
}

fn names(reg: &Registry) -> Vec<String> {
    reg.cal_seg_list.segments.iter().map(|s| s.name.clone()).collect()
}

#[test]
fn segments_come_in_the_order_of_their_markers() {
    let elf = reader(vec![
        ("calseg__late", vec![info(0, 0x300, 0, 0)]),
        ("calblk__block", vec![info(0, 0x200, 0, 0)]),
        ("calseg__early", vec![info(0, 0x100, 0, 0)]),
        ("late", vec![info(0, 0x8000, 1, 0)]),
        ("block", vec![info(0, 0x8100, 2, 0)]),
        ("early", vec![info(0, 0x8200, 1, 0)]),
    ]);
    assert!(elf.check_segments());
    let defs: Vec<(String, Option<u8>)> = elf.segment_definitions().into_iter().map(|d| (d.name, d.number)).collect();
    assert_eq!(defs, vec![("early".to_string(), Some(0)), ("block".to_string(), None), ("late".to_string(), Some(1))]);
    let mut reg = Registry::new();
    elf.register_segments(&mut reg, true).unwrap();
    assert_eq!(names(&reg), vec!["early", "block", "late"]);
    let block = reg.cal_seg_list.find_cal_seg("block").unwrap();
    assert_eq!((block.size, block.mem_addr, block.number, block.address), (32, 0x8100, None, SegmentAddress::Relative));
}

#[test]
fn markers_of_one_address_keep_their_order() {
    let elf = reader(vec![("calseg__b", vec![info(0, 7, 0, 0)]), ("calseg__a", vec![info(0, 7, 0, 0)]), ("calseg__c", vec![info(0, 5, 0, 0)])]);
    let defs: Vec<String> = elf.segment_definitions().into_iter().map(|d| d.name).collect();
    assert_eq!(defs, vec!["c", "b", "a"]);
}

#[test]
fn the_epk_segment_comes_first() {
    let mut elf = reader(vec![("calseg__p", vec![info(0, 0x10, 0, 0)]), ("calseg__epk", vec![info(0, 0x900, 0, 0)]), ("p", vec![info(0, 0x8000, 1, 0)])]);
    elf.debug_data.epk_string = Some("V1.0 ä".to_string());
    elf.debug_data.epk_addr = 0x7000;
    let mut reg = Registry::new();
    elf.register_segments(&mut reg, false).unwrap();
    assert_eq!(names(&reg), vec!["epk", "p"]);
    let epk = &reg.cal_seg_list.segments[0];
    assert_eq!((epk.number, epk.size, epk.mem_addr, epk.address), (Some(0), 7, 0x7000, SegmentAddress::Absolute(0x7000)));
    assert_eq!(reg.cal_seg_list.segments[1].number, Some(1));
}

#[test]
fn the_epk_segment_comes_before_markers_without_an_address() {
    let elf = reader(vec![
        ("calseg__p", vec![info(0, 0, 0, 0)]),
        ("calblk__epk", vec![info(0, 0x900, 0, 0)]),
        ("calseg__q", vec![info(0, 0, 0, 0)]),
        ("calseg__epk", vec![info(0, 0x904, 0, 0)]),
    ]);
    assert!(elf.check_segments());
    let defs: Vec<(String, u64, Option<u8>)> = elf.segment_definitions().into_iter().map(|d| (d.name, d.descr_addr, d.number)).collect();
    let def = |name: &str, number: Option<u8>| (name.to_string(), 0, number);
    assert_eq!(defs, vec![def("epk", None), def("epk", Some(0)), def("p", Some(1)), def("q", Some(2))]);
}

#[test]
fn without_an_epk_string_there_is_no_epk_segment() {
    let elf = reader(vec![("calseg__epk", vec![info(0, 0x900, 0, 0)]), ("epk", vec![info(0, 0x8000, 1, 0)])]);
    let mut reg = Registry::new();
    elf.register_segments(&mut reg, true).unwrap();
    assert!(reg.cal_seg_list.segments.is_empty());
}

#[test]
fn an_empty_epk_string_makes_a_relative_segment_only() {
    let mut elf = reader(vec![("calseg__epk", vec![info(0, 0x900, 0, 0)])]);
    elf.debug_data.epk_string = Some(String::new());
    elf.debug_data.epk_addr = 0x7000;
    let mut reg = Registry::new();
    elf.register_segments(&mut reg, false).unwrap();
    assert!(reg.cal_seg_list.segments.is_empty());
    elf.register_segments(&mut reg, true).unwrap();
    assert_eq!(reg.cal_seg_list.segments[0].size, 0);
}

#[test]
fn the_reference_page_has_to_be_unambiguous() {
    let elf = reader(vec![
        ("calseg__one", vec![info(0, 1, 0, 0)]),
        ("calseg__unit", vec![info(0, 2, 0, 5)]),
        ("calseg__two", vec![info(0, 3, 0, 5)]),
        ("calseg__gone", vec![info(0, 4, 0, 0)]),
        ("calseg__untyped", vec![info(0, 5, 0, 0)]),
        ("calseg__empty", vec![info(0, 6, 0, 0)]),
        ("one", vec![info(2, 0x8000, 1, 0), info(0, 0, 1, 0), info(0, 0x9000, 2, 9)]),
        ("unit", vec![info(0, 0xA000, 1, 4), info(0, 0xB000, 1, 5)]),
        ("two", vec![info(0, 0xA000, 1, 5), info(0, 0xB000, 1, 5)]),
        ("untyped", vec![info(0, 0xC000, 77, 0)]),
        ("empty", vec![info(0, 0xC000, 3, 0)]),
    ]);
    let mut reg = Registry::new();
    elf.register_segments(&mut reg, true).unwrap();
    assert_eq!(names(&reg), vec!["one", "unit"]);
    assert_eq!((reg.cal_seg_list.segments[0].mem_addr, reg.cal_seg_list.segments[0].size), (0x9000, 32));
    assert_eq!(reg.cal_seg_list.segments[1].mem_addr, 0xB000);
}

#[test]
fn absolute_segments_need_an_address_of_32_bits() {
    let elf = reader(vec![
        ("calseg__far", vec![info(0, 1, 0, 0)]),
        ("calseg__near", vec![info(0, 2, 0, 0)]),
        ("far", vec![info(0, 0xFFFF_FFFF, 1, 0)]),
        ("near", vec![info(0, 0xFFFF_FFFE, 1, 0)]),
    ]);
    let mut reg = Registry::new();
    elf.register_segments(&mut reg, false).unwrap();
    assert_eq!(names(&reg), vec!["near"]);
    assert_eq!(reg.cal_seg_list.segments[0].address, SegmentAddress::Absolute(0xFFFF_FFFE));
    let mut reg = Registry::new();
    elf.register_segments(&mut reg, true).unwrap();
    assert_eq!(names(&reg), vec!["far", "near"]);
}

fn known(name: &str, addr: u32, index: u16, size: u32) -> McCalibrationSegment<String> {
    McCalibrationSegment { name: name.to_string(), number: Some(9), address: SegmentAddress::Known { addr, index }, size, mem_addr: 0 }
}

#[test]
fn registered_segments_learn_where_their_page_lies() {
    let elf = reader(vec![
        ("calseg__rel", vec![info(0, 1, 0, 0)]),
        ("calseg__size", vec![info(0, 2, 0, 0)]),
        ("calseg__abs", vec![info(0, 3, 0, 0)]),
        ("rel", vec![info(0, 0x5000, 1, 0)]),
        ("size", vec![info(0, 0x6000, 1, 0)]),
        ("abs", vec![info(0, 0x7000, 1, 0)]),
    ]);
    let mut reg = Registry::new();
    reg.cal_seg_list.segments.push(known("rel", 0x8003_0000, 3, 16));
    reg.cal_seg_list.segments.push(known("size", 0x8004_0000, 4, 8));
    reg.cal_seg_list.segments.push(known("abs", 0x7000, 5, 16));
    elf.register_segments(&mut reg, true).unwrap();
    assert_eq!(reg.cal_seg_list.segments.len(), 3);
    assert_eq!(reg.cal_seg_list.segments[0], McCalibrationSegment { mem_addr: 0x5000, ..known("rel", 0x8003_0000, 3, 16) });
    assert_eq!(reg.cal_seg_list.segments[1], known("size", 0x8004_0000, 4, 8));
    assert_eq!(reg.cal_seg_list.segments[2], known("abs", 0x7000, 5, 16));
}

#[test]
fn more_than_255_segments_are_not_absolute() {
    let names: Vec<String> = (0..260).map(|i| format!("calblk__s{i}")).collect();
    let pages: Vec<String> = (0..260).map(|i| format!("s{i}")).collect();
    let mut vars = Vec::new();
    for i in 0..260usize {
        vars.push((names[i].as_str(), vec![info(0, 100 + i as u64, 0, 0)]));
        vars.push((pages[i].as_str(), vec![info(0, 0x1000 + i as u64, 1, 0)]));
    }
    let elf = reader(vars);
    assert!(elf.check_segments());
    let mut reg = Registry::new();
    elf.register_segments(&mut reg, false).unwrap();
    assert_eq!(reg.cal_seg_list.segments.len(), 255);
    assert_eq!(reg.cal_seg_list.segments[254].name, "s254");
}

#[test]
fn segments_that_cannot_be_registered_are_found_out() {
    assert!(!reader(vec![("calseg__a", vec![])]).check_segments());
    assert!(!reader(vec![("calblk__a", vec![info(0, 1, 0, 0), info(0, 2, 0, 0)])]).check_segments());
    assert!(!reader(vec![("calseg__a", vec![info(0, 1, 0, 0)]), ("a", vec![info(0, 0x1000, 4, 0)])]).check_segments());
    let names: Vec<String> = (0..256).map(|i| format!("calseg__s{i}")).collect();
    let mut vars: Vec<(&str, Vec<VarInfo>)> = names.iter().map(|n| (n.as_str(), vec![info(0, 1, 0, 0)])).collect();
    assert!(!reader(names.iter().map(|n| (n.as_str(), vec![info(0, 1, 0, 0)])).collect()).check_segments());
    vars.pop();
    let elf = reader(vars);
    assert!(elf.check_segments());
    assert_eq!(elf.segment_definitions()[254].number, Some(254));
}
