use elf_reader::debuginfo::{CfaInfo, DebugData, VarInfo};
use elf_reader::elf_reader::ElfReader;
use elf_reader::name_map::NameMap;
use elf_reader::registry::{McEvent, Registry, RegistryError};
use indexmap::IndexMap;
use std::collections::HashMap;

// Build an ElfReader from hand-made debug data containing only event definition (evt__) and trigger (trg__) marker variables
fn elf_reader_with_markers(markers: &[(&str, u64, &str)], event_section: Option<(u64, u64)>) -> ElfReader {
    let mut variables: IndexMap<String, Vec<VarInfo>> = IndexMap::new();
    for (name, addr, function) in markers {
        variables.entry(name.to_string()).or_default().push(VarInfo {
            address: (0, *addr),
            typeref: 0,
            unit_idx: 0,
            function: Some(function.to_string()),
            namespaces: Vec::new(),
        });
    }
    let mut sections = NameMap::new();
    if let Some(range) = event_section {
        sections.insert("xcp_evts".to_string(), range);
    }
    ElfReader {
        debug_data: DebugData {
            variables,
            types: HashMap::new(),
            typenames: NameMap::new(),
            a2l_type_names: HashMap::new(),
            demangled_names: NameMap::new(),
            unit_names: vec![Some("main.c".to_string())],
            sections,
            symbol_addresses: NameMap::new(),
            cfa_info: Vec::new(),
            epk_string: None,
            epk_addr: 0,
            xcp_meta_data: None,
            is_little_endian: true,
        },
    }
}

fn id_of(reg: &Registry, name: &str) -> u16 {
    reg.event_list.find_event(name, 0).unwrap().get_id()
}

// An event created in several functions has several definition markers, the first descriptor in the section wins,
// duplicate trigger markers must not panic either
#[test]
fn test_register_events_duplicate_definitions() {
    let elf = elf_reader_with_markers(
        &[
            ("evt__foo", 0x1010, "task_b"),
            ("evt__foo", 0x1000, "task_a"),
            ("evt__bar", 0x1020, "main"),
            ("trg__AAS__foo", 0x2000, "task_a"),
            ("trg__AAS__foo", 0x2004, "task_b"),
        ],
        Some((0x1000, 0x1030)),
    );
    let mut reg = Registry::new();
    elf.register_events(&mut reg).unwrap();
    assert_eq!(reg.event_list.find_event("foo", 0).unwrap().get_id(), 0);
    assert_eq!(reg.event_list.find_event("bar", 0).unwrap().get_id(), 2);
    assert!(reg.event_list.find_event_id(1).is_none());
    elf.register_event_locations(&mut reg).unwrap();
    assert!(reg.event_list.find_event_by_location(0, "task_a").is_some());
}

// Without an event descriptor section every event gets a unique placeholder id
#[test]
fn test_register_events_without_descriptor_section() {
    let elf = elf_reader_with_markers(&[("evt__foo", 0x1000, "main"), ("evt__bar", 0x1010, "main"), ("evt__baz", 0, "main")], None);
    let mut reg = Registry::new();
    elf.register_events(&mut reg).unwrap();
    let ids: Vec<u16> = ["foo", "bar", "baz"].iter().map(|n| reg.event_list.find_event(n, 0).unwrap().get_id()).collect();
    assert_eq!(ids, vec![0xFFFF, 0xFFFE, 0xFFFD]);
}

// Markers outside the descriptor section, without address or with an id which is already taken get placeholder ids
#[test]
fn test_register_events_marker_outside_section() {
    let elf = elf_reader_with_markers(
        &[("evt__foo", 0x1000, "main"), ("evt__out", 0x5000, "main"), ("evt__zero", 0, "main")],
        Some((0x1000, 0x1010)),
    );
    let mut reg = Registry::new();
    reg.event_list.add_event(McEvent::new("srv", 0, 0, 0)).unwrap(); // id 0 is taken, e.g. by the XCP server event information
    elf.register_events(&mut reg).unwrap();
    assert_eq!(reg.event_list.find_event("foo", 0).unwrap().get_id(), 0xFFFF);
    assert_eq!(reg.event_list.find_event("out", 0).unwrap().get_id(), 0xFFFE);
    assert_eq!(reg.event_list.find_event("zero", 0).unwrap().get_id(), 0xFFFD);
}

#[test]
fn placeholder_skips_ids_that_are_taken() {
    let elf = elf_reader_with_markers(&[("evt__a", 0, "main"), ("evt__b", 0, "main")], None);
    let mut reg = Registry::new();
    reg.event_list.add_event(McEvent::new("x", 0, 0xFFFF, 0)).unwrap();
    reg.event_list.add_event(McEvent::new("y", 0, 0xFFFD, 0)).unwrap();
    elf.register_events(&mut reg).unwrap();
    assert_eq!(id_of(&reg, "a"), 0xFFFE);
    assert_eq!(id_of(&reg, "b"), 0xFFFC);
    assert_eq!(id_of(&reg, "x"), 0xFFFF);
}

#[test]
fn too_many_events_are_found_out() {
    let elf = elf_reader_with_markers(&[("evt__a", 0, "main"), ("evt__known", 0, "main")], None);
    let mut reg = Registry::new();
    assert!(elf.check_events(&reg));
    assert!(reg.event_list.events.is_empty());
    reg.event_list.add_event(McEvent::new("known", 0, 0, 0)).unwrap();
    for id in (2..=0xFFFFu16).rev() {
        reg.event_list.events.push(McEvent::new("other", 1, id, 0));
    }
    assert!(elf.check_events(&reg));
    reg.event_list.events.push(McEvent::new("other", 1, 1, 0));
    assert!(!elf.check_events(&reg));
    assert_eq!(reg.event_list.events.len(), 0x1_0000);
}

#[test]
fn registering_events_again_changes_nothing() {
    let elf = elf_reader_with_markers(&[("evt__a", 0x1000, "main"), ("evt__b", 0, "main")], Some((0x1000, 0x1100)));
    let mut reg = Registry::new();
    elf.register_events(&mut reg).unwrap();
    elf.register_events(&mut reg).unwrap();
    assert_eq!(reg.event_list.events.len(), 2);
    assert_eq!((id_of(&reg, "a"), id_of(&reg, "b")), (0, 0xFFFF));
}

#[test]
fn other_variables_are_no_event_markers() {
    let elf = elf_reader_with_markers(&[("__evt__a", 0x1000, "main"), ("evt_b", 0x1010, "main"), ("gXcpEvt__c", 0x1010, "main")], None);
    let mut reg = Registry::new();
    elf.register_events(&mut reg).unwrap();
    assert!(reg.event_list.events.is_empty());
}

#[test]
fn linker_symbols_stand_in_for_the_descriptor_section() {
    let mut elf = elf_reader_with_markers(&[("evt__a", 0x4020, "main"), ("evt__b", 0x4040, "main")], None);
    elf.debug_data.symbol_addresses.insert("__start_xcp_evts".to_string(), 0x4000);
    elf.debug_data.symbol_addresses.insert("__stop_xcp_evts".to_string(), 0x4040);
    assert_eq!(elf.debug_data.get_event_section_addr(), 0x4000);
    assert_eq!(elf.debug_data.get_event_section_end(), Some(0x4040));
    let mut reg = Registry::new();
    elf.register_events(&mut reg).unwrap();
    assert_eq!(id_of(&reg, "a"), 2);
    assert_eq!(id_of(&reg, "b"), 0xFFFF); // at the end of the section
}

#[test]
fn linker_symbols_in_the_wrong_order_are_no_section() {
    let mut elf = elf_reader_with_markers(&[("evt__a", 0x4020, "main")], None);
    elf.debug_data.symbol_addresses.insert("__start_xcp_evts".to_string(), 0x4000);
    elf.debug_data.symbol_addresses.insert("__stop_xcp_evts".to_string(), 0x4000);
    assert_eq!(elf.debug_data.get_event_section_addr(), 0);
}

#[test]
fn descriptor_ids_wrap_at_sixteen_bits() {
    let elf = elf_reader_with_markers(&[("evt__a", 0x1000 + 16 * 0x1_0001, "main")], Some((0x1000, 0x1000_0000)));
    let mut reg = Registry::new();
    elf.register_events(&mut reg).unwrap();
    assert_eq!(id_of(&reg, "a"), 1);
}

#[test]
fn a_full_registry_leaves_the_last_id() {
    let elf = elf_reader_with_markers(&[("evt__last", 0, "main")], None);
    let mut reg = Registry::new();
    for id in 1..=0xFFFFu16 {
        reg.event_list.events.push(McEvent::new("e", id, id, 0));
    }
    elf.register_events(&mut reg).unwrap();
    assert_eq!(id_of(&reg, "last"), 0);
}

#[test]
fn event_lists_refuse_duplicates() {
    let mut reg = Registry::new();
    assert_eq!(reg.event_list.add_event(McEvent::new("a", 0, 1, 0)), Ok(()));
    assert_eq!(reg.event_list.add_event(McEvent::new("a", 0, 2, 0)), Err(RegistryError::Duplicate));
    assert_eq!(reg.event_list.add_event(McEvent::new("b", 0, 1, 0)), Err(RegistryError::Duplicate));
    assert_eq!(reg.event_list.add_event(McEvent::new("a", 1, 2, 100)), Ok(()));
    assert_eq!(reg.event_list.events.len(), 2);
    assert_eq!(reg.event_list.find_event_id(2).unwrap().cycle, 100);
    assert_eq!(reg.event_list.set_event_location("c", 0, "f", 0), Err(RegistryError::NotFound));
}

#[test]
fn all_behind_the_tag_of_a_trigger_is_the_event() {
    let elf = elf_reader_with_markers(&[("evt__a__b", 0x1000, "main"), ("trg__AAS__a__b", 0x2000, "main")], Some((0x1000, 0x1010)));
    let mut reg = Registry::new();
    elf.register_events(&mut reg).unwrap();
    assert_eq!(reg.event_list.events.len(), 1);
    elf.register_event_locations(&mut reg).unwrap();
    let event = reg.event_list.find_event_by_location(0, "main").unwrap();
    assert_eq!((event.name.as_str(), event.id), ("a__b", 0));

    let elf = elf_reader_with_markers(&[("evt__a", 0x1000, "f"), ("trg__AAS__a__b", 0x2000, "main")], Some((0x1000, 0x1010)));
    let mut reg = Registry::new();
    elf.register_events(&mut reg).unwrap();
    elf.register_event_locations(&mut reg).unwrap();
    assert_eq!(reg.event_list.find_event("a", 0).unwrap().location, None);
}

#[test]
fn trigger_locations_carry_the_frame_offset() {
    let mut elf = elf_reader_with_markers(
        &[("evt__foo", 0, "main"), ("evt__bar", 0, "main"), ("trg__AAS__foo", 0x2000, "task"), ("trg__AAS__none", 0x2000, "task"), ("trg__bar", 0, "other")],
        None,
    );
    let cfa = |function: &str, unit_idx: usize, cfa_offset: Option<i64>| CfaInfo { function: function.to_string(), unit_idx, low_pc: 0, high_pc: 0, cfa_offset };
    elf.debug_data.cfa_info = vec![cfa("task", 1, Some(8)), cfa("main", 0, Some(24)), cfa("task", 0, Some(-16)), cfa("task", 0, Some(99))];
    let mut reg = Registry::new();
    elf.register_events(&mut reg).unwrap();
    elf.register_event_locations(&mut reg).unwrap();
    let foo = reg.event_list.find_event("foo", 0).unwrap();
    assert_eq!(foo.location, Some((0, "task".to_string())));
    assert_eq!(foo.cfa, -16);
    assert_eq!(reg.event_list.find_event("bar", 0).unwrap().location, None);

    elf.debug_data.cfa_info = vec![cfa("task", 0, None), cfa("task", 0, Some(4))];
    elf.register_event_locations(&mut reg).unwrap();
    assert_eq!(reg.event_list.find_event("foo", 0).unwrap().cfa, 0);
}
