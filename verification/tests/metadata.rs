use elf_reader::bytes::bytes_before_zero;
use elf_reader::debuginfo::{DebugData, VarInfo};
use elf_reader::elf_reader::ElfReader;
use elf_reader::metadata::read_cstr_at;
use elf_reader::name_map::NameMap;
use elf_reader::registry::{McAddress, McDimType, McInstance, McMetadata, McObjectType, McValueType, MetadataRequest, Registry};
use indexmap::IndexMap;
use std::collections::HashMap;

const BASE: u64 = 0x1000;

fn reader(vars: &[(&str, u64)], data: Option<Vec<u8>>) -> ElfReader {
    let mut variables: IndexMap<String, Vec<VarInfo>> = IndexMap::new();
    for (name, addr) in vars {
        variables.entry(name.to_string()).or_default().push(VarInfo { address: (0, *addr), typeref: 0, unit_idx: 0, function: None, namespaces: Vec::new() });
    }
    variables.insert("xcp_meta__unit__nowhere".to_string(), Vec::new());
    ElfReader {
        debug_data: DebugData {
            variables,
            types: HashMap::new(),
            typenames: NameMap::new(),
            a2l_type_names: HashMap::new(),
            demangled_names: NameMap::new(),
            unit_names: Vec::new(),
            sections: NameMap::new(),
            symbol_addresses: NameMap::new(),
            cfa_info: Vec::new(),
            epk_string: None,
            epk_addr: 0,
            xcp_meta_data: data.map(|d| (BASE, d)),
            is_little_endian: true,
        },
    }
}

fn registry(names: &[&str]) -> Registry {
    let mut reg = Registry::new();
    for name in names {
        reg.instance_list.add_instance(McInstance {
            name: name.to_string(),
            dim_type: McDimType { value_type: McValueType::Ubyte, x_dim: 1, y_dim: 1 },
            object_type: McObjectType::Measurement,
            unit: None,
            address: McAddress { event_id: None, addr: 0, addr_ext: 0 },
        });
    }
    reg
}

fn instance(name: &str, data: McMetadata<String>) -> MetadataRequest<String> {
    MetadataRequest::Instance { name: name.to_string(), data }
}

fn field(instance: &str, path: &str, data: McMetadata<String>) -> MetadataRequest<String> {
    MetadataRequest::Field { instance: instance.to_string(), path: path.to_string(), data }
}

#[test]
fn strings_end_before_a_zero_byte_or_with_the_data() {
    assert_eq!(read_cstr_at(b"ab\0cd", 0), Some("ab".to_string()));
    assert_eq!(read_cstr_at(b"ab\0cd", 1), Some("b".to_string()));
    assert_eq!(read_cstr_at(b"ab\0cd", 2), Some(String::new()));
    assert_eq!(read_cstr_at(b"ab\0cd", 3), Some("cd".to_string()));
    assert_eq!(read_cstr_at(b"ab\0cd", 5), None);
    assert_eq!(read_cstr_at(b"", 0), None);
    assert_eq!(read_cstr_at("\u{b5}s\0".as_bytes(), 0), Some("\u{b5}s".to_string()));
    assert_eq!(read_cstr_at(&[0xFF, b'a', 0], 0), None);
    assert_eq!(read_cstr_at(&[b'a', 0, 0xFF], 0), Some("a".to_string()));
    assert_eq!(bytes_before_zero(b"ab\0cd", 5), b"");
}

#[test]
fn kinds_of_metadata_are_read() {
    let mut data = b"km/h\0".to_vec();
    data.extend_from_slice(&1.5f64.to_le_bytes());
    data.extend_from_slice(&(-2.0f64).to_le_bytes());
    let elf = reader(
        &[
            ("xcp_meta__unit__speed", BASE),
            ("xcp_meta__comment__speed", BASE + 2),
            ("xcp_meta__min__speed", BASE + 5),
            ("xcp_meta__max__speed", BASE + 13),
            ("xcp_meta__read_write__speed", BASE + 20),
            ("xcp_meta__other__speed", BASE),
            ("xcp_meta__max__speed2", BASE + 14),
        ],
        Some(data),
    );
    let mut reg = registry(&["speed", "speed2"]);
    elf.register_metadata(&mut reg).unwrap();
    assert_eq!(
        reg.metadata,
        vec![
            instance("speed", McMetadata::Unit("km/h".to_string())),
            instance("speed", McMetadata::Comment("/h".to_string())),
            instance("speed", McMetadata::Min(1.5f64.to_bits())),
            instance("speed", McMetadata::Max((-2.0f64).to_bits())),
            instance("speed", McMetadata::ReadWrite),
        ]
    );
}

#[test]
fn paths_lead_to_fields_and_instances() {
    let elf = reader(&[("xcp_meta__unit__params__delay_us", BASE), ("xcp_meta__unit__delay_us", BASE)], Some(b"us\0".to_vec()));
    let mut reg = registry(&["params", "params.delay_us", "main.params.delay_us", "xparams.delay_us", "delay_us"]);
    elf.register_metadata(&mut reg).unwrap();
    let us = || McMetadata::Unit("us".to_string());
    assert_eq!(
        reg.metadata,
        vec![
            field("params", "delay_us", us()),
            instance("params.delay_us", us()),
            instance("main.params.delay_us", us()),
            instance("params.delay_us", us()),
            instance("main.params.delay_us", us()),
            instance("xparams.delay_us", us()),
            instance("delay_us", us()),
        ]
    );
}

#[test]
fn deeper_paths_keep_their_dots() {
    let elf = reader(&[("xcp_meta__read_write__a__b__c_d", BASE)], Some(vec![0]));
    let mut reg = registry(&[]);
    elf.register_metadata(&mut reg).unwrap();
    assert_eq!(reg.metadata, vec![field("a", "b.c_d", McMetadata::ReadWrite)]);
}

#[test]
fn metadata_outside_the_section_is_left_out() {
    let elf = reader(
        &[
            ("xcp_meta__unit__a", BASE - 1),
            ("xcp_meta__unit__b", BASE + 3),
            ("xcp_meta__unit__c", 0),
            ("xcp_meta__unit", BASE),
            ("xcp_meta__unit__d", BASE + 2),
            ("unit__e", BASE),
        ],
        Some(b"us\0".to_vec()),
    );
    let mut reg = registry(&["a", "b", "c", "d", "e", "unit"]);
    elf.register_metadata(&mut reg).unwrap();
    assert_eq!(reg.metadata, vec![instance("d", McMetadata::Unit(String::new()))]);
}

#[test]
fn without_a_section_there_is_no_metadata() {
    let mut elf = reader(&[("xcp_meta__read_write__a", BASE)], None);
    elf.debug_data.is_little_endian = false;
    let mut reg = registry(&["a"]);
    elf.register_metadata(&mut reg).unwrap();
    assert!(reg.metadata.is_empty());
}
