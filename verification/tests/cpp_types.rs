use elf_reader::debuginfo::{DbgDataType, DebugData, TypeInfo, VarInfo};
use elf_reader::dwarf::make_a2l_type_names;
use elf_reader::elf_reader::ElfReader;
use elf_reader::name_map::NameMap;
use elf_reader::registry::{A2lFormat, McInstance, McObjectType, McTypedef, McTypedefField, McValueType, Registry};
use indexmap::IndexMap;
use std::collections::HashMap;

fn basic(datatype: DbgDataType) -> TypeInfo {
    TypeInfo { name: None, unit_idx: 0, datatype, dbginfo_offset: 0 }
}

fn reference(offset: usize) -> TypeInfo {
    basic(DbgDataType::TypeRef(offset, 8))
}

fn structure(offset: usize, name: &str, size: u64, is_class: bool, members: Vec<(&str, TypeInfo, u64)>) -> TypeInfo {
    let members = members.into_iter().map(|(n, t, o)| (n.to_string(), (t, o))).collect();
    TypeInfo {
        name: Some(name.to_string()),
        unit_idx: 0,
        datatype: DbgDataType::Struct { size, is_class, inheritance: Vec::new(), members },
        dbginfo_offset: offset,
    }
}

// Two 32 bit members
fn pair(offset: usize, name: &str, is_class: bool, first: &str, second: &str) -> TypeInfo {
    structure(offset, name, 8, is_class, vec![(first, basic(DbgDataType::Uint32), 0), (second, basic(DbgDataType::Uint32), 4)])
}

// Global variables of types, one behind the other
fn reader(globals: &[(&str, usize)], types: Vec<TypeInfo>) -> ElfReader {
    let mut variables: IndexMap<String, Vec<VarInfo>> = IndexMap::new();
    for (i, (name, typeref)) in globals.iter().enumerate() {
        variables.insert(
            name.to_string(),
            vec![VarInfo { address: (0, 0x2000_0000 + 16 * i as u64), typeref: *typeref, unit_idx: 0, function: None, namespaces: Vec::new() }],
        );
    }
    ElfReader {
        debug_data: DebugData {
            variables,
            types: types.into_iter().map(|t| (t.dbginfo_offset, t)).collect(),
            typenames: NameMap::new(),
            a2l_type_names: HashMap::new(),
            demangled_names: NameMap::new(),
            unit_names: vec![Some("cpp_types.cpp".to_string())],
            sections: NameMap::new(),
            symbol_addresses: NameMap::new(),
            cfa_info: Vec::new(),
            epk_string: None,
            epk_addr: 0,
            xcp_meta_data: None,
            is_little_endian: true,
        },
    }
}

// Characters that have no place in an identifier become underscores
fn format(elf: &ElfReader) -> A2lFormat {
    let mut identifiers = NameMap::new();
    for t in elf.debug_data.types.values() {
        if let Some(name) = &t.name {
            let id: String = name.chars().map(|c| if c.is_ascii_alphanumeric() || c == '.' { c } else { '_' }).collect();
            identifiers.insert(name.clone(), id);
        }
    }
    A2lFormat { identifiers, dyn_offset_offset: 0x8000, dyn_offset_mask: 0xFFFF, dyn_offset_bits: 16 }
}

fn register(elf: &ElfReader) -> Registry {
    let mut reg = Registry::new();
    let registered = elf.try_register_variables(&mut reg, &format(elf), false, usize::MAX, "", "");
    registered.expect("variables cannot be registered").expect("register_variables failed");
    reg
}

fn measurement<'a>(reg: &'a Registry, name: &str) -> &'a McInstance<String> {
    let found = reg.instance_list.instances.iter().find(|i| i.name == name && i.object_type == McObjectType::Measurement);
    found.unwrap_or_else(|| panic!("instance '{name}' not registered"))
}

fn find_field<'a>(typedef: &'a McTypedef, name: &str) -> Option<&'a McTypedefField<String>> {
    typedef.fields.iter().find(|f| f.name == name)
}

fn new_typedef(name: &str) -> McValueType<String> {
    McValueType::TypeDef(name.to_string())
}

fn load_cpp_types() -> Registry {
    let template = |offset: usize, name: &str, is_class: bool, value: DbgDataType| {
        structure(offset, name, 8, is_class, vec![("value", basic(value), 0), ("count", basic(DbgDataType::Uint32), 4)])
    };
    let types = vec![
        pair(0x10, "PubClass", true, "x", "y"),
        template(0x20, "TplStruct<short unsigned int>", false, DbgDataType::Uint16),
        template(0x30, "TplStruct<float>", false, DbgDataType::Float),
        template(0x40, "TplClass<long unsigned int>", true, DbgDataType::Uint32),
        pair(0x50, "DerivedSS", false, "base_a", "derived_b"),
        pair(0x60, "DerivedCC", true, "cbase_a", "cderived_b"),
        pair(0x70, "DerivedCS", true, "base_a", "cs_b"),
        pair(0x80, "DerivedSC", false, "cbase_a", "sc_b"),
        structure(0x90, "Outer", 16, false, vec![("inner_class", reference(0x10), 0), ("inner_tpl", reference(0x20), 8)]),
    ];
    let globals = [
        ("g_outer", 0x90),
        ("g_pubclass", 0x10),
        ("g_tpl_struct", 0x30),
        ("g_tpl_class", 0x40),
        ("g_derived_ss", 0x50),
        ("g_derived_cc", 0x60),
        ("g_derived_cs", 0x70),
        ("g_derived_sc", 0x80),
    ];
    register(&reader(&globals, types))
}

#[test]
fn test_register_class_types() {
    let reg = load_cpp_types();

    for (var_name, typedef_name) in [
        ("g_pubclass", "PubClass"),
        ("g_tpl_class", "TplClass_long_unsigned_int_"),
        ("g_derived_cc", "DerivedCC"),
        ("g_derived_cs", "DerivedCS"),
        ("g_derived_ss", "DerivedSS"),
        ("g_derived_sc", "DerivedSC"),
    ] {
        let inst = measurement(&reg, var_name);
        assert_eq!(inst.dim_type.value_type, new_typedef(typedef_name), "{var_name}");
    }

    let pub_class = reg.typedef_list.find_typedef("PubClass").expect("typedef PubClass");
    assert_eq!(pub_class.size, 8);
    assert_eq!(find_field(pub_class, "x").map(|f| f.offset), Some(0));
    assert_eq!(find_field(pub_class, "y").map(|f| f.offset), Some(4));

    let derived_cc = reg.typedef_list.find_typedef("DerivedCC").expect("typedef DerivedCC");
    assert_eq!(find_field(derived_cc, "cbase_a").map(|f| f.offset), Some(0));
    assert_eq!(find_field(derived_cc, "cderived_b").map(|f| f.offset), Some(4));

    let outer = reg.typedef_list.find_typedef("Outer").expect("typedef Outer");
    let inner_class = find_field(outer, "inner_class").expect("field Outer.inner_class");
    assert_eq!(inner_class.dim_type.value_type, new_typedef("PubClass"));
    assert_eq!(inner_class.offset, 0);
}

#[test]
fn test_register_inherited_members() {
    let reg = load_cpp_types();

    for (typedef_name, base_member, derived_member) in [
        ("DerivedSS", "base_a", "derived_b"),
        ("DerivedCC", "cbase_a", "cderived_b"),
        ("DerivedCS", "base_a", "cs_b"),
        ("DerivedSC", "cbase_a", "sc_b"),
    ] {
        let typedef = reg.typedef_list.find_typedef(typedef_name).unwrap_or_else(|| panic!("typedef '{typedef_name}' not registered"));
        assert_eq!(typedef.size, 8, "{typedef_name}");
        assert_eq!(typedef.fields.len(), 2, "{typedef_name} member count");
        assert_eq!(find_field(typedef, base_member).map(|f| f.offset), Some(0), "{typedef_name}.{base_member}");
        assert_eq!(find_field(typedef, derived_member).map(|f| f.offset), Some(4), "{typedef_name}.{derived_member}");
    }
}

#[test]
fn test_register_template_struct_members() {
    let reg = load_cpp_types();

    for typedef_name in ["TplStruct_short_unsigned_int_", "TplStruct_float_", "TplClass_long_unsigned_int_"] {
        let typedef = reg.typedef_list.find_typedef(typedef_name).unwrap_or_else(|| panic!("typedef '{typedef_name}' not registered"));
        assert_eq!(typedef.size, 8, "{typedef_name}");
        assert_eq!(typedef.fields.len(), 2, "{typedef_name} has no members");
        assert_eq!(find_field(typedef, "value").map(|f| f.offset), Some(0), "{typedef_name}.value");
        assert_eq!(find_field(typedef, "count").map(|f| f.offset), Some(4), "{typedef_name}.count");
    }

    let outer = reg.typedef_list.find_typedef("Outer").unwrap();
    let inner_tpl = find_field(outer, "inner_tpl").expect("field Outer.inner_tpl");
    assert_eq!(inner_tpl.dim_type.value_type, new_typedef("TplStruct_short_unsigned_int_"));
    assert_eq!(inner_tpl.offset, 8);
}

#[test]
fn test_register_namespaced_types_with_colliding_names() {
    let one = |offset: usize, name: &str, member: &str| structure(offset, name, 4, false, vec![(member, basic(DbgDataType::Uint32), 0)]);
    let types = vec![
        one(0x10, "TypeA", "member_1"),
        one(0x20, "TypeA", "member_2"),
        one(0x30, "TypeB", "member_2"),
        one(0x40, "TypeB", "member_3"),
    ];
    let globals = [
        ("g_namespace_1_type_a", 0x10),
        ("g_namespace_2_type_a", 0x20),
        ("g_namespace_1_type_b", 0x30),
        ("g_namespace_2_type_b", 0x40),
    ];
    let mut elf = reader(&globals, types);
    elf.debug_data.typenames.insert("TypeA".to_string(), vec![0x10, 0x20]);
    elf.debug_data.typenames.insert("TypeB".to_string(), vec![0x30, 0x40]);
    let qualified_type_names = HashMap::from([
        (0x10, "namespace_1.TypeA".to_string()),
        (0x20, "namespace_2.TypeA".to_string()),
        (0x30, "namespace_1.TypeB".to_string()),
        (0x40, "namespace_2.TypeB".to_string()),
    ]);
    elf.debug_data.a2l_type_names = make_a2l_type_names(&elf.debug_data.typenames, &qualified_type_names);
    let reg = register(&elf);

    for (instance_name, expected_type_name) in [
        ("g_namespace_1_type_a", "namespace_1.TypeA"),
        ("g_namespace_2_type_a", "namespace_2.TypeA"),
        ("g_namespace_1_type_b", "namespace_1.TypeB"),
        ("g_namespace_2_type_b", "namespace_2.TypeB"),
    ] {
        let instance = measurement(&reg, instance_name);
        assert_eq!(instance.dim_type.value_type, new_typedef(expected_type_name), "{instance_name}");
    }

    assert_eq!(reg.typedef_list.len(), 4);
    assert!(find_field(reg.typedef_list.find_typedef("namespace_1.TypeA").unwrap(), "member_1").is_some());
    assert!(find_field(reg.typedef_list.find_typedef("namespace_2.TypeA").unwrap(), "member_2").is_some());
    assert!(find_field(reg.typedef_list.find_typedef("namespace_1.TypeB").unwrap(), "member_2").is_some());
    assert!(find_field(reg.typedef_list.find_typedef("namespace_2.TypeB").unwrap(), "member_3").is_some());
}
