use elf_reader::debuginfo::{DbgDataType, DebugData, TypeInfo, VarInfo};
use elf_reader::elf_reader::ElfReader;
use elf_reader::name_map::NameMap;
use elf_reader::registry::{
    A2lFormat, McAddress, McCalibrationSegment, McDimType, McEvent, McObjectType, McTypedef, McValueType, Registry, RegistryError, SegmentAddress,
};
use elf_reader::variables::{enumerators_to_unit_string, VariableError};
use indexmap::IndexMap;
use std::collections::HashMap;

fn ty(offset: usize, name: Option<&str>, datatype: DbgDataType) -> TypeInfo {
    TypeInfo { name: name.map(|s| s.to_string()), unit_idx: 0, datatype, dbginfo_offset: offset }
}

fn structure(offset: usize, name: Option<&str>, size: u64, is_class: bool, members: Vec<(&str, TypeInfo, u64)>) -> TypeInfo {
    let members = members.into_iter().map(|(n, t, o)| (n.to_string(), (t, o))).collect();
    ty(offset, name, DbgDataType::Struct { size, is_class, inheritance: Vec::new(), members })
}

fn reference(offset: usize) -> TypeInfo {
    ty(0, None, DbgDataType::TypeRef(offset, 0))
}

fn array(dim: Vec<u64>, elem: TypeInfo) -> TypeInfo {
    ty(0, None, DbgDataType::Array { size: 0, dim, stride: 0, arraytype: Box::new(elem) })
}

fn info(addr: (u8, u64), typeref: usize, unit_idx: usize, function: Option<&str>) -> VarInfo {
    VarInfo { address: addr, typeref, unit_idx, function: function.map(|s| s.to_string()), namespaces: Vec::new() }
}

fn reader(vars: Vec<(&str, Vec<VarInfo>)>, types: Vec<TypeInfo>) -> ElfReader {
    let mut variables: IndexMap<String, Vec<VarInfo>> = IndexMap::new();
    for (name, infos) in vars {
        variables.insert(name.to_string(), infos);
    }
    ElfReader {
        debug_data: DebugData {
            variables,
            types: types.into_iter().map(|t| (t.dbginfo_offset, t)).collect(),
            typenames: NameMap::new(),
            a2l_type_names: HashMap::new(),
            demangled_names: NameMap::new(),
            unit_names: vec![Some("src/main.c".to_string()), None],
            sections: NameMap::new(),
            symbol_addresses: NameMap::new(),
            cfa_info: Vec::new(),
            epk_string: None,
            epk_addr: 0,
            xcp_meta_data: None,
            is_little_endian: true,
        },
    }
}

// Offsets are moved by 0x8000 into the low 16 bits, the event id stands above them
fn format() -> A2lFormat {
    A2lFormat { identifiers: NameMap::new(), dyn_offset_offset: 0x8000, dyn_offset_mask: 0xFFFF, dyn_offset_bits: 16 }
}

fn register(elf: &ElfReader, reg: &mut Registry) {
    assert!(elf.check_variables(reg, &format(), usize::MAX, "", ""));
    elf.register_variables(reg, &format(), false, usize::MAX, "", "").unwrap();
}

fn names(reg: &Registry) -> Vec<&str> {
    reg.instance_list.instances.iter().map(|i| i.name.as_str()).collect()
}

fn value_type(reg: &Registry, name: &str) -> String {
    format!("{:?}", reg.instance_list.instances.iter().find(|i| i.name == name).unwrap().dim_type.value_type)
}

fn fields(typedef: &McTypedef) -> Vec<(&str, u16)> {
    typedef.fields.iter().map(|f| (f.name.as_str(), f.offset)).collect()
}

const U8: usize = 1000;

fn byte() -> TypeInfo {
    ty(U8, Some("uint8_t"), DbgDataType::Uint8)
}

#[test]
fn basic_types_have_value_types() {
    let kinds = vec![
        (DbgDataType::Uint8, "Ubyte"),
        (DbgDataType::Uint16, "Uword"),
        (DbgDataType::Uint32, "Ulong"),
        (DbgDataType::Uint64, "Ulonglong"),
        (DbgDataType::Sint8, "Sbyte"),
        (DbgDataType::Sint16, "Sword"),
        (DbgDataType::Sint32, "Slong"),
        (DbgDataType::Sint64, "Slonglong"),
        (DbgDataType::Float, "Float32Ieee"),
        (DbgDataType::Double, "Float64Ieee"),
    ];
    for (datatype, expected) in kinds {
        let elf = reader(vec![("v", vec![info((0, 0x100), 5, 0, None)])], vec![ty(5, None, datatype)]);
        let mut reg = Registry::new();
        register(&elf, &mut reg);
        assert_eq!(value_type(&reg, "v"), expected);
        assert_eq!(reg.instance_list.instances[0].address, McAddress { event_id: Some(0), addr: 0x100, addr_ext: 0 });
    }
}

#[test]
fn pointers_and_other_types_are_not_registered_as_variables() {
    for datatype in [
        DbgDataType::Pointer(4, 0),
        DbgDataType::FuncPtr(4),
        DbgDataType::Other(4),
        DbgDataType::TypeRef(U8, 1),
        DbgDataType::Union { size: 4, members: Vec::new() },
        DbgDataType::Bitfield { basetype: Box::new(byte()), bit_offset: 0, bit_size: 1 },
    ] {
        let elf = reader(vec![("v", vec![info((0, 0x100), 5, 0, None)])], vec![ty(5, None, datatype), byte()]);
        let mut reg = Registry::new();
        register(&elf, &mut reg);
        assert!(reg.instance_list.instances.is_empty());
    }
}

#[test]
fn fields_have_value_types_too() {
    let members = vec![
        ("p4", ty(0, None, DbgDataType::Pointer(4, 0)), 0),
        ("p8", ty(0, None, DbgDataType::Pointer(8, 0)), 8),
        ("p2", ty(0, None, DbgDataType::Pointer(2, 0)), 16),
        ("e", ty(0, None, DbgDataType::Enum { size: 2, signed: true, enumerators: vec![] }), 18),
        ("r", reference(U8), 20),
        ("dangling", reference(77), 21),
        ("u", ty(0, None, DbgDataType::Union { size: 4, members: Vec::new() }), 24),
        ("anon", structure(0, None, 4, false, vec![("x", byte(), 0)]), 28),
        ("one", array(vec![0x1_0003], byte()), 32),
        ("two", array(vec![3, 4], reference(U8)), 36),
        ("three", array(vec![3, 4, 5], byte()), 40),
        ("nested", array(vec![3], array(vec![2], ty(0, None, DbgDataType::Double))), 44),
        ("last", byte(), 0xFFFF),
        ("far", byte(), 0x1_0000),
    ];
    let elf = reader(vec![("v", vec![info((0, 0x100), 5, 0, None)])], vec![structure(5, Some("S"), 64, false, members), byte()]);
    let mut reg = Registry::new();
    register(&elf, &mut reg);
    assert_eq!(reg.typedef_list.len(), 1);
    let s = reg.typedef_list.find_typedef("S").unwrap();
    assert_eq!(s.size, 64);
    let dims: Vec<(&str, String, u16, u16)> =
        s.fields.iter().map(|f| (f.name.as_str(), format!("{:?}", f.dim_type.value_type), f.dim_type.x_dim, f.dim_type.y_dim)).collect();
    let expected = [
        ("p4", "Ulong", 1, 1),
        ("p8", "Ulonglong", 1, 1),
        ("p2", "Ulonglong", 1, 1),
        ("e", "Integer { size: 2, signed: true }", 1, 1),
        ("r", "Ubyte", 1, 1),
        ("dangling", "Ubyte", 1, 1),
        ("u", "Ubyte", 1, 1),
        ("anon", "Ubyte", 1, 1),
        ("one", "Ubyte", 3, 1),
        ("two", "Ubyte", 3, 4),
        ("three", "Ubyte", 1, 1),
        ("nested", "Ubyte", 3, 1),
        ("last", "Ubyte", 1, 1),
    ];
    let expected: Vec<(&str, String, u16, u16)> = expected.iter().map(|(n, t, x, y)| (*n, t.to_string(), *x, *y)).collect();
    assert_eq!(dims, expected);
    assert_eq!(s.fields[12].offset, 0xFFFF);
}

// Structs and classes are registered alike, base members stand among the members
#[test]
fn classes_are_registered_like_structs() {
    let word = || ty(2, Some("uint32_t"), DbgDataType::Uint32);
    let pub_class = || structure(10, Some("PubClass"), 8, true, vec![("x", word(), 0), ("y", word(), 4)]);
    let derived = structure(11, Some("DerivedCC"), 8, true, vec![("cbase_a", word(), 0), ("cderived_b", word(), 4)]);
    let outer = structure(12, Some("Outer"), 16, false, vec![("inner_class", pub_class(), 0), ("inner_ref", reference(11), 8)]);
    let elf = reader(
        vec![("g_outer", vec![info((0, 0x100), 12, 0, None)]), ("g_pubclass", vec![info((0, 0x200), 10, 0, None)])],
        vec![pub_class(), derived, outer, word()],
    );
    let mut reg = Registry::new();
    register(&elf, &mut reg);
    assert_eq!(value_type(&reg, "g_pubclass"), "TypeDef(\"PubClass\")");
    let typedefs: Vec<&str> = reg.typedef_list.typedefs.iter().map(|t| t.name.as_str()).collect();
    assert_eq!(typedefs, vec!["Outer", "PubClass", "DerivedCC"]);
    let pub_class = reg.typedef_list.find_typedef("PubClass").unwrap();
    assert_eq!(pub_class.size, 8);
    assert_eq!(fields(pub_class), vec![("x", 0), ("y", 4)]);
    assert_eq!(fields(reg.typedef_list.find_typedef("DerivedCC").unwrap()), vec![("cbase_a", 0), ("cderived_b", 4)]);
    let outer = reg.typedef_list.find_typedef("Outer").unwrap();
    assert_eq!(outer.fields[0].dim_type, McDimType { value_type: McValueType::TypeDef("PubClass".to_string()), x_dim: 1, y_dim: 1 });
    assert_eq!(outer.fields[1].dim_type.value_type, McValueType::TypeDef("DerivedCC".to_string()));
}

#[test]
fn type_names_become_identifiers() {
    let tpl = structure(10, Some("TplStruct<short unsigned int>"), 8, false, vec![("value", byte(), 0), ("count", byte(), 4)]);
    let elf = reader(vec![("v", vec![info((0, 0x100), 10, 0, None)])], vec![tpl]);
    let mut format = format();
    format.identifiers.insert("TplStruct<short unsigned int>".to_string(), "TplStruct_short_unsigned_int_".to_string());
    let mut reg = Registry::new();
    elf.register_variables(&mut reg, &format, false, usize::MAX, "", "").unwrap();
    assert_eq!(value_type(&reg, "v"), "TypeDef(\"TplStruct_short_unsigned_int_\")");
    let typedef = reg.typedef_list.find_typedef("TplStruct_short_unsigned_int_").unwrap();
    assert_eq!(fields(typedef), vec![("value", 0), ("count", 4)]);
}

// Identically named types in different namespaces get distinct typedefs and matching instance references
#[test]
fn qualified_type_names_are_used_where_plain_ones_collide() {
    let a1 = structure(10, Some("TypeA"), 4, false, vec![("member_1", byte(), 0)]);
    let a2 = structure(11, Some("TypeA"), 4, false, vec![("member_2", byte(), 0)]);
    let mut elf = reader(vec![("v1", vec![info((0, 0x100), 10, 0, None)]), ("v2", vec![info((0, 0x200), 11, 0, None)])], vec![a1, a2]);
    elf.debug_data.a2l_type_names.insert(10, "namespace_1.TypeA".to_string());
    elf.debug_data.a2l_type_names.insert(11, "namespace_2.TypeA".to_string());
    let mut reg = Registry::new();
    register(&elf, &mut reg);
    assert_eq!(value_type(&reg, "v1"), "TypeDef(\"namespace_1.TypeA\")");
    assert_eq!(reg.typedef_list.len(), 2);
    assert_eq!(fields(reg.typedef_list.find_typedef("namespace_2.TypeA").unwrap()), vec![("member_2", 0)]);
}

#[test]
fn a_struct_that_refers_to_itself_is_registered_once() {
    let list = structure(10, Some("List"), 16, false, vec![("value", byte(), 0), ("again", reference(10), 8), ("many", array(vec![2], reference(11)), 12)]);
    let alias = ty(11, Some("ListAlias"), DbgDataType::TypeRef(10, 16));
    let elf = reader(vec![("a", vec![info((0, 0x100), 10, 0, None)]), ("b", vec![info((0, 0x200), 10, 0, None)])], vec![list, alias]);
    let mut reg = Registry::new();
    register(&elf, &mut reg);
    register(&elf, &mut reg);
    assert_eq!(reg.typedef_list.len(), 1);
    assert_eq!(fields(reg.typedef_list.find_typedef("List").unwrap()), vec![("value", 0), ("again", 8), ("many", 12)]);
    assert_eq!(reg.instance_list.instances.len(), 4);
}

#[test]
fn a_registered_type_keeps_its_definition() {
    let s = structure(10, Some("S"), 4, false, vec![("new", byte(), 0)]);
    let elf = reader(vec![("v", vec![info((0, 0x100), 10, 0, None)])], vec![s]);
    let mut reg = Registry::new();
    assert_eq!(reg.typedef_list.add_typedef("S", 99), Ok(0));
    assert_eq!(reg.typedef_list.add_typedef("S", 1), Err(RegistryError::Duplicate));
    register(&elf, &mut reg);
    assert_eq!(reg.typedef_list.len(), 1);
    assert_eq!(reg.typedef_list.find_typedef("S").unwrap().size, 99);
    assert!(reg.typedef_list.find_typedef("S").unwrap().fields.is_empty());
}

// A struct of one field of a type, with a variable of it
fn check_field(field: TypeInfo, mut types: Vec<TypeInfo>) -> bool {
    types.push(structure(50, Some("S"), 4, false, vec![("f", field, 0)]));
    let elf = reader(vec![("v", vec![info((0, 0x100), 50, 0, None)])], types);
    elf.check_variables(&Registry::new(), &format(), usize::MAX, "", "")
}

#[test]
fn types_that_cannot_be_registered_are_found_out() {
    let link = |from: usize, to: usize| ty(from, None, DbgDataType::TypeRef(to, 0));
    assert!(check_field(reference(1), vec![byte(), link(1, 2), link(2, U8)]));
    assert!(check_field(reference(1), vec![link(1, 2)]));
    assert!(!check_field(reference(1), vec![link(1, 2), link(2, 1)]));
    assert!(!check_field(reference(1), vec![link(1, 1)]));
    assert!(!check_field(array(vec![], byte()), vec![]));
    assert!(!check_field(structure(0, Some("T"), 4, false, vec![("a", byte(), 0), ("b", array(vec![], byte()), 0)]), vec![]));
    assert!(check_field(structure(0, Some("T"), 4, false, vec![("b", array(vec![1], byte()), 0)]), vec![]));
    assert!(check_field(structure(0, Some("T"), 4, false, vec![("far", array(vec![], byte()), 0x1_0000)]), vec![]));
    assert!(check_field(structure(0, None, 4, false, vec![("b", array(vec![], byte()), 0)]), vec![]));
    let list = |next: TypeInfo| structure(20, Some("List"), 8, false, vec![("next", next, 0), ("last", reference(21), 4)]);
    assert!(check_field(reference(20), vec![list(reference(20)), structure(21, Some("Last"), 4, false, vec![("up", reference(20), 0)])]));
    assert!(!check_field(reference(20), vec![list(reference(20)), structure(21, Some("Last"), 4, false, vec![("a", array(vec![], byte()), 0)])]));
}

#[test]
fn only_types_of_registered_variables_matter() {
    let bad = || ty(5, None, DbgDataType::Array { size: 0, dim: vec![], stride: 0, arraytype: Box::new(byte()) });
    let check = |vars: Vec<(&str, Vec<VarInfo>)>, name_filter: &str, unit_filter: &str| {
        let elf = reader(vars, vec![bad(), byte()]);
        let mut reg = Registry::new();
        let ok = elf.check_variables(&reg, &format(), 1, name_filter, unit_filter);
        let result = elf.try_register_variables(&mut reg, &format(), false, 1, name_filter, unit_filter);
        assert_eq!(result.is_some(), ok);
        (ok, reg.instance_list.instances.len())
    };
    let with = |i: VarInfo| vec![("a", vec![i]), ("b", vec![info((0, 0x200), U8, 0, None)])];
    assert_eq!(check(with(info((0, 0x100), 5, 0, None)), "", ""), (false, 0));
    assert_eq!(check(with(info((0, 0), 5, 0, None)), "", ""), (true, 1));
    assert_eq!(check(with(info((0, 0x100), 5, 2, None)), "", ""), (true, 1));
    assert_eq!(check(with(info((0, 0x100), 5, 0, None)), "^b$", ""), (true, 1));
    assert_eq!(check(with(info((0, 0x100), 5, 1, None)), "", "main"), (true, 1));
    assert_eq!(check(with(info((0, 0x100), 5, 0, None)), "(", ""), (true, 0));
    assert_eq!(check(with(info((0, 0x100), 5, 0, None)), "", "("), (true, 0));
    assert_eq!(check(vec![("__a", vec![info((0, 0x100), 5, 0, None)])], "", ""), (true, 0));
}

#[test]
fn fields_have_the_distinct_names_of_members() {
    let s = structure(10, Some("S"), 8, false, vec![("a", byte(), 0), ("far", byte(), 0x1_0000), ("b", byte(), 1), ("c", reference(10), 4)]);
    let elf = reader(vec![("v", vec![info((0, 0x100), 10, 0, None)])], vec![s]);
    let mut reg = Registry::new();
    register(&elf, &mut reg);
    assert_eq!(fields(reg.typedef_list.find_typedef("S").unwrap()), vec![("a", 0), ("b", 1), ("c", 4)]);
}

#[test]
fn enumerators_become_a_unit_text() {
    let e = |pairs: &[(&str, i64)]| pairs.iter().map(|(n, v)| (n.to_string(), *v)).collect::<Vec<_>>();
    assert_eq!(enumerators_to_unit_string(&e(&[])), None);
    assert_eq!(enumerators_to_unit_string(&e(&[("OFF", 0)])), Some("0 \"OFF\"".to_string()));
    assert_eq!(
        enumerators_to_unit_string(&e(&[("A", -1), ("B", i64::MIN), ("C", i64::MAX)])),
        Some("-1 \"A\" -9223372036854775808 \"B\" 9223372036854775807 \"C\"".to_string())
    );
}

#[test]
fn enum_variables_carry_their_texts() {
    let e = ty(5, None, DbgDataType::Enum { size: 4, signed: false, enumerators: vec![("OFF".to_string(), 0), ("ON".to_string(), 1)] });
    let none = ty(6, None, DbgDataType::Enum { size: 1, signed: true, enumerators: vec![] });
    let elf = reader(vec![("e", vec![info((0, 0x100), 5, 0, None)]), ("n", vec![info((0, 0x200), 6, 0, None)])], vec![e, none]);
    let mut reg = Registry::new();
    register(&elf, &mut reg);
    assert_eq!(reg.instance_list.instances[0].unit, Some("0 \"OFF\" 1 \"ON\"".to_string()));
    assert_eq!(reg.instance_list.instances[0].dim_type.value_type, McValueType::Integer { size: 4, signed: false });
    assert_eq!(reg.instance_list.instances[1].unit, None);
}

#[test]
fn internal_names_and_markers_are_skipped() {
    let all = ["__x", "gXcpX", "gA2lX", "calseg__x", "calblk__x", "evt__x", "trg__x", "xcp_meta__unit__x", "x", "_x", "daq__none__x"];
    let vars = all.iter().map(|n| (*n, vec![info((0, 0x100), U8, 0, None)])).collect();
    let elf = reader(vars, vec![byte()]);
    let mut reg = Registry::new();
    register(&elf, &mut reg);
    assert_eq!(names(&reg), vec!["x", "_x"]);
}

#[test]
fn filters_select_names_and_units() {
    let vars = || vec![("alpha", vec![info((0, 0x100), U8, 0, None), info((0, 0x104), U8, 1, Some("f"))]), ("beta", vec![info((0, 0x108), U8, 0, None)])];
    let elf = reader(vars(), vec![byte()]);
    let run = |limit: usize, name_filter: &str, unit_filter: &str| {
        let mut reg = Registry::new();
        elf.register_variables(&mut reg, &format(), false, limit, name_filter, unit_filter).unwrap();
        names(&reg).iter().map(|n| n.to_string()).collect::<Vec<_>>()
    };
    assert_eq!(run(usize::MAX, "", ""), vec!["alpha", "f.alpha", "beta"]);
    assert_eq!(run(usize::MAX, "^b", ""), vec!["beta"]);
    assert_eq!(run(usize::MAX, "lph", ""), vec!["alpha", "f.alpha"]);
    assert_eq!(run(usize::MAX, "", "^main_c$"), vec!["alpha", "beta"]);
    assert_eq!(run(usize::MAX, "", "^1$"), vec!["f.alpha"]);
    assert_eq!(run(0, "", ""), vec!["alpha", "beta"]);
}

#[test]
fn invalid_filters_are_errors() {
    let elf = reader(vec![("x", vec![info((0, 0x100), U8, 0, None)])], vec![byte()]);
    let mut reg = Registry::new();
    let r = elf.register_variables(&mut reg, &format(), false, usize::MAX, "(", "(");
    assert!(matches!(r, Err(VariableError::InvalidNameFilter(_))));
    let r = elf.register_variables(&mut reg, &format(), false, usize::MAX, "x", "[");
    assert!(matches!(r, Err(VariableError::InvalidUnitFilter(_))));
    assert!(reg.instance_list.instances.is_empty());
}

#[test]
fn addresses_have_to_fit_32_bits() {
    let vars = vec![
        ("none", vec![info((0, 0), U8, 0, None)]),
        ("top", vec![info((0, 0xFFFF_FFFE), U8, 0, None)]),
        ("over", vec![info((0, 0xFFFF_FFFF), U8, 0, None)]),
        ("ext", vec![info((1, 0x100), U8, 0, None)]),
        ("tls", vec![info((0x80, 0x100), U8, 0, None)]),
        ("untyped", vec![info((0, 0x100), 77, 0, None)]),
    ];
    let elf = reader(vars, vec![byte()]);
    let mut reg = Registry::new();
    register(&elf, &mut reg);
    assert_eq!(names(&reg), vec!["top"]);
    let mut reg = Registry::new();
    elf.register_variables(&mut reg, &format(), true, usize::MAX, "", "").unwrap();
    assert_eq!(reg.instance_list.instances[0].address, McAddress { event_id: Some(0), addr: 0xFFFF_FFFE, addr_ext: 1 });
}

fn with_events() -> Registry {
    let mut reg = Registry::new();
    reg.event_list.add_event(McEvent::new("fast", 0, 3, 0)).unwrap();
    reg.event_list.add_event(McEvent::new("slow", 0, 5, 0)).unwrap();
    reg.event_list.set_event_location("fast", 0, "task", -32).unwrap();
    reg
}

#[test]
fn measurements_get_the_event_of_their_function() {
    let vars = vec![
        ("local", vec![info((0, 0x100), U8, 0, Some("task"))]),
        ("other_unit", vec![info((0, 0x104), U8, 1, Some("task"))]),
        ("global", vec![info((0, 0x108), U8, 0, None)]),
        ("many", vec![info((0, 0x10C), U8, 0, Some("task")), info((0, 0x110), U8, 0, Some("idle")), info((0, 0x114), U8, 0, None)]),
    ];
    let elf = reader(vars, vec![byte()]);
    let mut reg = with_events();
    register(&elf, &mut reg);
    let got: Vec<(&str, Option<u16>)> = reg.instance_list.instances.iter().map(|i| (i.name.as_str(), i.address.event_id)).collect();
    assert_eq!(
        got,
        vec![("local", Some(3)), ("other_unit", Some(0)), ("global", Some(0)), ("task.many", Some(3)), ("idle.many", Some(0)), ("many", Some(0))]
    );
}

#[test]
fn captured_variables_are_named_with_their_event() {
    let vars = vec![
        ("daq__slow__speed", vec![info((0, 0x100), U8, 1, Some("f"))]),
        ("daq__fast__pos__x", vec![info((0, 0x104), U8, 0, Some("task"))]),
        ("daq__fast__pos__y", vec![info((0, 0x106), U8, 0, Some("task"))]),
        ("daq__slow", vec![info((0, 0x108), U8, 1, None)]),
        ("daq__unknown__x", vec![info((0, 0x10C), U8, 1, None)]),
        ("daq__slow__twice", vec![info((0, 0x110), U8, 1, Some("f")), info((0, 0x114), U8, 1, Some("g"))]),
    ];
    let elf = reader(vars, vec![byte()]);
    let mut reg = with_events();
    register(&elf, &mut reg);
    let got: Vec<(&str, Option<u16>)> = reg.instance_list.instances.iter().map(|i| (i.name.as_str(), i.address.event_id)).collect();
    assert_eq!(
        got,
        vec![
            ("slow.speed", Some(5)),
            ("fast.pos__x", Some(3)),
            ("fast.pos__y", Some(3)),
            ("slow.", Some(5)),
            ("f.daq__slow__twice", Some(5)),
            ("g.daq__slow__twice", Some(5)),
        ]
    );
}

#[test]
fn stack_variables_hold_offset_and_event() {
    let at = |offset: i64| (2u8, (0x8000_0000i64 + offset) as u64);
    let vars = vec![
        ("a", vec![info(at(0), U8, 0, Some("task"))]),
        ("low", vec![info(at(-0x8000 + 32), U8, 0, Some("task"))]),
        ("too_low", vec![info(at(-0x8001 + 32), U8, 0, Some("task"))]),
        ("high", vec![info(at(0x7FFF + 32), U8, 0, Some("task"))]),
        ("too_high", vec![info(at(0x8000 + 32), U8, 0, Some("task"))]),
        ("far", vec![info((2, u64::MAX), U8, 0, Some("task"))]),
        ("no_event", vec![info(at(0), U8, 0, Some("idle"))]),
    ];
    let elf = reader(vars, vec![byte()]);
    let mut reg = with_events();
    register(&elf, &mut reg);
    let got: Vec<(&str, McAddress)> = reg.instance_list.instances.iter().map(|i| (i.name.as_str(), i.address)).collect();
    let address = |addr: u32| McAddress { event_id: Some(3), addr, addr_ext: 2 };
    assert_eq!(got, vec![("task.a", address(0x3_7FE0)), ("task.low", address(0x3_0000)), ("task.high", address(0x3_FFFF))]);
}

fn segment(name: &str, address: SegmentAddress, mem_addr: u64, size: u32) -> McCalibrationSegment<String> {
    McCalibrationSegment { name: name.to_string(), number: None, address, size, mem_addr }
}

#[test]
fn variables_in_a_segment_are_parameters() {
    let vars = vec![
        ("before", vec![info((0, 0x4FFF), U8, 0, None)]),
        ("first", vec![info((0, 0x5000), U8, 0, None)]),
        ("last", vec![info((0, 0x500F), U8, 0, None)]),
        ("behind", vec![info((0, 0x5010), U8, 0, None)]),
        ("abs", vec![info((0, 0x6004), U8, 0, None)]),
    ];
    let elf = reader(vars, vec![byte()]);
    let mut reg = Registry::new();
    reg.cal_seg_list.add_cal_seg(segment("rel", SegmentAddress::Known { addr: 0x8001_0000, index: 1 }, 0x5000, 16));
    reg.cal_seg_list.add_cal_seg(segment("abs", SegmentAddress::Absolute(0x6000), 0x6000, 16));
    elf.register_variables(&mut reg, &format(), true, usize::MAX, "", "").unwrap();
    let got: Vec<(McObjectType, u32, u8)> = reg.instance_list.instances.iter().map(|i| (i.object_type, i.address.addr, i.address.addr_ext)).collect();
    let (m, c) = (McObjectType::Measurement, McObjectType::Characteristic);
    assert_eq!(got, vec![(m, 0x4FFF, 1), (c, 0x8001_0000, 0), (c, 0x8001_000F, 0), (m, 0x5010, 1), (c, 0x6004, 0)]);
    assert_eq!(reg.instance_list.instances[1].address.event_id, None);
}

#[test]
fn segments_without_an_address_are_found_out() {
    let elf = reader(vec![("v", vec![info((0, 0x5004), U8, 1, None)]), ("far", vec![info((0, 0x2_5000), U8, 0, None)])], vec![byte()]);
    let check = |s: McCalibrationSegment<String>, limit: usize| {
        let mut reg = Registry::new();
        reg.cal_seg_list.add_cal_seg(s);
        elf.check_variables(&reg, &format(), limit, "", "")
    };
    assert!(!check(segment("s", SegmentAddress::Relative, 0x5000, 16), usize::MAX));
    assert!(check(segment("s", SegmentAddress::Relative, 0x5000, 16), 0));
    assert!(check(segment("s", SegmentAddress::Absolute(0), 0x5000, 16), usize::MAX));
    assert!(!check(segment("s", SegmentAddress::Absolute(0), 0x5000, 0x10_0000), usize::MAX));
    assert!(!check(segment("s", SegmentAddress::Absolute(0xFFFF_FFFD), 0x5000, 16), usize::MAX));
    assert!(check(segment("s", SegmentAddress::Absolute(0xFFFF_FFFB), 0x5000, 16), usize::MAX));
    let mut wide = format();
    wide.dyn_offset_bits = 64;
    assert!(!elf.check_variables(&Registry::new(), &wide, 0, "", ""));
}

#[test]
fn registered_instances_stay_in_front() {
    let elf = reader(vec![("v", vec![info((0, 0x100), U8, 0, None)])], vec![byte()]);
    let mut reg = Registry::new();
    register(&elf, &mut reg);
    register(&elf, &mut reg);
    assert_eq!(names(&reg), vec!["v", "v"]);
    assert_eq!(reg.instance_list.instances[0], reg.instance_list.instances[1]);
}
