use elf_reader::dwarf::{
    check_varnames, get_elf_sections, get_symbol_addresses, get_varinfo_from_context, is_named_scope, make_a2l_type_names, make_qualified_type_name,
    verify_dwarf_compile_units, DebugDataReader, DieAttributes, DwarfUnit, UnitList, DW_TAG_CLASS_TYPE, DW_TAG_COMPILE_UNIT,
    DW_TAG_NAMESPACE, DW_TAG_PARTIAL_UNIT, DW_TAG_STRUCTURE_TYPE, DW_TAG_SUBPROGRAM, DW_TAG_UNION_TYPE, DW_TAG_VARIABLE,
};
use elf_reader::debuginfo::{DbgDataType, TypeInfo, VarInfo};
use elf_reader::demangle::{check_varname, demangle_cpp_varnames, is_useful_name};
use elf_reader::name_map::NameMap;
use indexmap::IndexMap;
use std::collections::{HashMap, HashSet};

#[test]
fn test_make_qualified_type_name() {
    let context = vec![
        (gimli::constants::DW_TAG_compile_unit.0, None),
        (gimli::constants::DW_TAG_namespace.0, Some("namespace_1".to_string())),
        (gimli::constants::DW_TAG_class_type.0, Some("Controller".to_string())),
    ];

    assert_eq!(make_qualified_type_name(&context, "TypeA"), "namespace_1.Controller.TypeA");
}

#[test]
fn test_make_a2l_type_names() {
    let mut typenames = NameMap::new();
    typenames.insert("TypeA".to_string(), vec![1, 2]);
    typenames.insert("TypeB".to_string(), vec![3, 4]);
    let qualified_type_names = HashMap::from([
        (1, "namespace_1.TypeA".to_string()),
        (2, "namespace_2.TypeA".to_string()),
        (3, "common.TypeB".to_string()),
        (4, "common.TypeB".to_string()),
    ]);
    let a2l_type_names = make_a2l_type_names(&typenames, &qualified_type_names);
    assert_eq!(a2l_type_names.get(&1).map(String::as_str), Some("namespace_1.TypeA"));
    assert_eq!(a2l_type_names.get(&2).map(String::as_str), Some("namespace_2.TypeA"));
    assert!(!a2l_type_names.contains_key(&3));
    assert!(!a2l_type_names.contains_key(&4));
}

#[test]
fn ambiguous_types_without_a_qualified_name_keep_their_plain_one() {
    let mut typenames = NameMap::new();
    typenames.insert("T".to_string(), vec![1, 2, 3]);
    typenames.insert("U".to_string(), vec![4, 5]);
    let qualified = HashMap::from([(2, "a.T".to_string()), (3, "b.T".to_string()), (4, "a.U".to_string())]);
    let names = make_a2l_type_names(&typenames, &qualified);
    assert_eq!(names.len(), 2);
    assert_eq!(names.get(&3).map(String::as_str), Some("b.T"));
}

#[test]
fn tags_are_those_of_dwarf() {
    assert_eq!(DW_TAG_CLASS_TYPE, gimli::constants::DW_TAG_class_type.0);
    assert_eq!(DW_TAG_COMPILE_UNIT, gimli::constants::DW_TAG_compile_unit.0);
    assert_eq!(DW_TAG_STRUCTURE_TYPE, gimli::constants::DW_TAG_structure_type.0);
    assert_eq!(DW_TAG_UNION_TYPE, gimli::constants::DW_TAG_union_type.0);
    assert_eq!(DW_TAG_SUBPROGRAM, gimli::constants::DW_TAG_subprogram.0);
    assert_eq!(DW_TAG_VARIABLE, gimli::constants::DW_TAG_variable.0);
    assert_eq!(DW_TAG_NAMESPACE, gimli::constants::DW_TAG_namespace.0);
    assert_eq!(DW_TAG_PARTIAL_UNIT, gimli::constants::DW_TAG_partial_unit.0);
}

#[test]
fn scopes_without_a_name_are_left_out() {
    let context = vec![
        (DW_TAG_NAMESPACE, Some("outer".to_string())),
        (DW_TAG_NAMESPACE, None),
        (DW_TAG_SUBPROGRAM, Some(String::new())),
        (gimli::constants::DW_TAG_lexical_block.0, Some("block".to_string())),
        (DW_TAG_UNION_TYPE, Some("U".to_string())),
    ];
    assert_eq!(make_qualified_type_name(&context, "T"), "outer.U.T");
    assert_eq!(make_qualified_type_name(&[], "T"), "T");
    assert!(is_named_scope(DW_TAG_STRUCTURE_TYPE));
    assert!(!is_named_scope(DW_TAG_VARIABLE));
}

#[test]
fn a_variable_knows_its_innermost_function_and_its_namespaces() {
    let context = vec![
        (DW_TAG_NAMESPACE, Some("a".to_string())),
        (DW_TAG_SUBPROGRAM, Some("outer".to_string())),
        (DW_TAG_NAMESPACE, Some("b".to_string())),
        (DW_TAG_NAMESPACE, None),
        (DW_TAG_SUBPROGRAM, Some("inner".to_string())),
        (DW_TAG_VARIABLE, None),
    ];
    assert_eq!(get_varinfo_from_context(&context), (Some("inner".to_string()), vec!["b".to_string(), "a".to_string()]));
    let unnamed = vec![(DW_TAG_SUBPROGRAM, Some("outer".to_string())), (DW_TAG_SUBPROGRAM, None)];
    assert_eq!(get_varinfo_from_context(&unnamed), (None, vec![]));
}

fn none() -> DieAttributes {
    DieAttributes { name: None, linkage_name: None, typeref: None, location: None, specification: None, abstract_origin: None }
}

fn named(name: &str) -> DieAttributes {
    DieAttributes { name: Some(name.to_string()), ..none() }
}

fn reader(units: Vec<Vec<(isize, u16, Option<usize>)>>, attributes: Vec<(usize, DieAttributes)>, symbols: &[(&str, u64)]) -> DebugDataReader {
    let mut list = UnitList::new();
    for (i, entries) in units.into_iter().enumerate() {
        list.add(DwarfUnit { offset: i * 100, length: 100, entries });
    }
    let mut symbol_addresses = NameMap::new();
    for (name, addr) in symbols {
        symbol_addresses.insert(name.to_string(), *addr);
    }
    DebugDataReader {
        units: list,
        attributes: attributes.into_iter().collect(),
        unit_names: Vec::new(),
        sections: NameMap::new(),
        cfa_info: Vec::new(),
        epk_string: None,
        epk_addr: 0,
        symbol_addresses,
        xcp_meta_data: None,
        is_little_endian: true,
    }
}

#[test]
fn units_hold_the_items_behind_their_start() {
    let r = reader(vec![vec![], vec![]], vec![], &[]);
    assert_eq!(r.units.get_unit(0), None);
    assert_eq!(r.units.get_unit(1), Some(0));
    assert_eq!(r.units.get_unit(99), Some(0));
    assert_eq!(r.units.get_unit(100), None);
    assert_eq!(r.units.get_unit(101), Some(1));
    assert_eq!(r.units.get_unit(200), None);
}

#[test]
fn name_and_type_come_from_the_specification() {
    let r = reader(
        vec![],
        vec![
            (1, DieAttributes { specification: Some(2), abstract_origin: Some(3), typeref: Some(70), location: Some((0, 0x50)), ..named("own") }),
            (2, DieAttributes { typeref: Some(71), ..named("specified") }),
            (3, DieAttributes { typeref: Some(72), ..named("origin") }),
            (4, DieAttributes { abstract_origin: Some(3), ..none() }),
            (5, DieAttributes { abstract_origin: Some(3), typeref: Some(73), location: Some((2, 8)), ..named("mine") }),
            (6, DieAttributes { specification: Some(99), typeref: Some(74), ..named("lost") }),
            (7, named("untyped")),
        ],
        &[],
    );
    assert_eq!(r.get_variable(Some(1)), Some(("specified".to_string(), 71, (0, 0x50))));
    assert_eq!(r.get_variable(Some(4)), Some(("origin".to_string(), 72, (0, 0))));
    assert_eq!(r.get_variable(Some(5)), Some(("mine".to_string(), 73, (2, 8))));
    assert_eq!(r.get_variable(Some(6)), None);
    assert_eq!(r.get_variable(Some(7)), None);
    assert_eq!(r.get_variable(Some(8)), None);
    assert_eq!(r.get_variable(None), None);
}

#[test]
fn a_missing_address_is_looked_up_in_the_symbols() {
    let var = |name: &str, linkage: Option<&str>, location: Option<(u8, u64)>| DieAttributes {
        typeref: Some(7),
        linkage_name: linkage.map(|s| s.to_string()),
        location,
        ..named(name)
    };
    let r = reader(
        vec![],
        vec![
            (1, var("x", Some("_Zx"), None)),
            (2, var("plain", Some("_Zmissing"), Some((0, 0)))),
            (3, var("abcd", None, None)),
            (4, var("bcd", None, None)),
            (5, var("twice", None, None)),
            (6, var("plain", None, Some((0x80, 0)))),
            (7, DieAttributes { specification: Some(8), linkage_name: None, ..none() }),
            (8, var("specd", Some("_Zx"), None)),
            (9, var("äb", None, None)),
        ],
        &[("_Zx", 0x10), ("plain", 0x20), ("_ZN1n4abcdE_abcd", 0x30), ("a_twice", 0x40), ("b_twice", 0x41), ("zero_abcd", 0), ("_äb", 0x50)],
    );
    let address = |offset: usize| r.get_variable(Some(offset)).unwrap().2;
    assert_eq!(address(1), (0, 0x10));
    assert_eq!(address(2), (0, 0x20));
    assert_eq!(address(3), (0, 0x30));
    assert_eq!(address(4), (0, 0)); // too short
    assert_eq!(address(5), (0, 0)); // ambiguous
    assert_eq!(address(6), (0x80, 0));
    assert_eq!(address(7), (0, 0x10));
    assert_eq!(address(9), (0, 0)); // three bytes
    assert_eq!(r.resolve_address_by_unique_suffix("_äb"), Some(0x50)); // four bytes
}

#[test]
fn variables_are_read_with_their_scopes() {
    let lexical_block = gimli::constants::DW_TAG_lexical_block.0;
    let unit0 = vec![
        (0, DW_TAG_COMPILE_UNIT, Some(1)),
        (1, DW_TAG_NAMESPACE, Some(2)),
        (2, DW_TAG_SUBPROGRAM, Some(3)),
        (3, lexical_block, Some(4)),
        (4, DW_TAG_VARIABLE, Some(5)),
        (2, DW_TAG_VARIABLE, Some(6)),
        (1, DW_TAG_VARIABLE, Some(7)),
        (1, DW_TAG_VARIABLE, Some(8)),
    ];
    let unit1 = vec![(0, DW_TAG_VARIABLE, Some(7)), (1, DW_TAG_VARIABLE, Some(7))];
    let unit2 = vec![(0, DW_TAG_PARTIAL_UNIT, Some(9)), (1, DW_TAG_VARIABLE, Some(5))];
    let var = |name: &str, addr: u64| DieAttributes { typeref: Some(50), location: Some((0, addr)), ..named(name) };
    let attributes = || {
        vec![(1, named("a.c")), (2, named("ns")), (3, named("f")), (4, named("block")), (5, var("x", 1)), (6, var("y", 2)), (7, var("x", 3)), (9, named("c.c"))]
    };
    let units = || vec![unit0.clone(), unit1.clone(), unit2.clone()];
    let mut r = reader(units(), attributes(), &[]);
    let variables = r.load_variables(usize::MAX);
    assert_eq!(r.unit_names, vec![Some("a.c".to_string()), None, Some("c.c".to_string())]);
    assert_eq!(variables.keys().cloned().collect::<Vec<_>>(), vec!["x", "y"]);
    let x: Vec<(u64, usize, Option<String>, Vec<String>)> =
        variables["x"].iter().map(|v| (v.address.1, v.unit_idx, v.function.clone(), v.namespaces.clone())).collect();
    assert_eq!(
        x,
        vec![
            (1, 0, Some("f".to_string()), vec!["ns".to_string()]),
            (3, 0, None, vec![]),
            (3, 1, None, vec![]),
            (1, 2, None, vec![]),
        ]
    );
    assert_eq!(variables["y"][0].namespaces, vec!["ns".to_string()]);
    assert_eq!(variables["y"][0].function, None);

    let mut r = reader(units(), attributes(), &[]);
    let variables = r.load_variables(0);
    assert_eq!(r.unit_names, vec![Some("a.c".to_string())]);
    assert_eq!(variables["x"].len(), 2);
}

#[test]
fn qualified_names_are_read_for_wanted_types_only() {
    let unit = vec![
        (0, DW_TAG_COMPILE_UNIT, Some(1)),
        (1, DW_TAG_NAMESPACE, Some(2)),
        (2, DW_TAG_CLASS_TYPE, Some(3)),
        (3, DW_TAG_STRUCTURE_TYPE, Some(4)),
        (1, DW_TAG_STRUCTURE_TYPE, Some(5)),
        (1, DW_TAG_STRUCTURE_TYPE, Some(6)),
        (1, DW_TAG_STRUCTURE_TYPE, None),
    ];
    let r = reader(vec![unit], vec![(1, named("a.c")), (2, named("ns")), (3, named("C")), (4, named("T")), (5, named("T"))], &[]);
    let names = r.load_qualified_type_names(&HashSet::from([4, 5, 6]));
    assert_eq!(names.len(), 2);
    assert_eq!(names[&4], "ns.C.T");
    assert_eq!(names[&5], "T");
    assert!(r.load_qualified_type_names(&HashSet::new()).is_empty());
}

#[test]
fn collected_data_tells_types_of_one_name_apart() {
    let unit = vec![
        (0, DW_TAG_COMPILE_UNIT, Some(1)),
        (1, DW_TAG_NAMESPACE, Some(2)),
        (2, DW_TAG_STRUCTURE_TYPE, Some(3)),
        (1, DW_TAG_NAMESPACE, Some(4)),
        (2, DW_TAG_STRUCTURE_TYPE, Some(5)),
        (1, DW_TAG_STRUCTURE_TYPE, Some(6)),
        (1, DW_TAG_VARIABLE, Some(7)),
    ];
    let attributes = vec![
        (2, named("namespace_1")),
        (3, named("TypeA")),
        (4, named("namespace_2")),
        (5, named("TypeA")),
        (6, named("Other")),
        (7, DieAttributes { typeref: Some(3), ..named("_ZN5space3fooE") }),
    ];
    let mut r = reader(vec![unit], attributes, &[]);
    let variables = r.load_variables(usize::MAX);
    let ty = |offset: usize, name: &str| TypeInfo { name: Some(name.to_string()), unit_idx: 0, datatype: DbgDataType::Uint8, dbginfo_offset: offset };
    let types = HashMap::from([(3, ty(3, "TypeA")), (5, ty(5, "TypeA")), (6, ty(6, "Other"))]);
    let mut typenames = NameMap::new();
    typenames.insert("TypeA".to_string(), vec![3, 5]);
    typenames.insert("Other".to_string(), vec![6]);
    let d = r.collect_debug_data(variables, types, typenames);
    assert_eq!(d.get_a2l_type_name(&d.types[&3]), Some("namespace_1.TypeA"));
    assert_eq!(d.get_a2l_type_name(&d.types[&5]), Some("namespace_2.TypeA"));
    assert_eq!(d.get_a2l_type_name(&d.types[&6]), Some("Other"));
    assert_eq!(d.demangled_names.get("_ZN5space3fooE").map(String::as_str), Some("space::foo"));
    assert_eq!(d.unit_names, vec![None]);
}

#[test]
fn names_that_refer_to_the_highest_template_parameter_are_found_out() {
    let highest = isize::MAX;
    for name in [format!("_Z1aT{highest}_"), format!("_ZN1nT{highest}_1xE"), format!("_ZN1a1bET{highest}_"), format!("_Z3a12T{highest}")] {
        assert!(!check_varname(&name), "{name}");
    }
    for name in [format!("_Z1aT{highest}0_"), format!("_Z1aT{}_", highest - 1), format!("T{highest}"), "_ZN1n1xE".to_string(), "x".to_string()] {
        assert!(check_varname(&name), "{name}");
    }
    let mut variables: IndexMap<String, Vec<VarInfo>> = IndexMap::new();
    variables.insert("_ZN1n1xE".to_string(), Vec::new());
    assert!(check_varnames(&variables));
    variables.insert(format!("_Z1aT{highest}_"), Vec::new());
    assert!(!check_varnames(&variables));
}

#[test]
fn identifiers_may_look_like_template_parameters() {
    let identifier = format!("T{}", isize::MAX);
    let plain = format!("_Z{}{identifier}", identifier.len());
    let nested = format!("_ZN1n{}{identifier}1xE", identifier.len());
    let local = format!("_ZN12_GLOBAL__N_1L{}{identifier}E", identifier.len());
    let longer = format!("_Z1aT{}0_", isize::MAX);
    for name in [&plain, &nested, &local, &longer] {
        assert!(check_varname(name), "{name}");
    }
    let file = format!("_ZL{}{identifier}", identifier.len());
    let m = demangle_cpp_varnames(&[&plain, &nested, &file, &longer]);
    assert_eq!(m.get(&file), Some(&identifier));
    assert_eq!(m.get(&plain), Some(&identifier));
    assert_eq!(m.get(&nested), Some(&format!("n::{identifier}::x")));
    assert_eq!(m.get(&longer), None);
}

#[test]
fn only_mangled_names_are_demangled() {
    let names: Vec<String> = ["c", "_ZN5space3fooEibc", "_ZTI3Foo", "_Zbroken", "x"].iter().map(|s| s.to_string()).collect();
    let input: Vec<&String> = names.iter().collect();
    let m = demangle_cpp_varnames(&input);
    assert_eq!(m.len(), 1);
    assert_eq!(m.get("_ZN5space3fooEibc").map(String::as_str), Some("space::foo"));
    assert!(m.get("c").is_none());
    assert!(!is_useful_name("typeinfo for Foo"));
    assert!(!is_useful_name("{vtable(Foo)}"));
    assert!(is_useful_name("a::{vtable"));
}

#[test]
fn sections_and_symbols_need_a_name_and_an_address() {
    let section = |name: Option<&str>, addr: u64, size: u64| (name.map(|s| s.to_string()), addr, size);
    let sections = get_elf_sections(&vec![
        section(Some(".text"), 0x100, 0x10),
        section(Some(".bss"), 0, 0x10),
        section(Some(".empty"), 0x100, 0),
        section(None, 0x100, 0x10),
        section(Some(".data"), 0x200, 1),
        section(Some(".text"), 0x300, 0x20),
    ]);
    assert_eq!(sections.len(), 2);
    assert_eq!(sections.get(".text"), Some(&(0x300, 0x320)));
    assert_eq!(sections.name(0), ".text");
    assert_eq!(sections.get(".data"), Some(&(0x200, 0x201)));
    let symbol = |name: Option<&str>, addr: u64| (name.map(|s| s.to_string()), addr);
    let symbols = get_symbol_addresses(&vec![symbol(Some("a"), 1), symbol(Some(""), 2), symbol(None, 3), symbol(Some("b"), 0), symbol(Some("a"), 4)]);
    assert_eq!(symbols.len(), 1);
    assert_eq!(symbols.get("a"), Some(&4));
}

#[test]
fn debug_information_needs_a_unit() {
    assert!(!verify_dwarf_compile_units(&vec![]));
    assert!(verify_dwarf_compile_units(&vec![(0, 10)]));
}
