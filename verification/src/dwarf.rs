//! The reader of DWARF debug information: from the entries of the units and their attributes to
//! variables, with the scope they are defined in, and to unambiguous names of types.
use indexmap::IndexMap;
use std::collections::{HashMap, HashSet};
use vstd::prelude::*;
use vstd::string::*;
use vstd::utf8::*;

use crate::bytes::{before_zero, bytes_before_zero, string_from_utf8_lossy, utf8_lossy};
use crate::debuginfo::{opt_text, CfaInfo, DebugData, TypeInfo, VarInfo, VarView};
use crate::demangle::{
    can_parse_all, check_varname, demangle_cpp_varnames, demangled_names, name_pairs, texts,
};
use crate::dwarf_file::{
    debug_info_units, dwarf_loads, list_entries, list_units, load_dwarf_sections, section_bytes,
    unit_entries,
};
use crate::name_map::{lemma_find_name, lookup, upsert, NameMap};
use crate::object_file::{
    find_section, is_little_endian, list_sections, list_symbols, object_little_endian, object_parses,
    object_section, object_sections, object_symbols, parse_object, section_views, symbol_views,
};
use crate::text::{ends_with, same_text, strings};
use crate::variable_map::{
    instance_views, lemma_with_instance_views, new_variable_map, push_instance, variable_at, variable_count,
    variable_entries, with_instance,
};

verus! {

pub const DW_TAG_CLASS_TYPE: u16 = 0x02;

pub const DW_TAG_COMPILE_UNIT: u16 = 0x11;

pub const DW_TAG_STRUCTURE_TYPE: u16 = 0x13;

pub const DW_TAG_UNION_TYPE: u16 = 0x17;

pub const DW_TAG_SUBPROGRAM: u16 = 0x2e;

pub const DW_TAG_VARIABLE: u16 = 0x34;

pub const DW_TAG_NAMESPACE: u16 = 0x39;

pub const DW_TAG_PARTIAL_UNIT: u16 = 0x3c;

/// The scopes around an entry, the outermost one first: the tag of each, and its name if it is of
/// interest.
pub open spec fn scopes(v: Seq<(u16, Option<String>)>) -> Seq<(u16, Option<Seq<char>>)> {
    v.map_values(|s: (u16, Option<String>)| (s.0, opt_text(s.1)))
}

/// The name of the innermost function among some scopes.
pub open spec fn function_in(context: Seq<(u16, Option<Seq<char>>)>) -> Option<Seq<char>>
    decreases context.len(),
{
    if context.len() == 0 {
        None
    } else if context.last().0 == DW_TAG_SUBPROGRAM {
        context.last().1
    } else {
        function_in(context.drop_last())
    }
}

/// The names of the namespaces among some scopes, the innermost one first.
pub open spec fn namespaces_in(context: Seq<(u16, Option<Seq<char>>)>) -> Seq<Seq<char>>
    decreases context.len(),
{
    if context.len() == 0 {
        Seq::empty()
    } else {
        let outer = namespaces_in(context.drop_last());
        match context.last() {
            (tag, Some(name)) => if tag == DW_TAG_NAMESPACE {
                seq![name] + outer
            } else {
                outer
            },
            (_, None) => outer,
        }
    }
}

/// The function and the namespaces that a variable is defined in.
pub fn get_varinfo_from_context(context: &[(u16, Option<String>)]) -> (r: (
    Option<String>,
    Vec<String>,
))
    ensures
        opt_text(r.0) == function_in(scopes(context@)),
        strings(r.1@) == namespaces_in(scopes(context@)),
{
    let ghost all = scopes(context@);
    let n: usize = context.len();
    let mut function: Option<String> = None;
    let mut found = false;
    let mut namespaces: Vec<String> = Vec::new();
    let mut i: usize = n;
    assert(all.take(n as int) =~= all);
    assert(strings(namespaces@) + namespaces_in(all) =~= namespaces_in(all));
    while i > 0
        invariant
            n == context@.len(),
            i <= n,
            all == scopes(context@),
            found ==> opt_text(function) == function_in(all),
            !found ==> function is None && function_in(all) == function_in(all.take(i as int)),
            strings(namespaces@) + namespaces_in(all.take(i as int)) == namespaces_in(all),
        decreases i,
    {
        let ghost t = all.take(i as int);
        assert(t.drop_last() =~= all.take(i - 1));
        let (tag, name) = &context[i - 1];
        assert(t.last() == (*tag, opt_text(*name)));
        i = i - 1;
        if *tag == DW_TAG_SUBPROGRAM && !found {
            found = true;
            function = match name {
                Some(s) => Some(s.clone()),
                None => None,
            };
        }
        if *tag == DW_TAG_NAMESPACE {
            if let Some(s) = name {
                let ghost before = strings(namespaces@);
                namespaces.push(s.clone());
                proof {
                    let outer = namespaces_in(all.take(i as int));
                    assert(strings(namespaces@) =~= before.push(s@));
                    assert(before + (seq![s@] + outer) =~= before.push(s@) + outer);
                }
            }
        }
    }
    proof {
        assert(all.take(0) =~= Seq::<(u16, Option<Seq<char>>)>::empty());
        assert(strings(namespaces@) =~= strings(namespaces@) + namespaces_in(all.take(0)));
    }
    (function, namespaces)
}

/// A scope whose name is part of the qualified names of the types in it.
pub open spec fn named_scope(tag: u16) -> bool {
    ||| tag == DW_TAG_NAMESPACE
    ||| tag == DW_TAG_SUBPROGRAM
    ||| tag == DW_TAG_STRUCTURE_TYPE
    ||| tag == DW_TAG_CLASS_TYPE
    ||| tag == DW_TAG_UNION_TYPE
}

/// Whether the name of a scope is part of the qualified names of the types in it.
pub fn is_named_scope(tag: u16) -> (r: bool)
    ensures
        r == named_scope(tag),
{
    tag == DW_TAG_NAMESPACE || tag == DW_TAG_SUBPROGRAM || tag == DW_TAG_STRUCTURE_TYPE || tag
        == DW_TAG_CLASS_TYPE || tag == DW_TAG_UNION_TYPE
}

/// The names of the first `n` scopes, each followed by a dot; without scopes that have no name.
pub open spec fn scope_path(context: Seq<(u16, Option<Seq<char>>)>, n: nat) -> Seq<char>
    decreases n,
{
    if n == 0 {
        Seq::empty()
    } else {
        let outer = scope_path(context, (n - 1) as nat);
        match context[n - 1] {
            (tag, Some(name)) => if named_scope(tag) && name.len() > 0 {
                outer + name + "."@
            } else {
                outer
            },
            (_, None) => outer,
        }
    }
}

/// The qualified name of a type: the names of the scopes around it, and its own, joined by dots.
pub fn make_qualified_type_name(context: &[(u16, Option<String>)], plain_name: &str) -> (r: String)
    ensures
        r@ == scope_path(scopes(context@), context@.len()) + plain_name@,
{
    let ghost all = scopes(context@);
    let n: usize = context.len();
    let mut s = String::new();
    for i in 0..n
        invariant
            n == context@.len(),
            all == scopes(context@),
            s@ == scope_path(all, i as nat),
    {
        let (tag, name) = &context[i];
        assert(all[i as int] == (*tag, opt_text(*name)));
        if is_named_scope(*tag) {
            if let Some(t) = name {
                if t.as_str().unicode_len() > 0 {
                    s.append(t.as_str());
                    s.append(".");
                }
            }
        }
    }
    s.append(plain_name);
    s
}

/// Two of the types have qualified names that differ.
pub open spec fn is_ambiguous(refs: Seq<usize>, qualified: Map<usize, String>) -> bool {
    exists|i: int, j: int|
        0 <= i < refs.len() && 0 <= j < refs.len() && qualified.contains_key(#[trigger] refs[i])
            && qualified.contains_key(#[trigger] refs[j]) && qualified[refs[i]]@
            != qualified[refs[j]]@
}

/// A type has a name that it shares with a type of another qualified name, among the first `n`
/// names.
pub open spec fn shares_name(
    names: Seq<(Seq<char>, Vec<usize>)>,
    qualified: Map<usize, String>,
    r: usize,
    n: int,
) -> bool {
    exists|k: int|
        0 <= k < n && k < names.len() && (#[trigger] names[k]).1@.contains(r) && is_ambiguous(
            names[k].1@,
            qualified,
        )
}

/// Whether two of the types have qualified names that differ.
fn names_differ(refs: &Vec<usize>, qualified: &HashMap<usize, String>) -> (r: bool)
    ensures
        r == is_ambiguous(refs@, qualified@),
{
    broadcast use vstd::std_specs::hash::group_hash_axioms;

    let n: usize = refs.len();
    let mut first: Option<usize> = None;
    for i in 0..n
        invariant
            n == refs@.len(),
            match first {
                Some(f) => f < i && qualified@.contains_key(refs@[f as int]) && forall|k: int|
                    0 <= k < i && qualified@.contains_key(#[trigger] refs@[k])
                        ==> qualified@[refs@[k]]@ == qualified@[refs@[f as int]]@,
                None => forall|k: int| 0 <= k < i ==> !qualified@.contains_key(#[trigger] refs@[k]),
            },
    {
        if let Some(name) = qualified.get(&refs[i]) {
            match first {
                Some(f) => {
                    if let Some(first_name) = qualified.get(&refs[f]) {
                        if !same_text(name.as_str(), first_name.as_str()) {
                            assert(qualified@[refs@[i as int]]@ != qualified@[refs@[f as int]]@);
                            return true;
                        }
                    }
                },
                None => {
                    first = Some(i);
                },
            }
        }
    }
    false
}

/// The qualified names of those types whose plain name is ambiguous.
pub fn make_a2l_type_names(
    typenames: &NameMap<Vec<usize>>,
    qualified_type_names: &HashMap<usize, String>,
) -> (m: HashMap<usize, String>)
    ensures
        forall|r: usize| #[trigger]
            m@.contains_key(r) <==> qualified_type_names@.contains_key(r) && shares_name(
                typenames.order(),
                qualified_type_names@,
                r,
                typenames.order().len() as int,
            ),
        forall|r: usize| #[trigger]
            m@.contains_key(r) ==> m@[r]@ == qualified_type_names@[r]@,
{
    broadcast use vstd::std_specs::hash::group_hash_axioms;

    let ghost names = typenames.order();
    let ghost qualified = qualified_type_names@;
    let mut m: HashMap<usize, String> = HashMap::new();
    let n: usize = typenames.len();
    let mut i: usize = 0;
    while i < n
        invariant
            n == names.len(),
            names == typenames.order(),
            qualified == qualified_type_names@,
            i <= n,
            forall|r: usize| #[trigger]
                m@.contains_key(r) <==> qualified.contains_key(r) && shares_name(
                    names,
                    qualified,
                    r,
                    i as int,
                ),
            forall|r: usize| #[trigger] m@.contains_key(r) ==> m@[r]@ == qualified[r]@,
        decreases n - i,
    {
        let refs = typenames.value(i);
        let ghost before = m@;
        if names_differ(refs, qualified_type_names) {
            let len: usize = refs.len();
            for j in 0..len
                invariant
                    len == refs@.len(),
                    qualified == qualified_type_names@,
                    forall|r: usize| #[trigger]
                        m@.contains_key(r) <==> before.contains_key(r) || (qualified.contains_key(r)
                            && refs@.take(j as int).contains(r)),
                    forall|r: usize| #[trigger] m@.contains_key(r) ==> m@[r]@ == qualified[r]@,
            {
                let r: usize = refs[j];
                let ghost m0 = m@;
                if let Some(name) = qualified_type_names.get(&r) {
                    m.insert(r, name.clone());
                }
                assert forall|q: usize| #[trigger] m@.contains_key(q) <==> before.contains_key(q)
                    || (qualified.contains_key(q) && refs@.take(j + 1).contains(q)) by {
                    let t = refs@.take(j as int);
                    let t1 = refs@.take(j + 1);
                    assert(t1 =~= t.push(r));
                    if t.contains(q) {
                        let k = choose|k: int| 0 <= k < t.len() && t[k] == q;
                        assert(t1[k] == q);
                    }
                    if t1.contains(q) && q != r {
                        let k = choose|k: int| 0 <= k < t1.len() && t1[k] == q;
                        assert(t[k] == q);
                    }
                    assert(t1[j as int] == r);
                    assert(m0.contains_key(q) <==> before.contains_key(q) || (
                    qualified.contains_key(q) && t.contains(q)));
                }
            }
            assert(refs@.take(len as int) =~= refs@);
        }
        proof {
            assert(names[i as int].1 == *refs);
            assert forall|r: usize| #[trigger] m@.contains_key(r) <==> qualified.contains_key(r)
                && shares_name(names, qualified, r, i + 1) by {
                assert(before.contains_key(r) <==> qualified.contains_key(r) && shares_name(
                    names,
                    qualified,
                    r,
                    i as int,
                ));
                if shares_name(names, qualified, r, i as int) {
                    let k = choose|k: int|
                        0 <= k < i && k < names.len() && (#[trigger] names[k]).1@.contains(r)
                            && is_ambiguous(names[k].1@, qualified);
                    assert(names[k].1@.contains(r));
                }
                if shares_name(names, qualified, r, i + 1) {
                    let k = choose|k: int|
                        0 <= k < i + 1 && k < names.len() && (#[trigger] names[k]).1@.contains(r)
                            && is_ambiguous(names[k].1@, qualified);
                    if k < i {
                        assert(shares_name(names, qualified, r, i as int));
                    }
                }
            }
        }
        i = i + 1;
    }
    m
}

/// What the attributes of an entry tell.
#[derive(Debug)]
pub struct DieAttributes {
    pub name: Option<String>,
    pub linkage_name: Option<String>,
    /// Offset of the type.
    pub typeref: Option<usize>,
    /// Address extension and address.
    pub location: Option<(u8, u64)>,
    /// Offset of the entry that declares what this entry defines.
    pub specification: Option<usize>,
    /// Offset of the entry that this entry is a concrete instance of.
    pub abstract_origin: Option<usize>,
}

/// What is known of an entry.
pub struct DieView {
    pub name: Option<Seq<char>>,
    pub linkage_name: Option<Seq<char>>,
    pub typeref: Option<usize>,
    pub location: Option<(u8, u64)>,
    pub specification: Option<usize>,
    pub abstract_origin: Option<usize>,
}

impl View for DieAttributes {
    type V = DieView;

    open spec fn view(&self) -> DieView {
        DieView {
            name: opt_text(self.name),
            linkage_name: opt_text(self.linkage_name),
            typeref: self.typeref,
            location: self.location,
            specification: self.specification,
            abstract_origin: self.abstract_origin,
        }
    }
}

/// What is known of the entry at an offset; nothing if it has no attributes.
pub open spec fn die(attributes: Map<usize, DieAttributes>, offset: Option<usize>) -> DieView {
    match offset {
        Some(o) => if attributes.contains_key(o) {
            attributes[o]@
        } else {
            no_attributes()
        },
        None => no_attributes(),
    }
}

/// An entry without attributes.
pub open spec fn no_attributes() -> DieView {
    DieView {
        name: None,
        linkage_name: None,
        typeref: None,
        location: None,
        specification: None,
        abstract_origin: None,
    }
}

/// The addresses of the symbols whose names end with a name, among the first `n`.
pub open spec fn suffix_addresses(
    symbols: Seq<(Seq<char>, u64)>,
    name: Seq<char>,
    n: nat,
) -> Seq<u64>
    decreases n,
{
    if n == 0 {
        Seq::empty()
    } else {
        let before = suffix_addresses(symbols, name, (n - 1) as nat);
        let (symbol, addr) = symbols[n - 1];
        if addr != 0 && name.is_suffix_of(symbol) {
            before.push(addr)
        } else {
            before
        }
    }
}

/// The address of the only symbol whose name ends with a name of four bytes or more; shorter names
/// are too ambiguous in mangled symbols.
pub open spec fn unique_suffix_address(symbols: Seq<(Seq<char>, u64)>, name: Seq<char>) -> Option<
    u64,
> {
    let found = suffix_addresses(symbols, name, symbols.len());
    if encode_utf8(name).len() >= 4 && found.len() == 1 {
        Some(found[0])
    } else {
        None
    }
}

/// The address of the symbol for a variable: the symbol of its linkage name, or else of its name,
/// or else the only one that ends with its name.
pub open spec fn symbol_address(
    symbols: Seq<(Seq<char>, u64)>,
    linkage_name: Option<Seq<char>>,
    name: Seq<char>,
) -> Option<u64> {
    if linkage_name is Some && lookup(symbols, linkage_name->0) is Some {
        lookup(symbols, linkage_name->0)
    } else if lookup(symbols, name) is Some {
        lookup(symbols, name)
    } else {
        unique_suffix_address(symbols, name)
    }
}

/// The first of two options that holds something.
pub open spec fn first_some<T>(a: Option<T>, b: Option<T>) -> Option<T> {
    match a {
        Some(v) => Some(v),
        None => b,
    }
}

/// The address of a variable: its location, or else, where that is 0 or unknown, the address of a
/// symbol, or else 0.
pub open spec fn variable_address(location: Option<(u8, u64)>, symbol: Option<u64>) -> (u8, u64) {
    match location {
        Some(address) => if address != (0u8, 0u64) {
            address
        } else {
            (0u8, first_some(symbol, Some(0u64))->0)
        },
        None => (0u8, first_some(symbol, Some(0u64))->0),
    }
}

/// The name, type and address of a variable. Name and type come from the entry that specifies it if
/// there is one; else from its own entry, or from the entry of its abstract origin. Nothing without
/// a name or a type.
pub open spec fn variable_of(
    attributes: Map<usize, DieAttributes>,
    symbols: Seq<(Seq<char>, u64)>,
    entry: Option<usize>,
) -> Option<(Seq<char>, usize, (u8, u64))> {
    let a = die(attributes, entry);
    let b = match (a.specification, a.abstract_origin) {
        (Some(s), _) => die(attributes, Some(s)),
        (None, Some(o)) => die(attributes, Some(o)),
        (None, None) => no_attributes(),
    };
    let name = if a.specification is Some {
        b.name
    } else {
        first_some(a.name, b.name)
    };
    let typeref = if a.specification is Some {
        b.typeref
    } else {
        first_some(a.typeref, b.typeref)
    };
    match (name, typeref) {
        (Some(n), Some(t)) => {
            let own = symbol_address(symbols, a.linkage_name, n);
            let other = symbol_address(symbols, b.linkage_name, n);
            Some((n, t, variable_address(a.location, first_some(own, other))))
        },
        _ => None,
    }
}

/// A unit of the debug information.
#[derive(Debug)]
pub struct DwarfUnit {
    /// Offset in the debug info section.
    pub offset: usize,
    /// Length with the header.
    pub length: usize,
    /// The entries in depth-first order: depth, tag and offset in the debug info section.
    pub entries: Vec<(isize, u16, Option<usize>)>,
}

/// The units of the debug information.
#[derive(Debug)]
pub struct UnitList {
    pub list: Vec<DwarfUnit>,
}

/// An item lies in a unit, behind its first byte.
pub open spec fn unit_holds(unit: DwarfUnit, itemoffset: usize) -> bool {
    unit.offset < itemoffset < unit.offset + unit.length
}

impl UnitList {
    /// Every unit ends within the address space.
    pub open spec fn ends_fit(&self) -> bool {
        forall|i: int|
            0 <= i < self.list@.len() ==> (#[trigger] self.list@[i]).offset + self.list@[i].length
                <= usize::MAX
    }

    /// A list without units.
    pub fn new() -> (units: Self)
        ensures
            units.list@.len() == 0,
    {
        UnitList { list: Vec::new() }
    }

    /// Adds a unit at the end.
    pub fn add(&mut self, unit: DwarfUnit)
        ensures
            final(self).list@ == old(self).list@.push(unit),
    {
        self.list.push(unit);
    }

    /// The first unit that an item lies in.
    pub fn get_unit(&self, itemoffset: usize) -> (r: Option<usize>)
        requires
            self.ends_fit(),
        ensures
            match r {
                Some(i) => i < self.list@.len() && unit_holds(self.list@[i as int], itemoffset)
                    && forall|j: int|
                    0 <= j < i ==> !unit_holds(#[trigger] self.list@[j], itemoffset),
                None => forall|j: int|
                    0 <= j < self.list@.len() ==> !unit_holds(
                        #[trigger] self.list@[j],
                        itemoffset,
                    ),
            },
    {
        let n: usize = self.list.len();
        for i in 0..n
            invariant
                n == self.list@.len(),
                self.ends_fit(),
                forall|j: int| 0 <= j < i ==> !unit_holds(#[trigger] self.list@[j], itemoffset),
        {
            let unit = &self.list[i];
            assert(self.list@[i as int].offset + self.list@[i as int].length <= usize::MAX);
            if unit.offset < itemoffset && unit.offset + unit.length > itemoffset {
                return Some(i);
            }
        }
        None
    }
}

/// The reader of the debug information of a file.
pub struct DebugDataReader {
    pub units: UnitList,
    /// What the attributes of the entries tell, by the offset of the entry.
    pub attributes: HashMap<usize, DieAttributes>,
    /// Compilation unit names by unit index.
    pub unit_names: Vec<Option<String>>,
    /// Section name to its start and end.
    pub sections: NameMap<(u64, u64)>,
    /// Functions that contain an event trigger.
    pub cfa_info: Vec<CfaInfo>,
    /// The EPK string of the `xcp_epk` section.
    pub epk_string: Option<String>,
    /// Address of the `xcp_epk` section, 0 if there is none.
    pub epk_addr: u64,
    /// ELF symbol name to address.
    pub symbol_addresses: NameMap<u64>,
    /// Base address and bytes of the `xcp_meta` section.
    pub xcp_meta_data: Option<(u64, Vec<u8>)>,
    /// Byte order of the file.
    pub is_little_endian: bool,
}

/// The scopes around an entry at a depth: those that were entered at that depth or deeper are left.
pub open spec fn enclosing(
    context: Seq<(u16, Option<Seq<char>>)>,
    depth: isize,
) -> Seq<(u16, Option<Seq<char>>)> {
    if 1 <= depth <= context.len() {
        context.take(depth - 1)
    } else {
        context
    }
}

/// The name of a scope, as far as it tells where a variable is defined.
pub open spec fn scope_name(
    attributes: Map<usize, DieAttributes>,
    tag: u16,
    offset: Option<usize>,
) -> Option<Seq<char>> {
    if tag == DW_TAG_NAMESPACE || tag == DW_TAG_SUBPROGRAM {
        die(attributes, offset).name
    } else {
        None
    }
}

/// The scopes that are open after the entries from the second one up to `n`.
pub open spec fn open_scopes(
    attributes: Map<usize, DieAttributes>,
    entries: Seq<(isize, u16, Option<usize>)>,
    n: nat,
) -> Seq<(u16, Option<Seq<char>>)>
    decreases n,
{
    if n <= 1 {
        Seq::empty()
    } else {
        let (depth, tag, offset) = entries[n - 1];
        enclosing(open_scopes(attributes, entries, (n - 1) as nat), depth).push(
            (tag, scope_name(attributes, tag, offset)),
        )
    }
}

/// The variables after the entries of a unit, from the second one up to `n`, came to them: an entry
/// that is a variable with a name and a type becomes an instance, defined in the scopes that are
/// open.
pub open spec fn unit_variables(
    attributes: Map<usize, DieAttributes>,
    symbols: Seq<(Seq<char>, u64)>,
    unit_idx: usize,
    entries: Seq<(isize, u16, Option<usize>)>,
    vars: Seq<(Seq<char>, Seq<VarView>)>,
    n: nat,
) -> Seq<(Seq<char>, Seq<VarView>)>
    decreases n,
{
    if n <= 1 {
        vars
    } else {
        let before = unit_variables(
            attributes,
            symbols,
            unit_idx,
            entries,
            vars,
            (n - 1) as nat,
        );
        let (_, tag, offset) = entries[n - 1];
        if tag != DW_TAG_VARIABLE {
            before
        } else {
            match variable_of(attributes, symbols, offset) {
                Some((name, typeref, address)) => {
                    let context = open_scopes(attributes, entries, n);
                    with_instance(
                        before,
                        name,
                        VarView {
                            address,
                            typeref,
                            unit_idx,
                            function: function_in(context),
                            namespaces: namespaces_in(context),
                        },
                    )
                },
                None => before,
            }
        }
    }
}

/// The name of a unit: that of its first entry, if it is the root of a unit.
pub open spec fn unit_name_of(
    attributes: Map<usize, DieAttributes>,
    entries: Seq<(isize, u16, Option<usize>)>,
) -> Option<Seq<char>> {
    if entries.len() > 0 && (entries[0].1 == DW_TAG_COMPILE_UNIT || entries[0].1
        == DW_TAG_PARTIAL_UNIT) {
        die(attributes, entries[0].2).name
    } else {
        None
    }
}

/// The optional texts in a list.
pub open spec fn opt_texts(v: Seq<Option<String>>) -> Seq<Option<Seq<char>>> {
    v.map_values(|s: Option<String>| opt_text(s))
}

impl DebugDataReader {
    /// The number of units that are read for variables with a limit on the unit index.
    pub open spec fn units_read(&self, unit_idx_limit: usize) -> nat {
        if unit_idx_limit < self.units.list@.len() {
            (unit_idx_limit + 1) as nat
        } else {
            self.units.list@.len()
        }
    }

    /// The names of the first `n` units.
    pub open spec fn names_of_units(&self, n: nat) -> Seq<Option<Seq<char>>> {
        Seq::new(n, |i: int| unit_name_of(self.attributes@, self.units.list@[i].entries@))
    }

    /// The variables of the first `n` units.
    pub open spec fn variables_of_units(&self, n: nat) -> Seq<(Seq<char>, Seq<VarView>)>
        decreases n,
    {
        if n == 0 {
            Seq::empty()
        } else {
            let entries = self.units.list@[n - 1].entries@;
            unit_variables(
                self.attributes@,
                self.symbol_addresses.order(),
                (n - 1) as usize,
                entries,
                self.variables_of_units((n - 1) as nat),
                entries.len(),
            )
        }
    }

    /// What the attributes of an entry tell.
    fn find_die(&self, offset: Option<usize>) -> (r: Option<&DieAttributes>)
        ensures
            match r {
                Some(d) => die(self.attributes@, offset) == d@,
                None => die(self.attributes@, offset) == no_attributes(),
            },
    {
        broadcast use vstd::std_specs::hash::group_hash_axioms;

        match offset {
            Some(o) => self.attributes.get(&o),
            None => None,
        }
    }

    /// The name of an entry.
    fn get_name(&self, offset: Option<usize>) -> (r: Option<String>)
        ensures
            opt_text(r) == die(self.attributes@, offset).name,
    {
        match self.find_die(offset) {
            Some(d) => match &d.name {
                Some(s) => Some(s.clone()),
                None => None,
            },
            None => None,
        }
    }

    /// The address of the only symbol whose name ends with a name.
    pub fn resolve_address_by_unique_suffix(&self, var_name: &str) -> (r: Option<u64>)
        ensures
            r == unique_suffix_address(self.symbol_addresses.order(), var_name@),
    {
        if var_name.as_bytes().len() < 4 {
            return None;
        }
        let ghost symbols = self.symbol_addresses.order();
        let mut found: Vec<u64> = Vec::new();
        let n: usize = self.symbol_addresses.len();
        for i in 0..n
            invariant
                n == symbols.len(),
                symbols == self.symbol_addresses.order(),
                found@ == suffix_addresses(symbols, var_name@, i as nat),
        {
            let addr: u64 = *self.symbol_addresses.value(i);
            if addr != 0 && ends_with(self.symbol_addresses.name(i), var_name) {
                found.push(addr);
            }
        }
        if found.len() == 1 {
            Some(found[0])
        } else {
            None
        }
    }

    /// The address of the symbol for a variable.
    fn resolve_address_from_symbols(&self, die: Option<&DieAttributes>, var_name: &str) -> (r: Option<
        u64,
    >)
        ensures
            r == symbol_address(
                self.symbol_addresses.order(),
                match die {
                    Some(d) => d@.linkage_name,
                    None => None,
                },
                var_name@,
            ),
    {
        if let Some(d) = die {
            if let Some(linkage_name) = &d.linkage_name {
                if let Some(addr) = self.symbol_addresses.get(linkage_name.as_str()) {
                    return Some(*addr);
                }
            }
        }
        match self.symbol_addresses.get(var_name) {
            Some(addr) => Some(*addr),
            None => self.resolve_address_by_unique_suffix(var_name),
        }
    }

    /// The name, type reference and address of the variable that an entry describes. The address may
    /// be 0 for a local variable.
    pub fn get_variable(&self, entry: Option<usize>) -> (r: Option<(String, usize, (u8, u64))>)
        ensures
            match r {
                Some((name, typeref, address)) => variable_of(
                    self.attributes@,
                    self.symbol_addresses.order(),
                    entry,
                ) == Some((name@, typeref, address)),
                None => variable_of(
                    self.attributes@,
                    self.symbol_addresses.order(),
                    entry,
                ) is None,
            },
    {
        let own = match self.find_die(entry) {
            Some(d) => d,
            None => {
                return None;
            },
        };
        let other = match (own.specification, own.abstract_origin) {
            (Some(s), _) => self.find_die(Some(s)),
            (None, Some(o)) => self.find_die(Some(o)),
            (None, None) => None,
        };
        let (other_name, other_type) = match other {
            Some(d) => (&d.name, d.typeref),
            None => (&None, None),
        };
        let specified = own.specification.is_some();
        let name = if specified || own.name.is_none() {
            other_name
        } else {
            &own.name
        };
        let typeref = if specified || own.typeref.is_none() {
            other_type
        } else {
            own.typeref
        };
        match (name, typeref) {
            (Some(name), Some(typeref)) => {
                let mut address: (u8, u64) = match own.location {
                    Some(location) => location,
                    None => (0, 0),
                };
                if address.0 == 0 && address.1 == 0 {
                    let symbol = match self.resolve_address_from_symbols(Some(own), name.as_str()) {
                        Some(addr) => Some(addr),
                        None => self.resolve_address_from_symbols(other, name.as_str()),
                    };
                    if let Some(addr) = symbol {
                        address = (0, addr);
                    }
                }
                Some((name.clone(), typeref, address))
            },
            _ => None,
        }
    }
}

/// Leaves the scopes that were entered at a depth or deeper.
fn leave_scopes(context: &mut Vec<(u16, Option<String>)>, depth: isize)
    ensures
        scopes(final(context)@) == enclosing(scopes(old(context)@), depth),
{
    let ghost before = scopes(context@);
    if depth >= 1 {
        context.truncate((depth - 1) as usize);
    }
    assert(scopes(context@) =~= enclosing(before, depth));
}

/// The scopes that are open after the first `n` entries, with the names of those whose name is part
/// of qualified names.
pub open spec fn naming_scopes(
    attributes: Map<usize, DieAttributes>,
    entries: Seq<(isize, u16, Option<usize>)>,
    n: nat,
) -> Seq<(u16, Option<Seq<char>>)>
    decreases n,
{
    if n == 0 {
        Seq::empty()
    } else {
        let (depth, tag, offset) = entries[n - 1];
        enclosing(naming_scopes(attributes, entries, (n - 1) as nat), depth).push(
            (
                tag,
                if named_scope(tag) {
                    die(attributes, offset).name
                } else {
                    None
                },
            ),
        )
    }
}

/// The qualified names after the first `n` entries of a unit came to them: each wanted type that has
/// a name gets it, behind the names of the scopes around it.
pub open spec fn unit_type_names(
    attributes: Map<usize, DieAttributes>,
    wanted: Set<usize>,
    entries: Seq<(isize, u16, Option<usize>)>,
    names: Map<usize, Seq<char>>,
    n: nat,
) -> Map<usize, Seq<char>>
    decreases n,
{
    if n == 0 {
        names
    } else {
        let before = unit_type_names(attributes, wanted, entries, names, (n - 1) as nat);
        let (depth, _, offset) = entries[n - 1];
        match (offset, die(attributes, offset).name) {
            (Some(r), Some(name)) => if wanted.contains(r) {
                let context = enclosing(
                    naming_scopes(attributes, entries, (n - 1) as nat),
                    depth,
                );
                before.insert(r, scope_path(context, context.len()) + name)
            } else {
                before
            },
            _ => before,
        }
    }
}

/// The texts in a map.
pub open spec fn text_map(m: Map<usize, String>) -> Map<usize, Seq<char>> {
    m.map_values(|s: String| s@)
}

/// The types that share their name with another type.
pub open spec fn shared_refs(names: Seq<(Seq<char>, Vec<usize>)>, n: nat) -> Set<usize>
    decreases n,
{
    if n == 0 {
        Set::empty()
    } else {
        let before = shared_refs(names, (n - 1) as nat);
        let refs = names[n - 1].1@;
        if refs.len() > 1 {
            before.union(refs.to_set())
        } else {
            before
        }
    }
}

impl DebugDataReader {
    /// The qualified names of wanted types in the first `n` units.
    pub open spec fn type_names_of_units(&self, wanted: Set<usize>, n: nat) -> Map<usize, Seq<char>>
        decreases n,
    {
        if n == 0 {
            Map::empty()
        } else {
            let entries = self.units.list@[n - 1].entries@;
            unit_type_names(
                self.attributes@,
                wanted,
                entries,
                self.type_names_of_units(wanted, (n - 1) as nat),
                entries.len(),
            )
        }
    }

    /// Reads the variables of a unit.
    fn load_unit_variables(
        &self,
        unit_idx: usize,
        entries: &Vec<(isize, u16, Option<usize>)>,
        variables: &mut IndexMap<String, Vec<VarInfo>>,
    )
        ensures
            instance_views(variable_entries(*final(variables))) == unit_variables(
                self.attributes@,
                self.symbol_addresses.order(),
                unit_idx,
                entries@,
                instance_views(variable_entries(*old(variables))),
                entries@.len(),
            ),
    {
        let ghost start = instance_views(variable_entries(*variables));
        let ghost attributes = self.attributes@;
        let ghost symbols = self.symbol_addresses.order();
        let n: usize = entries.len();
        let mut context: Vec<(u16, Option<String>)> = Vec::new();
        assert(scopes(context@) =~= open_scopes(attributes, entries@, 1));
        let mut i: usize = 1;
        while i < n
            invariant
                n == entries@.len(),
                1 <= i,
                i <= n || (n == 0 && i == 1),
                attributes == self.attributes@,
                symbols == self.symbol_addresses.order(),
                scopes(context@) == open_scopes(attributes, entries@, i as nat),
                instance_views(variable_entries(*variables)) == unit_variables(
                    attributes,
                    symbols,
                    unit_idx,
                    entries@,
                    start,
                    i as nat,
                ),
            decreases n - i,
        {
            let (depth, tag, offset) = entries[i];
            leave_scopes(&mut context, depth);
            let name = if tag == DW_TAG_NAMESPACE || tag == DW_TAG_SUBPROGRAM {
                self.get_name(offset)
            } else {
                None
            };
            let ghost outer = scopes(context@);
            let ghost scope = (tag, opt_text(name));
            context.push((tag, name));
            assert(scopes(context@) =~= outer.push(scope));
            i = i + 1;
            assert(scopes(context@) == open_scopes(attributes, entries@, i as nat));
            if tag == DW_TAG_VARIABLE {
                if let Some((name, typeref, address)) = self.get_variable(offset) {
                    let (function, namespaces) = get_varinfo_from_context(context.as_slice());
                    let info = VarInfo { address, typeref, unit_idx, function, namespaces };
                    proof {
                        lemma_with_instance_views(variable_entries(*variables), name@, info);
                        assert(info@.namespaces =~= strings(namespaces@));
                    }
                    push_instance(variables, name, info);
                }
            }
        }
    }

    /// Reads all variables from the units up to a unit index. The names of these units are kept by
    /// unit index.
    pub fn load_variables(&mut self, unit_idx_limit: usize) -> (variables: IndexMap<
        String,
        Vec<VarInfo>,
    >)
        ensures
            instance_views(variable_entries(variables)) == old(self).variables_of_units(
                old(self).units_read(unit_idx_limit),
            ),
            opt_texts(final(self).unit_names@) == old(self).names_of_units(
                old(self).units_read(unit_idx_limit),
            ),
            final(self).units == old(self).units,
            final(self).attributes == old(self).attributes,
            final(self).sections == old(self).sections,
            final(self).cfa_info == old(self).cfa_info,
            final(self).epk_string == old(self).epk_string,
            final(self).epk_addr == old(self).epk_addr,
            final(self).symbol_addresses == old(self).symbol_addresses,
            final(self).xcp_meta_data == old(self).xcp_meta_data,
            final(self).is_little_endian == old(self).is_little_endian,
    {
        let ghost start = *self;
        let mut variables = new_variable_map();
        let mut names: Vec<Option<String>> = Vec::new();
        let len: usize = self.units.list.len();
        let n: usize = if unit_idx_limit < len {
            unit_idx_limit + 1
        } else {
            len
        };
        assert(instance_views(variable_entries(variables)) =~= start.variables_of_units(0));
        assert(opt_texts(names@) =~= start.names_of_units(0));
        for i in 0..n
            invariant
                *self == start,
                n <= self.units.list@.len(),
                instance_views(variable_entries(variables)) == start.variables_of_units(i as nat),
                opt_texts(names@) == start.names_of_units(i as nat),
        {
            let entries = &self.units.list[i].entries;
            let name = if entries.len() > 0 && (entries[0].1 == DW_TAG_COMPILE_UNIT || entries[0].1
                == DW_TAG_PARTIAL_UNIT) {
                self.get_name(entries[0].2)
            } else {
                None
            };
            let ghost before = opt_texts(names@);
            let ghost added = opt_text(name);
            names.push(name);
            proof {
                assert(added == unit_name_of(start.attributes@, entries@));
                assert(opt_texts(names@) =~= before.push(added));
                assert(start.names_of_units((i + 1) as nat) =~= start.names_of_units(
                    i as nat,
                ).push(added));
            }
            self.load_unit_variables(i, entries, &mut variables);
        }
        self.unit_names = names;
        variables
    }

    /// The qualified names of wanted types.
    pub fn load_qualified_type_names(&self, type_refs: &HashSet<usize>) -> (m: HashMap<
        usize,
        String,
    >)
        ensures
            text_map(m@) == self.type_names_of_units(type_refs@, self.units.list@.len()),
    {
        broadcast use vstd::std_specs::hash::group_hash_axioms;

        let ghost attributes = self.attributes@;
        let ghost wanted = type_refs@;
        let mut m: HashMap<usize, String> = HashMap::new();
        let n: usize = self.units.list.len();
        assert(text_map(m@) =~= self.type_names_of_units(wanted, 0));
        for u in 0..n
            invariant
                n == self.units.list@.len(),
                attributes == self.attributes@,
                wanted == type_refs@,
                text_map(m@) == self.type_names_of_units(wanted, u as nat),
        {
            let entries = &self.units.list[u].entries;
            let ghost start = text_map(m@);
            let len: usize = entries.len();
            let mut context: Vec<(u16, Option<String>)> = Vec::new();
            assert(scopes(context@) =~= naming_scopes(attributes, entries@, 0));
            for i in 0..len
                invariant
                    len == entries@.len(),
                    attributes == self.attributes@,
                    wanted == type_refs@,
                    scopes(context@) == naming_scopes(attributes, entries@, i as nat),
                    text_map(m@) == unit_type_names(
                        attributes,
                        wanted,
                        entries@,
                        start,
                        i as nat,
                    ),
            {
                let (depth, tag, offset) = entries[i];
                leave_scopes(&mut context, depth);
                let ghost outer = scopes(context@);
                let ghost before = text_map(m@);
                if let Some(type_ref) = offset {
                    if type_refs.contains(&type_ref) {
                        if let Some(name) = self.get_name(offset) {
                            let qualified = make_qualified_type_name(
                                context.as_slice(),
                                name.as_str(),
                            );
                            let ghost text = qualified@;
                            m.insert(type_ref, qualified);
                            assert(text_map(m@) =~= before.insert(type_ref, text));
                        }
                    }
                }
                let scope = if is_named_scope(tag) {
                    self.get_name(offset)
                } else {
                    None
                };
                let ghost added = (tag, opt_text(scope));
                context.push((tag, scope));
                assert(scopes(context@) =~= outer.push(added));
            }
        }
        m
    }
}

/// The types that share their name with another type.
fn find_shared_refs(typenames: &NameMap<Vec<usize>>) -> (refs: HashSet<usize>)
    ensures
        refs@ == shared_refs(typenames.order(), typenames.order().len()),
{
    broadcast use vstd::std_specs::hash::group_hash_axioms;

    let ghost names = typenames.order();
    let mut refs: HashSet<usize> = HashSet::new();
    let n: usize = typenames.len();
    for i in 0..n
        invariant
            n == names.len(),
            names == typenames.order(),
            refs@ == shared_refs(names, i as nat),
    {
        let type_refs = typenames.value(i);
        let len: usize = type_refs.len();
        if len > 1 {
            let ghost before = refs@;
            for j in 0..len
                invariant
                    len == type_refs@.len(),
                    refs@ == before.union(type_refs@.take(j as int).to_set()),
            {
                refs.insert(type_refs[j]);
                proof {
                    let t = type_refs@.take(j as int);
                    assert(type_refs@.take(j + 1) =~= t.push(type_refs@[j as int]));
                    assert(t.push(type_refs@[j as int]).to_set() =~= t.to_set().insert(
                        type_refs@[j as int],
                    )) by {
                        broadcast use vstd::seq_lib::group_seq_properties;

                    }
                    assert(refs@ =~= before.union(type_refs@.take(j + 1).to_set()));
                }
            }
            assert(type_refs@.take(len as int) =~= type_refs@);
        }
    }
    refs
}

/// Why the debug information of a file could not be read.
#[derive(Debug)]
pub enum LoadError {
    /// The file is no object file.
    Parse(object::read::Error),
    /// The section `.debug_info` is missing.
    NoDebugInfo,
    /// A DWARF section cannot be read.
    Section(object::read::Error),
    /// No unit contains debug information.
    NoUnits,
}

/// The address ranges of sections, by name, among the first `n`: those with an address and a size.
pub open spec fn section_ranges(
    sections: Seq<(Option<Seq<char>>, u64, u64)>,
    n: nat,
) -> Seq<(Seq<char>, (u64, u64))>
    decreases n,
{
    if n == 0 {
        Seq::empty()
    } else {
        let before = section_ranges(sections, (n - 1) as nat);
        match sections[n - 1] {
            (Some(name), addr, size) => if addr != 0 && size != 0 {
                upsert(before, name, (addr, (addr + size) as u64))
            } else {
                before
            },
            (None, _, _) => before,
        }
    }
}

/// Every section with a name, an address and a size ends within the address space.
pub open spec fn sections_fit(sections: Seq<(Option<Seq<char>>, u64, u64)>) -> bool {
    forall|i: int|
        0 <= i < sections.len() && (#[trigger] sections[i]).0 is Some && sections[i].1 != 0
            && sections[i].2 != 0 ==> sections[i].1 + sections[i].2 <= u64::MAX
}

/// The address ranges of the sections of a file.
pub fn get_elf_sections(sections: &Vec<(Option<String>, u64, u64)>) -> (m: NameMap<(u64, u64)>)
    requires
        sections_fit(section_views(sections@)),
    ensures
        m.order() == section_ranges(section_views(sections@), sections@.len()),
{
    let ghost views = section_views(sections@);
    let mut m: NameMap<(u64, u64)> = NameMap::new();
    let n: usize = sections.len();
    for i in 0..n
        invariant
            n == sections@.len(),
            views == section_views(sections@),
            sections_fit(views),
            m.order() == section_ranges(views, i as nat),
    {
        let (name, addr, size) = &sections[i];
        assert(views[i as int] == (opt_text(*name), *addr, *size));
        if *addr != 0 && *size != 0 {
            if let Some(s) = name {
                m.insert(s.clone(), (*addr, *addr + *size));
            }
        }
    }
    m
}

/// The addresses of symbols, by name, among the first `n`: those with a name and an address.
pub open spec fn symbol_table(symbols: Seq<(Option<Seq<char>>, u64)>, n: nat) -> Seq<
    (Seq<char>, u64),
>
    decreases n,
{
    if n == 0 {
        Seq::empty()
    } else {
        let before = symbol_table(symbols, (n - 1) as nat);
        match symbols[n - 1] {
            (Some(name), addr) => if name.len() > 0 && addr != 0 {
                upsert(before, name, addr)
            } else {
                before
            },
            (None, _) => before,
        }
    }
}

/// The addresses of the symbols of a file.
pub fn get_symbol_addresses(symbols: &Vec<(Option<String>, u64)>) -> (m: NameMap<u64>)
    ensures
        m.order() == symbol_table(symbol_views(symbols@), symbols@.len()),
{
    let ghost views = symbol_views(symbols@);
    let mut m: NameMap<u64> = NameMap::new();
    let n: usize = symbols.len();
    for i in 0..n
        invariant
            n == symbols@.len(),
            views == symbol_views(symbols@),
            m.order() == symbol_table(views, i as nat),
    {
        let (name, addr) = &symbols[i];
        assert(views[i as int] == (opt_text(*name), *addr));
        if let Some(s) = name {
            if s.as_str().unicode_len() > 0 && *addr != 0 {
                m.insert(s.clone(), *addr);
            }
        }
    }
    m
}

/// There is a section `.debug_info`.
pub open spec fn has_debug_info(sections: Seq<(Option<Seq<char>>, u64, u64)>) -> bool {
    exists|i: int| 0 <= i < sections.len() && (#[trigger] sections[i]).0 == Some(".debug_info"@)
}

/// Whether there is a section `.debug_info`.
fn find_debug_info(sections: &Vec<(Option<String>, u64, u64)>) -> (r: bool)
    ensures
        r == has_debug_info(section_views(sections@)),
{
    let ghost views = section_views(sections@);
    let n: usize = sections.len();
    for i in 0..n
        invariant
            n == sections@.len(),
            views == section_views(sections@),
            forall|k: int| 0 <= k < i ==> (#[trigger] views[k]).0 != Some(".debug_info"@),
    {
        assert(views[i as int].0 == opt_text(sections@[i as int].0));
        if let Some(s) = &sections[i].0 {
            if same_text(s.as_str(), ".debug_info") {
                return true;
            }
        }
    }
    false
}

/// Whether every section ends within the address space.
fn check_sections(sections: &Vec<(Option<String>, u64, u64)>) -> (r: bool)
    ensures
        r == sections_fit(section_views(sections@)),
{
    let ghost views = section_views(sections@);
    let n: usize = sections.len();
    for i in 0..n
        invariant
            n == sections@.len(),
            views == section_views(sections@),
            forall|k: int|
                0 <= k < i && (#[trigger] views[k]).0 is Some && views[k].1 != 0 && views[k].2 != 0
                    ==> views[k].1 + views[k].2 <= u64::MAX,
    {
        let (name, addr, size) = &sections[i];
        assert(views[i as int] == (opt_text(*name), *addr, *size));
        if name.is_some() && *addr != 0 && *size > u64::MAX - *addr {
            return false;
        }
    }
    true
}

/// The units with their entries.
pub open spec fn unit_views(v: Seq<DwarfUnit>) -> Seq<
    (usize, usize, Seq<(isize, u16, Option<usize>)>),
> {
    v.map_values(|u: DwarfUnit| (u.offset, u.length, u.entries@))
}

/// The units that are kept of the first `n` units: those whose abbreviations can be read, up to the
/// first one behind a limit on the unit index.
pub open spec fn units_kept(
    info: Seq<u8>,
    abbrev: Seq<u8>,
    little_endian: bool,
    unit_idx_limit: usize,
    n: nat,
) -> Seq<(usize, usize, Seq<(isize, u16, Option<usize>)>)>
    decreases n,
{
    if n == 0 {
        Seq::empty()
    } else {
        let before = units_kept(info, abbrev, little_endian, unit_idx_limit, (n - 1) as nat);
        let (offset, length) = debug_info_units(info, little_endian)[n - 1];
        if before.len() > unit_idx_limit + 1 {
            before
        } else {
            match unit_entries(info, abbrev, little_endian, offset) {
                Some(entries) => before.push((offset, length, entries)),
                None => before,
            }
        }
    }
}

/// Reads the units with their entries, up to the first one behind a limit on the unit index.
fn read_units(
    info: &[u8],
    abbrev: &[u8],
    little_endian: bool,
    unit_idx_limit: usize,
    found: &Vec<(usize, usize)>,
) -> (units: UnitList)
    requires
        found@ == debug_info_units(info@, little_endian),
        forall|i: int| 0 <= i < found@.len() ==> (#[trigger] found@[i]).0 + found@[i].1
            <= info@.len(),
    ensures
        unit_views(units.list@) == units_kept(
            info@,
            abbrev@,
            little_endian,
            unit_idx_limit,
            found@.len(),
        ),
        units.ends_fit(),
{
    let mut units = UnitList::new();
    let info_len: usize = info.len();
    let n: usize = found.len();
    assert(unit_views(units.list@) =~= units_kept(
        info@,
        abbrev@,
        little_endian,
        unit_idx_limit,
        0,
    ));
    for i in 0..n
        invariant
            n == found@.len(),
            info_len == info@.len(),
            found@ == debug_info_units(info@, little_endian),
            forall|i: int| 0 <= i < found@.len() ==> (#[trigger] found@[i]).0 + found@[i].1
                <= info@.len(),
            unit_views(units.list@) == units_kept(
                info@,
                abbrev@,
                little_endian,
                unit_idx_limit,
                i as nat,
            ),
            units.ends_fit(),
    {
        let (offset, length) = found[i];
        assert(found@[i as int].0 + found@[i as int].1 <= info@.len());
        let len: usize = units.list.len();
        if len == 0 || len - 1 <= unit_idx_limit {
            if let Some(entries) = list_entries(info, abbrev, little_endian, offset) {
                let ghost before = unit_views(units.list@);
                let unit = DwarfUnit { offset, length, entries };
                units.add(unit);
                assert(unit_views(units.list@) =~= before.push((offset, length, entries@)));
            }
        }
    }
    units
}

/// The EPK string: what stands before the first zero byte; nothing without a zero byte.
pub open spec fn epk_text(bytes: Seq<u8>) -> Option<Seq<char>> {
    if before_zero(bytes).len() < bytes.len() {
        Some(utf8_lossy(before_zero(bytes)))
    } else {
        None
    }
}

/// Reads the EPK string.
pub fn read_epk(data: &[u8]) -> (r: Option<String>)
    ensures
        opt_text(r) == epk_text(data@),
{
    let bytes = bytes_before_zero(data, 0);
    assert(data@.skip(0) =~= data@);
    if bytes.len() < data.len() {
        Some(string_from_utf8_lossy(bytes.as_slice()))
    } else {
        None
    }
}

/// The EPK string in a file.
pub open spec fn epk_of_file(data: Seq<u8>) -> Option<Seq<char>> {
    match object_section(data, "xcp_epk"@) {
        Some((_, Some(bytes))) => epk_text(bytes),
        _ => None,
    }
}

/// The reader holds what a file tells: its units up to the first one behind a limit on the unit
/// index, the ranges of its sections, the addresses of its symbols, the EPK string and its address,
/// the metadata section and the byte order; and nothing else yet.
pub open spec fn reads_file(r: DebugDataReader, data: Seq<u8>, unit_idx_limit: usize) -> bool {
    let info = section_bytes(data, ".debug_info"@)->0;
    let abbrev = section_bytes(data, ".debug_abbrev"@)->0;
    let little = object_little_endian(data);
    let sections = object_sections(data);
    let symbols = object_symbols(data);
    &&& unit_views(r.units.list@) == units_kept(
        info,
        abbrev,
        little,
        unit_idx_limit,
        debug_info_units(info, little).len(),
    )
    &&& r.units.ends_fit()
    &&& r.attributes@ == Map::<usize, DieAttributes>::empty()
    &&& r.unit_names@.len() == 0
    &&& r.cfa_info@.len() == 0
    &&& r.sections.order() == section_ranges(sections, sections.len())
    &&& r.symbol_addresses.order() == symbol_table(symbols, symbols.len())
    &&& r.epk_addr == match object_section(data, "xcp_epk"@) {
        Some((addr, _)) => addr,
        None => 0,
    }
    &&& opt_text(r.epk_string) == epk_of_file(data)
    &&& match object_section(data, "xcp_meta"@) {
        Some((addr, Some(bytes))) => r.xcp_meta_data matches Some((a, b)) && a == addr && b@
            == bytes,
        _ => r.xcp_meta_data is None,
    }
    &&& r.is_little_endian == little
}

/// The units of a file.
pub open spec fn units_of_file(data: Seq<u8>) -> Seq<(usize, usize)> {
    debug_info_units(section_bytes(data, ".debug_info"@)->0, object_little_endian(data))
}

/// Whether there is a unit with debug information.
pub fn verify_dwarf_compile_units(units: &Vec<(usize, usize)>) -> (r: bool)
    ensures
        r == (units@.len() > 0),
{
    units.len() > 0
}

/// Copies bytes.
fn copy_bytes(data: &[u8]) -> (v: Vec<u8>)
    ensures
        v@ == data@,
{
    let mut v: Vec<u8> = Vec::new();
    let n: usize = data.len();
    for i in 0..n
        invariant
            n == data@.len(),
            v@ == data@.take(i as int),
    {
        v.push(data[i]);
        assert(v@ =~= data@.take(i + 1));
    }
    assert(v@ =~= data@);
    v
}

/// A file has debug information that can be read.
pub open spec fn has_units(data: Seq<u8>) -> bool {
    &&& object_parses(data)
    &&& has_debug_info(object_sections(data))
    &&& dwarf_loads(data)
    &&& units_of_file(data).len() > 0
}

/// Reads and validates the bytes of an ELF file with DWARF debug information.
pub fn load_elf_dwarf(filedata: &[u8], unit_idx_limit: usize) -> (r: Result<
    DebugDataReader,
    LoadError,
>)
    requires
        has_units(filedata@) ==> sections_fit(object_sections(filedata@)),
    ensures
        (r matches Err(LoadError::Parse(_))) <==> !object_parses(filedata@),
        (r matches Err(LoadError::NoDebugInfo)) <==> object_parses(filedata@) && !has_debug_info(
            object_sections(filedata@),
        ),
        (r matches Err(LoadError::Section(_))) <==> object_parses(filedata@) && has_debug_info(
            object_sections(filedata@),
        ) && !dwarf_loads(filedata@),
        (r matches Err(LoadError::NoUnits)) <==> object_parses(filedata@) && has_debug_info(
            object_sections(filedata@),
        ) && dwarf_loads(filedata@) && units_of_file(filedata@).len() == 0,
        r matches Ok(reader) ==> reads_file(reader, filedata@, unit_idx_limit),
{
    broadcast use vstd::std_specs::hash::group_hash_axioms;

    match parse_object(filedata) {
        Ok(()) => {},
        Err(e) => {
            return Err(LoadError::Parse(e));
        },
    }
    let sections = list_sections(filedata);
    if !find_debug_info(&sections) {
        return Err(LoadError::NoDebugInfo);
    }
    let (info, abbrev) = match load_dwarf_sections(filedata) {
        Ok(loaded) => loaded,
        Err(e) => {
            return Err(LoadError::Section(e));
        },
    };
    let little_endian = is_little_endian(filedata);
    let found = list_units(info, little_endian);
    if !verify_dwarf_compile_units(&found) {
        return Err(LoadError::NoUnits);
    }
    let (epk_addr, epk_string) = match find_section(filedata, "xcp_epk") {
        Some((addr, Ok(bytes))) => (addr, read_epk(bytes)),
        Some((addr, Err(_))) => (addr, None),
        None => (0, None),
    };
    let xcp_meta_data = match find_section(filedata, "xcp_meta") {
        Some((addr, Ok(bytes))) => Some((addr, copy_bytes(bytes))),
        Some((_, Err(_))) => None,
        None => None,
    };
    let symbols = list_symbols(filedata);
    let units = read_units(info, abbrev, little_endian, unit_idx_limit, &found);
    let attributes: HashMap<usize, DieAttributes> = HashMap::new();
    assert(attributes@ =~= Map::<usize, DieAttributes>::empty());
    Ok(
        DebugDataReader {
            units,
            attributes,
            unit_names: Vec::new(),
            sections: get_elf_sections(&sections),
            cfa_info: Vec::new(),
            epk_string,
            epk_addr,
            symbol_addresses: get_symbol_addresses(&symbols),
            xcp_meta_data,
            is_little_endian: little_endian,
        },
    )
}

/// Reads and validates the bytes of an ELF file with DWARF debug information; nothing if a section
/// of a file that has debug information ends behind the address space.
pub fn try_load_elf_dwarf(filedata: &[u8], unit_idx_limit: usize) -> (r: Option<
    Result<DebugDataReader, LoadError>,
>)
    ensures
        r is None <==> has_units(filedata@) && !sections_fit(object_sections(filedata@)),
        (r matches Some(Err(LoadError::Parse(_)))) <==> !object_parses(filedata@),
        (r matches Some(Err(LoadError::NoDebugInfo))) <==> object_parses(filedata@)
            && !has_debug_info(object_sections(filedata@)),
        (r matches Some(Err(LoadError::Section(_)))) <==> object_parses(filedata@)
            && has_debug_info(object_sections(filedata@)) && !dwarf_loads(filedata@),
        (r matches Some(Err(LoadError::NoUnits))) <==> object_parses(filedata@) && has_debug_info(
            object_sections(filedata@),
        ) && dwarf_loads(filedata@) && units_of_file(filedata@).len() == 0,
        r matches Some(Ok(reader)) ==> reads_file(reader, filedata@, unit_idx_limit),
{
    if parse_object(filedata).is_ok() {
        let sections = list_sections(filedata);
        if find_debug_info(&sections) && !check_sections(&sections) {
            if let Ok((info, _)) = load_dwarf_sections(filedata) {
                let found = list_units(info, is_little_endian(filedata));
                if verify_dwarf_compile_units(&found) {
                    return None;
                }
            }
        }
    }
    Some(load_elf_dwarf(filedata, unit_idx_limit))
}

/// The names of variables.
pub open spec fn names_of(entries: Seq<(Seq<char>, Seq<VarInfo>)>) -> Seq<Seq<char>> {
    entries.map_values(|e: (Seq<char>, Seq<VarInfo>)| e.0)
}

/// Whether the mangled ones among the names of variables can be handed to the demangler.
pub fn check_varnames(variables: &IndexMap<String, Vec<VarInfo>>) -> (r: bool)
    ensures
        r == can_parse_all(names_of(variable_entries(*variables))),
{
    let ghost names = names_of(variable_entries(*variables));
    let n: usize = variable_count(variables);
    for i in 0..n
        invariant
            n == names.len(),
            names == names_of(variable_entries(*variables)),
            can_parse_all(names.take(i as int)),
    {
        if let Some((name, _)) = variable_at(variables, i) {
            assert(names[i as int] == name@);
            if !check_varname(name.as_str()) {
                return false;
            }
            assert(names.take(i + 1) =~= names.take(i as int).push(name@));
        }
    }
    assert(names.take(n as int) =~= names);
    true
}

impl DebugDataReader {
    /// Puts what was read together with the types of the variables: names of types that are
    /// ambiguous are qualified, and names of variables demangled.
    pub fn collect_debug_data(
        self,
        variables: IndexMap<String, Vec<VarInfo>>,
        types: HashMap<usize, TypeInfo>,
        typenames: NameMap<Vec<usize>>,
    ) -> (d: DebugData)
        requires
            can_parse_all(names_of(variable_entries(variables))),
        ensures
            d.variables == variables,
            d.types == types,
            d.typenames == typenames,
            ({
                let names = typenames.order();
                let qualified = self.type_names_of_units(
                    shared_refs(names, names.len()),
                    self.units.list@.len(),
                );
                qualifies(d.a2l_type_names@, names, qualified)
            }),
            name_pairs(d.demangled_names) == demangled_names(
                names_of(variable_entries(variables)),
                variable_entries(variables).len(),
            ),
            d.unit_names == self.unit_names,
            d.sections == self.sections,
            d.symbol_addresses == self.symbol_addresses,
            d.cfa_info == self.cfa_info,
            d.epk_string == self.epk_string,
            d.epk_addr == self.epk_addr,
            d.xcp_meta_data == self.xcp_meta_data,
            d.is_little_endian == self.is_little_endian,
    {
        let ambiguous_type_refs = find_shared_refs(&typenames);
        let qualified_type_names = self.load_qualified_type_names(&ambiguous_type_refs);
        let a2l_type_names = make_a2l_type_names(&typenames, &qualified_type_names);
        proof {
            let names = typenames.order();
            let q = qualified_type_names@;
            let qualified = text_map(q);
            assert forall|r: usize| #[trigger] a2l_type_names@.contains_key(r) <==> (
            qualified.contains_key(r) && shares_qualified(names, qualified, r)) by {
                lemma_shares(names, q, r);
            }
        }
        let n: usize = variable_count(&variables);
        let ghost all = variable_entries(variables);
        let mut varname_list: Vec<&String> = Vec::new();
        assert(texts(varname_list@) =~= names_of(all).take(0));
        for i in 0..n
            invariant
                n == all.len(),
                all == variable_entries(variables),
                texts(varname_list@) == names_of(all).take(i as int),
        {
            if let Some((name, _)) = variable_at(&variables, i) {
                let ghost before = texts(varname_list@);
                varname_list.push(name);
                assert(texts(varname_list@) =~= before.push(name@));
                assert(names_of(all).take(i + 1) =~= names_of(all).take(i as int).push(
                    all[i as int].0,
                ));
            }
        }
        assert(names_of(all).take(n as int) =~= names_of(all));
        let demangled = demangle_cpp_varnames(varname_list.as_slice());
        assert(varname_list@.len() == texts(varname_list@).len());
        DebugData {
            variables,
            types,
            typenames,
            a2l_type_names,
            demangled_names: demangled,
            unit_names: self.unit_names,
            sections: self.sections,
            symbol_addresses: self.symbol_addresses,
            cfa_info: self.cfa_info,
            epk_string: self.epk_string,
            epk_addr: self.epk_addr,
            xcp_meta_data: self.xcp_meta_data,
            is_little_endian: self.is_little_endian,
        }
    }
}

/// A type has a name that it shares with a type of another qualified name.
pub open spec fn shares_qualified(
    names: Seq<(Seq<char>, Vec<usize>)>,
    qualified: Map<usize, Seq<char>>,
    r: usize,
) -> bool {
    exists|k: int, i: int, j: int|
        0 <= k < names.len() && 0 <= i < names[k].1@.len() && 0 <= j < names[k].1@.len()
            && names[k].1@.contains(r) && qualified.contains_key(#[trigger] names[k].1@[i])
            && qualified.contains_key(#[trigger] names[k].1@[j]) && qualified[names[k].1@[i]]
            != qualified[names[k].1@[j]]
}

/// The A2L names are the qualified names of the types that share their name with a type of another
/// qualified name.
pub open spec fn qualifies(
    a2l_names: Map<usize, String>,
    names: Seq<(Seq<char>, Vec<usize>)>,
    qualified: Map<usize, Seq<char>>,
) -> bool {
    &&& forall|r: usize| #[trigger]
        a2l_names.contains_key(r) <==> qualified.contains_key(r) && shares_qualified(
            names,
            qualified,
            r,
        )
    &&& forall|r: usize| #[trigger] a2l_names.contains_key(r) ==> a2l_names[r]@ == qualified[r]
}

/// Two types of one name that are defined in different scopes have different A2L names.
pub proof fn law_types_of_one_name_are_told_apart(
    d: DebugData,
    names: Seq<(Seq<char>, Vec<usize>)>,
    qualified: Map<usize, Seq<char>>,
    k: int,
    t: TypeInfo,
    u: TypeInfo,
)
    requires
        qualifies(d.a2l_type_names@, names, qualified),
        0 <= k < names.len(),
        names[k].1@.contains(t.dbginfo_offset),
        names[k].1@.contains(u.dbginfo_offset),
        t.name is Some,
        u.name is Some,
        qualified.contains_key(t.dbginfo_offset),
        qualified.contains_key(u.dbginfo_offset),
        qualified[t.dbginfo_offset] != qualified[u.dbginfo_offset],
    ensures
        d.a2l_name(t) == Some(qualified[t.dbginfo_offset]),
        d.a2l_name(u) == Some(qualified[u.dbginfo_offset]),
        d.a2l_name(t) != d.a2l_name(u),
{
    let refs = names[k].1@;
    let i = choose|i: int| 0 <= i < refs.len() && refs[i] == t.dbginfo_offset;
    let j = choose|j: int| 0 <= j < refs.len() && refs[j] == u.dbginfo_offset;
    assert(names[k].1@[i] == t.dbginfo_offset && names[k].1@[j] == u.dbginfo_offset);
    assert(shares_qualified(names, qualified, t.dbginfo_offset));
    assert(shares_qualified(names, qualified, u.dbginfo_offset));
    assert(d.a2l_type_names@.contains_key(t.dbginfo_offset));
    assert(d.a2l_type_names@.contains_key(u.dbginfo_offset));
}

/// A type whose name is not ambiguous keeps its plain name.
pub proof fn law_unambiguous_types_keep_their_name(
    d: DebugData,
    names: Seq<(Seq<char>, Vec<usize>)>,
    qualified: Map<usize, Seq<char>>,
    t: TypeInfo,
)
    requires
        qualifies(d.a2l_type_names@, names, qualified),
        !shares_qualified(names, qualified, t.dbginfo_offset),
    ensures
        d.a2l_name(t) == opt_text(t.name),
{
}

/// Every instance of the variables lies in one of the first `n` units.
pub open spec fn instances_in_units(vars: Seq<(Seq<char>, Seq<VarView>)>, n: int) -> bool {
    forall|i: int, j: int|
        0 <= i < vars.len() && 0 <= j < vars[i].1.len() ==> (#[trigger] vars[i].1[j]).unit_idx < n
}

proof fn lemma_unit_variables(
    attributes: Map<usize, DieAttributes>,
    symbols: Seq<(Seq<char>, u64)>,
    unit_idx: usize,
    entries: Seq<(isize, u16, Option<usize>)>,
    vars: Seq<(Seq<char>, Seq<VarView>)>,
    n: nat,
)
    requires
        instances_in_units(vars, unit_idx as int),
    ensures
        instances_in_units(
            unit_variables(attributes, symbols, unit_idx, entries, vars, n),
            unit_idx + 1,
        ),
    decreases n,
{
    if n > 1 {
        lemma_unit_variables(attributes, symbols, unit_idx, entries, vars, (n - 1) as nat);
        let before = unit_variables(
            attributes,
            symbols,
            unit_idx,
            entries,
            vars,
            (n - 1) as nat,
        );
        let after = unit_variables(attributes, symbols, unit_idx, entries, vars, n);
        if let Some((name, _, _)) = variable_of(attributes, symbols, entries[n - 1].2) {
            lemma_find_name(before, name);
        }
        assert forall|i: int, j: int| 0 <= i < after.len() && 0 <= j < after[i].1.len() implies (
        #[trigger] after[i].1[j]).unit_idx < unit_idx + 1 by {
            if i < before.len() && j < before[i].1.len() {
                assert(after[i].1[j] == before[i].1[j]);
            }
        }
    } else {
        assert forall|i: int, j: int| 0 <= i < vars.len() && 0 <= j < vars[i].1.len() implies (
        #[trigger] vars[i].1[j]).unit_idx < unit_idx + 1 by {}
    }
}

/// Variables are read only from the units up to the limit on the unit index, and there is a name, if
/// only an unknown one, for each of these units.
pub proof fn law_variables_lie_in_named_units(r: DebugDataReader, unit_idx_limit: usize)
    requires
        r.units.list@.len() <= usize::MAX,
    ensures
        instances_in_units(
            r.variables_of_units(r.units_read(unit_idx_limit)),
            unit_idx_limit + 1,
        ),
        instances_in_units(
            r.variables_of_units(r.units_read(unit_idx_limit)),
            r.names_of_units(r.units_read(unit_idx_limit)).len() as int,
        ),
{
    let n = r.units_read(unit_idx_limit);
    lemma_variables_of_units(r, n);
    let vars = r.variables_of_units(n);
    assert forall|i: int, j: int| 0 <= i < vars.len() && 0 <= j < vars[i].1.len() implies (
    #[trigger] vars[i].1[j]).unit_idx < unit_idx_limit + 1 by {
        assert(vars[i].1[j].unit_idx < n);
    }
}

proof fn lemma_variables_of_units(r: DebugDataReader, n: nat)
    requires
        n <= usize::MAX,
    ensures
        instances_in_units(r.variables_of_units(n), n as int),
    decreases n,
{
    if n > 0 {
        lemma_variables_of_units(r, (n - 1) as nat);
        let entries = r.units.list@[n - 1].entries@;
        lemma_unit_variables(
            r.attributes@,
            r.symbol_addresses.order(),
            (n - 1) as usize,
            entries,
            r.variables_of_units((n - 1) as nat),
            entries.len(),
        );
    }
}

/// It does not matter whether qualified names are taken as strings or as texts.
proof fn lemma_shares(names: Seq<(Seq<char>, Vec<usize>)>, q: Map<usize, String>, r: usize)
    ensures
        shares_name(names, q, r, names.len() as int) <==> shares_qualified(names, text_map(q), r),
{
    let t = text_map(q);
    if shares_name(names, q, r, names.len() as int) {
        let k = choose|k: int|
            0 <= k < names.len() && k < names.len() && (#[trigger] names[k]).1@.contains(r)
                && is_ambiguous(names[k].1@, q);
        let refs = names[k].1@;
        let (i, j) = choose|i: int, j: int|
            0 <= i < refs.len() && 0 <= j < refs.len() && q.contains_key(#[trigger] refs[i])
                && q.contains_key(#[trigger] refs[j]) && q[refs[i]]@ != q[refs[j]]@;
        assert(t.contains_key(names[k].1@[i]) && t.contains_key(names[k].1@[j]));
    }
    if shares_qualified(names, t, r) {
        let (k, i, j) = choose|k: int, i: int, j: int|
            0 <= k < names.len() && 0 <= i < names[k].1@.len() && 0 <= j < names[k].1@.len()
                && names[k].1@.contains(r) && t.contains_key(#[trigger] names[k].1@[i])
                && t.contains_key(#[trigger] names[k].1@[j]) && t[names[k].1@[i]]
                != t[names[k].1@[j]];
        let refs = names[k].1@;
        assert(q.contains_key(refs[i]) && q.contains_key(refs[j]));
        assert(is_ambiguous(refs, q));
        assert(names[k].1@.contains(r));
    }
}

} // verus!
