//! The debug information of a program: its variables and types, and the parts of its ELF file that
//! are needed to register them.
use indexmap::IndexMap;
use std::collections::HashMap;
use vstd::prelude::*;
use vstd::string::*;

use crate::name_map::{lookup, NameMap};
use crate::text::{after_last, decimal, decimal_u64, last_of, lemma_after_last, replace_char, replaced};
use crate::variable_map::variable_entries;

verus! {

/// An instance of a variable.
#[derive(Debug)]
pub struct VarInfo {
    /// Address extension and address.
    pub address: (u8, u64),
    /// Reference to the type of the variable in `DebugData::types`.
    pub typeref: usize,
    /// Index of the compilation unit.
    pub unit_idx: usize,
    /// Name of the function the variable is local to.
    pub function: Option<String>,
    /// Namespaces the variable is defined in, the innermost one first.
    pub namespaces: Vec<String>,
}

/// What is known of an instance of a variable.
pub struct VarView {
    pub address: (u8, u64),
    pub typeref: usize,
    pub unit_idx: usize,
    pub function: Option<Seq<char>>,
    pub namespaces: Seq<Seq<char>>,
}

impl View for VarInfo {
    type V = VarView;

    open spec fn view(&self) -> VarView {
        VarView {
            address: self.address,
            typeref: self.typeref,
            unit_idx: self.unit_idx,
            function: opt_text(self.function),
            namespaces: self.namespaces@.map_values(|s: String| s@),
        }
    }
}

/// A type.
#[derive(Debug)]
pub struct TypeInfo {
    /// Not all types have a name.
    pub name: Option<String>,
    /// Index of the compilation unit.
    pub unit_idx: usize,
    /// What kind of type it is.
    pub datatype: DbgDataType,
    /// Offset in the debug info section.
    pub dbginfo_offset: usize,
}

/// The kinds of types.
#[derive(Debug)]
pub enum DbgDataType {
    Uint8,
    Uint16,
    Uint32,
    Uint64,
    Sint8,
    Sint16,
    Sint32,
    Sint64,
    Float,
    Double,
    Bitfield { basetype: Box<TypeInfo>, bit_offset: u16, bit_size: u16 },
    /// Size and the offset of the type pointed to.
    Pointer(u64, usize),
    /// A struct or a class; `is_class` only affects the displayed name. Inherited members are also
    /// among `members`, with adjusted offsets. Members come with their type and offset.
    Struct {
        size: u64,
        is_class: bool,
        inheritance: Vec<(String, (TypeInfo, u64))>,
        members: Vec<(String, (TypeInfo, u64))>,
    },
    Union { size: u64, members: Vec<(String, (TypeInfo, u64))> },
    Enum { size: u64, signed: bool, enumerators: Vec<(String, i64)> },
    Array { size: u64, dim: Vec<u64>, stride: u64, arraytype: Box<TypeInfo> },
    /// Offset of the referenced type, and its size.
    TypeRef(usize, u64),
    FuncPtr(u64),
    Other(u64),
}

/// Where the stack frame of a function that holds an event trigger lies.
#[derive(Debug)]
pub struct CfaInfo {
    /// Name of the function.
    pub function: String,
    /// Index of its compilation unit.
    pub unit_idx: usize,
    /// First address of the function.
    pub low_pc: u64,
    /// End of the function.
    pub high_pc: u64,
    /// Offset of the canonical frame address at the event trigger, if it is known.
    pub cfa_offset: Option<i64>,
}

/// The debug information of an ELF file.
pub struct DebugData {
    /// Variable name to the instances of that name.
    pub variables: IndexMap<String, Vec<VarInfo>>,
    /// Type reference to type.
    pub types: HashMap<usize, TypeInfo>,
    /// Type name to the references of all types of that name.
    pub typenames: NameMap<Vec<usize>>,
    /// Type reference to qualified A2L name, for ambiguous type names only.
    pub a2l_type_names: HashMap<usize, String>,
    /// Mangled name to demangled name.
    pub demangled_names: NameMap<String>,
    /// Compilation unit names by unit index.
    pub unit_names: Vec<Option<String>>,
    /// Section name to its start and end.
    pub sections: NameMap<(u64, u64)>,
    /// ELF symbol name to address.
    pub symbol_addresses: NameMap<u64>,
    /// Functions that contain an event trigger.
    pub cfa_info: Vec<CfaInfo>,
    /// The EPK string of the `xcp_epk` section.
    pub epk_string: Option<String>,
    /// Address of the `xcp_epk` section, 0 if there is none.
    pub epk_addr: u64,
    /// Base address and bytes of the `xcp_meta` section.
    pub xcp_meta_data: Option<(u64, Vec<u8>)>,
    /// Byte order of the file.
    pub is_little_endian: bool,
}

/// The text of an optional string.
pub open spec fn opt_text(s: Option<String>) -> Option<Seq<char>> {
    match s {
        Some(t) => Some(t@),
        None => None,
    }
}

/// The size of a type in bytes; that of a bit field is the size of its base type.
pub open spec fn type_size(t: TypeInfo) -> u64
    decreases t,
{
    match t.datatype {
        DbgDataType::Uint8 | DbgDataType::Sint8 => 1,
        DbgDataType::Uint16 | DbgDataType::Sint16 => 2,
        DbgDataType::Uint32 | DbgDataType::Sint32 | DbgDataType::Float => 4,
        DbgDataType::Uint64 | DbgDataType::Sint64 | DbgDataType::Double => 8,
        DbgDataType::Bitfield { basetype, .. } => type_size(*basetype),
        DbgDataType::Pointer(size, _) => size,
        DbgDataType::Other(size) => size,
        DbgDataType::Struct { size, .. } => size,
        DbgDataType::Union { size, .. } => size,
        DbgDataType::Enum { size, .. } => size,
        DbgDataType::Array { size, .. } => size,
        DbgDataType::FuncPtr(size) => size,
        DbgDataType::TypeRef(_, size) => size,
    }
}

/// `Kind name(n what)`, with `<anonymous>` for a type without a name.
pub open spec fn counted_text(
    kind: Seq<char>,
    name: Option<Seq<char>>,
    n: nat,
    what: Seq<char>,
) -> Seq<char> {
    kind + " "@ + (match name {
        Some(s) => s,
        None => "<anonymous>"@,
    }) + "("@ + decimal(n as int) + " "@ + what + ")"@
}

/// Numbers separated by a comma and a space.
pub open spec fn numbers_text(v: Seq<u64>) -> Seq<char>
    decreases v.len(),
{
    if v.len() == 0 {
        Seq::empty()
    } else if v.len() == 1 {
        decimal(v[0] as int)
    } else {
        numbers_text(v.drop_last()) + ", "@ + decimal(v.last() as int)
    }
}

/// The text that stands for a type.
pub open spec fn type_text(t: TypeInfo) -> Seq<char>
    decreases t,
{
    match t.datatype {
        DbgDataType::Uint8 => "Uint8"@,
        DbgDataType::Uint16 => "Uint16"@,
        DbgDataType::Uint32 => "Uint32"@,
        DbgDataType::Uint64 => "Uint64"@,
        DbgDataType::Sint8 => "Sint8"@,
        DbgDataType::Sint16 => "Sint16"@,
        DbgDataType::Sint32 => "Sint32"@,
        DbgDataType::Sint64 => "Sint64"@,
        DbgDataType::Float => "Float"@,
        DbgDataType::Double => "Double"@,
        DbgDataType::Bitfield { .. } => "Bitfield"@,
        DbgDataType::Pointer(_, _) => "Pointer(...)"@,
        DbgDataType::Other(size) => "Other("@ + decimal(size as int) + ")"@,
        DbgDataType::FuncPtr(size) => "function pointer("@ + decimal(size as int) + ")"@,
        DbgDataType::Struct { is_class, members, .. } => counted_text(
            if is_class {
                "Class"@
            } else {
                "Struct"@
            },
            opt_text(t.name),
            members@.len(),
            "members"@,
        ),
        DbgDataType::Union { members, .. } => counted_text(
            "Union"@,
            opt_text(t.name),
            members@.len(),
            "members"@,
        ),
        DbgDataType::Enum { enumerators, .. } => counted_text(
            "Enum"@,
            opt_text(t.name),
            enumerators@.len(),
            "enumerators"@,
        ),
        DbgDataType::Array { dim, arraytype, .. } => "Array(["@ + numbers_text(dim@) + "] x "@
            + type_text(*arraytype) + ")"@,
        DbgDataType::TypeRef(r, _) => "TypeRef("@ + decimal(r as int) + ")"@,
    }
}

/// Appends `kind name(n what)` for a type to a string.
fn push_counted(s: &mut String, kind: &str, name: &Option<String>, n: usize, what: &str)
    ensures
        final(s)@ == old(s)@ + counted_text(kind@, opt_text(*name), n as nat, what@),
{
    let ghost before = s@;
    s.append(kind);
    s.append(" ");
    match name {
        Some(t) => {
            s.append(t.as_str());
        },
        None => {
            s.append("<anonymous>");
        },
    }
    s.append("(");
    let d = decimal_u64(n as u64);
    s.append(d.as_str());
    s.append(" ");
    s.append(what);
    s.append(")");
    assert(s@ =~= before + counted_text(kind@, opt_text(*name), n as nat, what@));
}

impl TypeInfo {
    /// The size of the type in bytes.
    pub fn get_size(&self) -> (size: u64)
        ensures
            size == type_size(*self),
        decreases self,
    {
        match &self.datatype {
            DbgDataType::Uint8 => 1,
            DbgDataType::Uint16 => 2,
            DbgDataType::Uint32 => 4,
            DbgDataType::Uint64 => 8,
            DbgDataType::Sint8 => 1,
            DbgDataType::Sint16 => 2,
            DbgDataType::Sint32 => 4,
            DbgDataType::Sint64 => 8,
            DbgDataType::Float => 4,
            DbgDataType::Double => 8,
            DbgDataType::Bitfield { basetype, .. } => basetype.get_size(),
            DbgDataType::Pointer(size, _) => *size,
            DbgDataType::Other(size) => *size,
            DbgDataType::Struct { size, .. } => *size,
            DbgDataType::Union { size, .. } => *size,
            DbgDataType::Enum { size, .. } => *size,
            DbgDataType::Array { size, .. } => *size,
            DbgDataType::FuncPtr(size) => *size,
            DbgDataType::TypeRef(_, size) => *size,
        }
    }

    /// Appends the text that stands for the type to a string.
    pub fn fmt(&self, f: &mut String)
        ensures
            final(f)@ == old(f)@ + type_text(*self),
        decreases self,
    {
        let ghost before = f@;
        match &self.datatype {
            DbgDataType::Uint8 => f.append("Uint8"),
            DbgDataType::Uint16 => f.append("Uint16"),
            DbgDataType::Uint32 => f.append("Uint32"),
            DbgDataType::Uint64 => f.append("Uint64"),
            DbgDataType::Sint8 => f.append("Sint8"),
            DbgDataType::Sint16 => f.append("Sint16"),
            DbgDataType::Sint32 => f.append("Sint32"),
            DbgDataType::Sint64 => f.append("Sint64"),
            DbgDataType::Float => f.append("Float"),
            DbgDataType::Double => f.append("Double"),
            DbgDataType::Bitfield { .. } => f.append("Bitfield"),
            DbgDataType::Pointer(_, _) => f.append("Pointer(...)"),
            DbgDataType::Other(size) => {
                f.append("Other(");
                let d = decimal_u64(*size);
                f.append(d.as_str());
                f.append(")");
            },
            DbgDataType::FuncPtr(size) => {
                f.append("function pointer(");
                let d = decimal_u64(*size);
                f.append(d.as_str());
                f.append(")");
            },
            DbgDataType::Struct { members, is_class, .. } => {
                let kind = if *is_class {
                    "Class"
                } else {
                    "Struct"
                };
                push_counted(f, kind, &self.name, members.len(), "members");
            },
            DbgDataType::Union { members, .. } => {
                push_counted(f, "Union", &self.name, members.len(), "members");
            },
            DbgDataType::Enum { enumerators, .. } => {
                push_counted(f, "Enum", &self.name, enumerators.len(), "enumerators");
            },
            DbgDataType::Array { dim, arraytype, .. } => {
                f.append("Array([");
                let ghost start = f@;
                let n: usize = dim.len();
                for i in 0..n
                    invariant
                        n == dim.len(),
                        f@ == start + numbers_text(dim@.take(i as int)),
                {
                    let ghost so_far = f@;
                    assert(dim@.take(i + 1).drop_last() =~= dim@.take(i as int));
                    assert(dim@.take(i + 1).last() == dim@[i as int]);
                    if i > 0 {
                        f.append(", ");
                    }
                    let d = decimal_u64(dim[i]);
                    f.append(d.as_str());
                    assert(f@ =~= start + numbers_text(dim@.take(i + 1)));
                }
                assert(dim@.take(n as int) =~= dim@);
                f.append("] x ");
                arraytype.fmt(f);
                f.append(")");
            },
            DbgDataType::TypeRef(r, _) => {
                f.append("TypeRef(");
                let d = decimal_u64(*r as u64);
                f.append(d.as_str());
                f.append(")");
            },
        }
        assert(f@ =~= before + type_text(*self));
    }

    /// The text that stands for the type.
    pub fn to_text(&self) -> (s: String)
        ensures
            s@ == type_text(*self),
    {
        let mut s = String::new();
        self.fmt(&mut s);
        assert(s@ =~= type_text(*self));
        s
    }
}

/// The file name in a path: what follows the last backslash, or else the last slash.
pub open spec fn file_name(path: Seq<char>) -> Seq<char> {
    match last_of(path, '\\') {
        Some(p) => path.skip(p + 1),
        None => match last_of(path, '/') {
            Some(p) => path.skip(p + 1),
            None => path,
        },
    }
}

/// The simple name of a compilation unit: its file name with an underscore for every dot.
pub open spec fn simple_name(path: Seq<char>) -> Seq<char> {
    replaced(file_name(path), '.', '_')
}

/// The simple name of a compilation unit holds no dot and no backslash.
pub proof fn law_simple_name_is_simple(path: Seq<char>)
    ensures
        !simple_name(path).contains('.'),
        !simple_name(path).contains('\\'),
{
    lemma_after_last(path, '\\');
    let f = file_name(path);
    assert forall|i: int| 0 <= i < f.len() implies f[i] != '\\' by {
        match last_of(path, '\\') {
            Some(p) => {
                assert(f[i] == path[p + 1 + i]);
            },
            None => match last_of(path, '/') {
                Some(q) => {
                    lemma_after_last(path, '/');
                    assert(f[i] == path[q + 1 + i]);
                },
                None => {},
            },
        }
    }
    assert forall|i: int| 0 <= i < f.len() implies simple_name(path)[i] != '.' && simple_name(
        path,
    )[i] != '\\' by {}
}

impl DebugData {
    /// The variables: each name with its instances, in the order of the map.
    pub open spec fn vars(&self) -> Seq<(Seq<char>, Seq<VarInfo>)> {
        variable_entries(self.variables)
    }

    /// The simple name of a compilation unit, if it has a name.
    pub open spec fn unit_name(&self, unit_idx: int) -> Option<Seq<char>> {
        if 0 <= unit_idx < self.unit_names@.len() {
            match self.unit_names@[unit_idx] {
                Some(path) => Some(simple_name(path@)),
                None => None,
            }
        } else {
            None
        }
    }

    /// The simple name of a compilation unit, or its index where it has none.
    pub open spec fn unit_label(&self, unit_idx: int) -> Seq<char> {
        match self.unit_name(unit_idx) {
            Some(name) => name,
            None => decimal(unit_idx),
        }
    }

    /// The A2L name of a type: its qualified name where the plain one is ambiguous.
    pub open spec fn a2l_name(&self, t: TypeInfo) -> Option<Seq<char>> {
        match t.name {
            Some(name) => Some(
                if self.a2l_type_names@.contains_key(t.dbginfo_offset) {
                    self.a2l_type_names@[t.dbginfo_offset]@
                } else {
                    name@
                },
            ),
            None => None,
        }
    }

    /// Start of the event descriptors: that of their section, or else the linker symbol for it if it
    /// lies below the one for the end; 0 if neither is there.
    pub open spec fn event_section_start(&self) -> u64 {
        match lookup(self.sections.order(), "xcp_evts"@) {
            Some(range) => range.0,
            None => match (
                lookup(self.symbol_addresses.order(), "__start_xcp_evts"@),
                lookup(self.symbol_addresses.order(), "__stop_xcp_evts"@),
            ) {
                (Some(start), Some(stop)) => if start < stop {
                    start
                } else {
                    0
                },
                _ => 0,
            },
        }
    }

    /// End of the event descriptors: that of their section, or else the linker symbol for it.
    pub open spec fn event_section_end(&self) -> Option<u64> {
        match lookup(self.sections.order(), "xcp_evts"@) {
            Some(range) => Some(range.1),
            None => lookup(self.symbol_addresses.order(), "__stop_xcp_evts"@),
        }
    }

    /// Converts the name of a compilation unit, which might include a path, into a simple name.
    pub fn make_simple_unit_name(&self, unit_idx: usize) -> (r: Option<String>)
        ensures
            opt_text(r) == self.unit_name(unit_idx as int),
    {
        if unit_idx >= self.unit_names.len() {
            return None;
        }
        match &self.unit_names[unit_idx] {
            Some(full_name) => {
                let full_name = full_name.as_str();
                let file_name = match after_last(full_name, '\\') {
                    Some(t) => t,
                    None => match after_last(full_name, '/') {
                        Some(t) => t,
                        None => full_name,
                    },
                };
                Some(replace_char(file_name, '.', '_'))
            },
            None => None,
        }
    }

    /// The simple name of a compilation unit, or its index where it has none.
    pub fn make_unit_label(&self, unit_idx: usize) -> (r: String)
        ensures
            r@ == self.unit_label(unit_idx as int),
    {
        match self.make_simple_unit_name(unit_idx) {
            Some(name) => name,
            None => decimal_u64(unit_idx as u64),
        }
    }

    /// The shortest unambiguous A2L name of a type.
    pub fn get_a2l_type_name<'a>(&'a self, type_info: &'a TypeInfo) -> (r: Option<&'a str>)
        ensures
            r is Some <==> self.a2l_name(*type_info) is Some,
            r matches Some(s) ==> Some(s@) == self.a2l_name(*type_info),
    {
        broadcast use vstd::std_specs::hash::group_hash_axioms;

        match &type_info.name {
            Some(plain_name) => match self.a2l_type_names.get(&type_info.dbginfo_offset) {
                Some(name) => Some(name.as_str()),
                None => Some(plain_name.as_str()),
            },
            None => None,
        }
    }

    /// The address of the XCP event descriptors, 0 if there are none.
    pub fn get_event_section_addr(&self) -> (addr: u64)
        ensures
            addr == self.event_section_start(),
    {
        match self.sections.get("xcp_evts") {
            Some(range) => range.0,
            None => match (
                self.symbol_addresses.get("__start_xcp_evts"),
                self.symbol_addresses.get("__stop_xcp_evts"),
            ) {
                (Some(start), Some(stop)) => if *start < *stop {
                    *start
                } else {
                    0
                },
                _ => 0,
            },
        }
    }

    /// The end of the XCP event descriptors, if it is known.
    pub fn get_event_section_end(&self) -> (end: Option<u64>)
        ensures
            end == self.event_section_end(),
    {
        match self.sections.get("xcp_evts") {
            Some(range) => Some(range.1),
            None => match self.symbol_addresses.get("__stop_xcp_evts") {
                Some(stop) => Some(*stop),
                None => None,
            },
        }
    }

    /// The address of the XCP EPK section, 0 if there is none.
    pub fn get_epk_section_addr(&self) -> (addr: u64)
        ensures
            addr == match lookup(self.sections.order(), "xcp_epk"@) {
                Some(range) => range.0,
                None => 0,
            },
    {
        match self.sections.get("xcp_epk") {
            Some(range) => range.0,
            None => 0,
        }
    }
}

} // verus!
