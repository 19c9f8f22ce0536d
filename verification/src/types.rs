//! Registration of types: the value type of a type in the registry, and the registered types that
//! a struct brings with it.
use std::collections::HashSet;
use vstd::prelude::*;

use crate::debuginfo::{DbgDataType, DebugData, TypeInfo};
use crate::elf_reader::ElfReader;
use crate::registry::{
    has_typedef, A2lFormat, McDimType, McObjectType, McTypedefField, McValueType, TypedefList, TypedefView,
};

verus! {

/// The type at the end of a chain of type references, if the chain has at most `fuel` links. A
/// reference to an unknown type ends a chain.
pub open spec fn target(types: Map<usize, TypeInfo>, fuel: nat, t: TypeInfo) -> Option<TypeInfo>
    decreases fuel,
{
    match t.datatype {
        DbgDataType::TypeRef(r, _) => if !types.contains_key(r) {
            Some(t)
        } else if fuel == 0 {
            None
        } else {
            target(types, (fuel - 1) as nat, types[r])
        },
        _ => Some(t),
    }
}

/// The chain of type references that begins with a type ends.
pub open spec fn chain_ends(types: Map<usize, TypeInfo>, t: TypeInfo) -> bool {
    exists|fuel: nat| (#[trigger] target(types, fuel, t)) is Some
}

/// The type at the end of the chain of type references that begins with a type.
pub open spec fn resolved(types: Map<usize, TypeInfo>, t: TypeInfo) -> TypeInfo {
    target(types, choose|fuel: nat| (#[trigger] target(types, fuel, t)) is Some, t)->0
}

/// A type can be registered as far as `n` links of type references lead: every chain of type
/// references that is met ends, and every member of a struct with a name that is an array has a
/// dimension.
pub open spec fn sound_to(dd: DebugData, t: TypeInfo, n: nat) -> bool
    decreases n, t,
{
    match t.datatype {
        DbgDataType::Struct { members, .. } => t.name is Some ==> forall|i: int|
            0 <= i < members@.len() && (#[trigger] members@[i]).1.1 <= 0xFFFF ==> {
                let m = members@[i].1.0;
                match m.datatype {
                    DbgDataType::Array { dim, arraytype, .. } => dim@.len() > 0 && sound_to(
                        dd,
                        *arraytype,
                        n,
                    ),
                    _ => sound_to(dd, m, n),
                }
            },
        DbgDataType::TypeRef(r, _) => chain_ends(dd.types@, t) && (n > 0 && dd.types@.contains_key(
            r,
        ) ==> sound_to(dd, dd.types@[r], (n - 1) as nat)),
        _ => true,
    }
}

/// The value type of a type can be registered.
pub open spec fn can_register(dd: DebugData, t: TypeInfo) -> bool {
    forall|n: nat| #[trigger] sound_to(dd, t, n)
}

/// A type can be registered with its dimensions: an array has one.
pub open spec fn can_register_dims(dd: DebugData, t: TypeInfo) -> bool {
    &&& t.datatype matches DbgDataType::Array { dim, .. } ==> dim@.len() > 0
    &&& can_register(dd, element_type(t))
}

/// The members of a struct can become fields, as far as their offset fits.
pub open spec fn can_register_members(
    dd: DebugData,
    members: Seq<(String, (TypeInfo, u64))>,
) -> bool {
    forall|i: int|
        0 <= i < members.len() && (#[trigger] members[i]).1.1 <= 0xFFFF ==> can_register_dims(
            dd,
            members[i].1.0,
        )
}

/// The value type of a type.
pub open spec fn value_type(dd: DebugData, format: A2lFormat, t: TypeInfo) -> McValueType<Seq<char>> {
    let u = resolved(dd.types@, t);
    match u.datatype {
        DbgDataType::Uint8 => McValueType::Ubyte,
        DbgDataType::Uint16 => McValueType::Uword,
        DbgDataType::Uint32 => McValueType::Ulong,
        DbgDataType::Uint64 => McValueType::Ulonglong,
        DbgDataType::Sint8 => McValueType::Sbyte,
        DbgDataType::Sint16 => McValueType::Sword,
        DbgDataType::Sint32 => McValueType::Slong,
        DbgDataType::Sint64 => McValueType::Slonglong,
        DbgDataType::Float => McValueType::Float32Ieee,
        DbgDataType::Double => McValueType::Float64Ieee,
        DbgDataType::Struct { .. } => match dd.a2l_name(u) {
            Some(name) => McValueType::TypeDef(format.identifier(name)),
            None => McValueType::Ubyte,
        },
        DbgDataType::Enum { size, signed, .. } => McValueType::Integer { size, signed },
        DbgDataType::Pointer(size, _) => if size == 4 {
            McValueType::Ulong
        } else {
            McValueType::Ulonglong
        },
        _ => McValueType::Ubyte,
    }
}

/// The type of the elements of an array; of any other type, the type itself.
pub open spec fn element_type(t: TypeInfo) -> TypeInfo {
    match t.datatype {
        DbgDataType::Array { arraytype, .. } => *arraytype,
        _ => t,
    }
}

/// The value type of a type with its dimensions. An array of more than two dimensions counts as a
/// single byte.
pub open spec fn dim_type(dd: DebugData, format: A2lFormat, t: TypeInfo) -> McDimType<Seq<char>> {
    match t.datatype {
        DbgDataType::Array { dim, arraytype, .. } => if dim@.len() > 2 {
            McDimType { value_type: McValueType::Ubyte, x_dim: 1, y_dim: 1 }
        } else {
            McDimType {
                value_type: value_type(dd, format, *arraytype),
                x_dim: dim@[0] as u16,
                y_dim: if dim@.len() == 1 {
                    1
                } else {
                    dim@[1] as u16
                },
            }
        },
        _ => McDimType { value_type: value_type(dd, format, t), x_dim: 1, y_dim: 1 },
    }
}

/// The types after a type was registered: unless it is, or refers to, a struct with a name that is
/// not registered yet, nothing is added; `None` if structs nest deeper than `fuel`.
pub open spec fn registration(
    dd: DebugData,
    format: A2lFormat,
    fuel: nat,
    st: Seq<TypedefView>,
    t: TypeInfo,
    object_type: McObjectType,
) -> Option<Seq<TypedefView>>
    decreases fuel, 1nat,
{
    let u = resolved(dd.types@, t);
    match (u.datatype, dd.a2l_name(u)) {
        (DbgDataType::Struct { size, members, .. }, Some(name)) => struct_registration(
            dd,
            format,
            fuel,
            st,
            format.identifier(name),
            size,
            members@,
            object_type,
        ),
        _ => Some(st),
    }
}

/// The types after a struct was registered: unless its identifier is there, the struct comes at the
/// end, followed by the types of its members that were not registered yet.
pub open spec fn struct_registration(
    dd: DebugData,
    format: A2lFormat,
    fuel: nat,
    st: Seq<TypedefView>,
    id: Seq<char>,
    size: u64,
    members: Seq<(String, (TypeInfo, u64))>,
    object_type: McObjectType,
) -> Option<Seq<TypedefView>>
    decreases fuel, 0nat,
{
    if has_typedef(st, id) {
        Some(st)
    } else if fuel == 0 {
        None
    } else {
        with_fields(
            dd,
            format,
            (fuel - 1) as nat,
            st.push(TypedefView { name: id, size, fields: Seq::empty() }),
            st.len() as int,
            members,
            members.len(),
            object_type,
        )
    }
}

/// The types after the first `n` members became fields of the type at position `at`; members whose
/// offset takes more than 16 bits are left out.
pub open spec fn with_fields(
    dd: DebugData,
    format: A2lFormat,
    fuel: nat,
    st: Seq<TypedefView>,
    at: int,
    members: Seq<(String, (TypeInfo, u64))>,
    n: nat,
    object_type: McObjectType,
) -> Option<Seq<TypedefView>>
    decreases fuel, n + 1,
{
    if n == 0 {
        Some(st)
    } else {
        let (name, (t, offset)) = members[n - 1];
        match with_fields(dd, format, fuel, st, at, members, (n - 1) as nat, object_type) {
            Some(st1) => if offset > 0xFFFF {
                Some(st1)
            } else {
                match registration(dd, format, fuel, st1, element_type(t), object_type) {
                    Some(st2) => Some(
                        with_field(
                            st2,
                            at,
                            McTypedefField {
                                name: name@,
                                dim_type: dim_type(dd, format, t),
                                object_type,
                                offset: offset as u16,
                            },
                        ),
                    ),
                    None => None,
                }
            },
            None => None,
        }
    }
}

/// The types with one more field in the type at position `at`.
pub open spec fn with_field(
    st: Seq<TypedefView>,
    at: int,
    field: McTypedefField<Seq<char>>,
) -> Seq<TypedefView> {
    st.update(at, TypedefView { fields: st[at].fields.push(field), ..st[at] })
}

/// A chain of type references has one end, however much fuel is given.
pub proof fn lemma_target(types: Map<usize, TypeInfo>, f: nat, g: nat, t: TypeInfo)
    requires
        target(types, f, t) is Some,
        f <= g,
    ensures
        target(types, g, t) == target(types, f, t),
    decreases f,
{
    match t.datatype {
        DbgDataType::TypeRef(r, _) => {
            if types.contains_key(r) {
                lemma_target(types, (f - 1) as nat, (g - 1) as nat, types[r]);
            }
        },
        _ => {},
    }
}

/// The end of a chain that is reached with some fuel is the end of the chain.
pub proof fn lemma_resolved(types: Map<usize, TypeInfo>, f: nat, t: TypeInfo)
    requires
        target(types, f, t) is Some,
    ensures
        resolved(types, t) == target(types, f, t)->0,
{
    let g = choose|fuel: nat| (#[trigger] target(types, fuel, t)) is Some;
    if f <= g {
        lemma_target(types, f, g, t);
    } else {
        lemma_target(types, g, f, t);
    }
}

/// The chain of type references that begins with a type that can be registered ends.
pub proof fn lemma_chain_ends(dd: DebugData, t: TypeInfo)
    requires
        can_register(dd, t),
    ensures
        chain_ends(dd.types@, t),
{
    assert(sound_to(dd, t, 0));
    match t.datatype {
        DbgDataType::TypeRef(_, _) => {},
        _ => {
            assert(target(dd.types@, 0, t) is Some);
        },
    }
}

/// The type at the end of a chain can be registered if the one at its beginning can.
proof fn lemma_can_register_target(dd: DebugData, f: nat, t: TypeInfo)
    requires
        can_register(dd, t),
        target(dd.types@, f, t) is Some,
    ensures
        can_register(dd, target(dd.types@, f, t)->0),
    decreases f,
{
    match t.datatype {
        DbgDataType::TypeRef(r, _) => {
            if dd.types@.contains_key(r) {
                assert forall|n: nat| #[trigger] sound_to(dd, dd.types@[r], n) by {
                    assert(sound_to(dd, t, n + 1));
                }
                lemma_can_register_target(dd, (f - 1) as nat, dd.types@[r]);
            }
        },
        _ => {},
    }
}

/// The type that a type refers to can be registered if the type can.
proof fn lemma_can_register_resolved(dd: DebugData, t: TypeInfo)
    requires
        can_register(dd, t),
    ensures
        chain_ends(dd.types@, t),
        can_register(dd, resolved(dd.types@, t)),
{
    lemma_chain_ends(dd, t);
    let f = choose|f: nat| (#[trigger] target(dd.types@, f, t)) is Some;
    lemma_can_register_target(dd, f, t);
}

/// The members of a struct with a name can become fields if the struct can be registered.
proof fn lemma_can_register_members(dd: DebugData, t: TypeInfo)
    requires
        can_register(dd, t),
        t.name is Some,
    ensures
        t.datatype matches DbgDataType::Struct { members, .. } ==> can_register_members(
            dd,
            members@,
        ),
{
    if let DbgDataType::Struct { members, .. } = t.datatype {
        assert forall|i: int|
            0 <= i < members@.len() && (#[trigger] members@[i]).1.1 <= 0xFFFF implies can_register_dims(
            dd,
            members@[i].1.0,
        ) by {
            let m = members@[i].1.0;
            assert(sound_to(dd, t, 0));
            assert forall|n: nat| #[trigger] sound_to(dd, element_type(m), n) by {
                assert(sound_to(dd, t, n));
            }
        }
    }
}

/// What is registered does not depend on how much fuel is left over.
pub proof fn lemma_registration_fuel(
    dd: DebugData,
    format: A2lFormat,
    f: nat,
    g: nat,
    st: Seq<TypedefView>,
    t: TypeInfo,
    object_type: McObjectType,
)
    requires
        registration(dd, format, f, st, t, object_type) is Some,
        f <= g,
    ensures
        registration(dd, format, g, st, t, object_type) == registration(
            dd,
            format,
            f,
            st,
            t,
            object_type,
        ),
    decreases f, 1nat,
{
    let u = resolved(dd.types@, t);
    match (u.datatype, dd.a2l_name(u)) {
        (DbgDataType::Struct { size, members, .. }, Some(name)) => {
            let id = format.identifier(name);
            if !has_typedef(st, id) {
                lemma_with_fields_fuel(
                    dd,
                    format,
                    (f - 1) as nat,
                    (g - 1) as nat,
                    st.push(TypedefView { name: id, size, fields: Seq::empty() }),
                    st.len() as int,
                    members@,
                    members@.len(),
                    object_type,
                );
            }
        },
        _ => {},
    }
}

proof fn lemma_with_fields_fuel(
    dd: DebugData,
    format: A2lFormat,
    f: nat,
    g: nat,
    st: Seq<TypedefView>,
    at: int,
    members: Seq<(String, (TypeInfo, u64))>,
    n: nat,
    object_type: McObjectType,
)
    requires
        with_fields(dd, format, f, st, at, members, n, object_type) is Some,
        f <= g,
    ensures
        with_fields(dd, format, g, st, at, members, n, object_type) == with_fields(
            dd,
            format,
            f,
            st,
            at,
            members,
            n,
            object_type,
        ),
    decreases f, n + 2,
{
    if n > 0 {
        let k = (n - 1) as nat;
        lemma_with_fields_fuel(dd, format, f, g, st, at, members, k, object_type);
        let st1 = with_fields(dd, format, f, st, at, members, k, object_type)->0;
        let (name, (t, offset)) = members[n - 1];
        if offset <= 0xFFFF {
            lemma_registration_fuel(dd, format, f, g, st1, element_type(t), object_type);
        }
    }
}

/// The identifiers in the set cover every struct with a name in a type, down through its members.
spec fn covers(dd: DebugData, format: A2lFormat, ids: Set<Seq<char>>, t: TypeInfo) -> bool
    decreases t,
{
    match t.datatype {
        DbgDataType::Array { arraytype, .. } => covers(dd, format, ids, *arraytype),
        DbgDataType::Struct { members, .. } => {
            &&& dd.a2l_name(t) matches Some(name) ==> ids.contains(format.identifier(name))
            &&& forall|i: int|
                0 <= i < members@.len() ==> covers(dd, format, ids, (#[trigger] members@[i]).1.0)
        },
        _ => true,
    }
}

proof fn lemma_covers_more(
    dd: DebugData,
    format: A2lFormat,
    ids: Set<Seq<char>>,
    more: Set<Seq<char>>,
    t: TypeInfo,
)
    requires
        covers(dd, format, ids, t),
        ids.subset_of(more),
    ensures
        covers(dd, format, more, t),
    decreases t,
{
    match t.datatype {
        DbgDataType::Array { arraytype, .. } => {
            lemma_covers_more(dd, format, ids, more, *arraytype);
        },
        DbgDataType::Struct { members, .. } => {
            assert forall|i: int| 0 <= i < members@.len() implies covers(
                dd,
                format,
                more,
                (#[trigger] members@[i]).1.0,
            ) by {
                lemma_covers_more(dd, format, ids, more, members@[i].1.0);
            }
        },
        _ => {},
    }
}

/// A finite set of identifiers that covers a type.
proof fn cover_of(dd: DebugData, format: A2lFormat, t: TypeInfo) -> (ids: Set<Seq<char>>)
    ensures
        ids.finite(),
        covers(dd, format, ids, t),
    decreases t, 0nat,
{
    match t.datatype {
        DbgDataType::Array { arraytype, .. } => cover_of(dd, format, *arraytype),
        DbgDataType::Struct { members, .. } => {
            let inner = cover_of_members(dd, format, members@, members@.len());
            let ids = match dd.a2l_name(t) {
                Some(name) => inner.insert(format.identifier(name)),
                None => inner,
            };
            assert forall|i: int| 0 <= i < members@.len() implies covers(
                dd,
                format,
                ids,
                (#[trigger] members@[i]).1.0,
            ) by {
                lemma_covers_more(dd, format, inner, ids, members@[i].1.0);
            }
            ids
        },
        _ => Set::empty(),
    }
}

proof fn cover_of_members(
    dd: DebugData,
    format: A2lFormat,
    members: Seq<(String, (TypeInfo, u64))>,
    n: nat,
) -> (ids: Set<Seq<char>>)
    requires
        n <= members.len(),
    ensures
        ids.finite(),
        forall|i: int| 0 <= i < n ==> covers(dd, format, ids, (#[trigger] members[i]).1.0),
    decreases members, n,
{
    if n == 0 {
        Set::empty()
    } else {
        let a = cover_of_members(dd, format, members, (n - 1) as nat);
        let b = cover_of(dd, format, members[n - 1].1.0);
        let ids = a.union(b);
        assert forall|i: int| 0 <= i < n implies covers(
            dd,
            format,
            ids,
            (#[trigger] members[i]).1.0,
        ) by {
            if i < n - 1 {
                lemma_covers_more(dd, format, a, ids, members[i].1.0);
            } else {
                lemma_covers_more(dd, format, b, ids, members[i].1.0);
            }
        }
        ids
    }
}

/// A finite set of identifiers that covers the known types of some references.
proof fn cover_of_types(dd: DebugData, format: A2lFormat, refs: Set<usize>) -> (ids: Set<Seq<char>>)
    requires
        refs.finite(),
        refs.subset_of(dd.types@.dom()),
    ensures
        ids.finite(),
        forall|r: usize| #[trigger] refs.contains(r) ==> covers(dd, format, ids, dd.types@[r]),
    decreases refs.len(),
{
    if refs.len() == 0 {
        Set::empty()
    } else {
        let r0 = refs.choose();
        let a = cover_of_types(dd, format, refs.remove(r0));
        let b = cover_of(dd, format, dd.types@[r0]);
        let ids = a.union(b);
        assert forall|r: usize| #[trigger] refs.contains(r) implies covers(
            dd,
            format,
            ids,
            dd.types@[r],
        ) by {
            if r == r0 {
                lemma_covers_more(dd, format, b, ids, dd.types@[r]);
            } else {
                assert(refs.remove(r0).contains(r));
                lemma_covers_more(dd, format, a, ids, dd.types@[r]);
            }
        }
        ids
    }
}

/// Registering a type keeps every type that was there, with its fields, in its place.
pub proof fn lemma_registration_keeps(
    dd: DebugData,
    format: A2lFormat,
    fuel: nat,
    st: Seq<TypedefView>,
    t: TypeInfo,
    object_type: McObjectType,
)
    requires
        registration(dd, format, fuel, st, t, object_type) is Some,
    ensures
        st.is_prefix_of(registration(dd, format, fuel, st, t, object_type)->0),
    decreases fuel, 1nat,
{
    let u = resolved(dd.types@, t);
    match (u.datatype, dd.a2l_name(u)) {
        (DbgDataType::Struct { size, members, .. }, Some(name)) => {
            let id = format.identifier(name);
            if !has_typedef(st, id) {
                let st1 = st.push(TypedefView { name: id, size, fields: Seq::empty() });
                let f = (fuel - 1) as nat;
                let n = members@.len();
                lemma_with_fields_keeps(
                    dd,
                    format,
                    f,
                    st1,
                    st.len() as int,
                    members@,
                    n,
                    object_type,
                );
                let r = with_fields(
                    dd,
                    format,
                    f,
                    st1,
                    st.len() as int,
                    members@,
                    n,
                    object_type,
                )->0;
                assert forall|i: int| 0 <= i < st.len() implies st[i] == #[trigger] r[i] by {
                    assert(st1[i] == st[i]);
                }
                assert(st =~= r.take(st.len() as int));
            }
        },
        _ => {},
    }
}

/// Adding fields to a type keeps every other type, and the name and size of that type.
pub proof fn lemma_with_fields_keeps(
    dd: DebugData,
    format: A2lFormat,
    fuel: nat,
    st: Seq<TypedefView>,
    at: int,
    members: Seq<(String, (TypeInfo, u64))>,
    n: nat,
    object_type: McObjectType,
)
    requires
        with_fields(dd, format, fuel, st, at, members, n, object_type) is Some,
        0 <= at < st.len(),
    ensures
        ({
            let r = with_fields(dd, format, fuel, st, at, members, n, object_type)->0;
            &&& st.len() <= r.len()
            &&& forall|i: int| 0 <= i < st.len() && i != at ==> #[trigger] r[i] == st[i]
            &&& r[at].name == st[at].name
            &&& r[at].size == st[at].size
        }),
    decreases fuel, n + 2,
{
    if n > 0 {
        let k = (n - 1) as nat;
        lemma_with_fields_keeps(dd, format, fuel, st, at, members, k, object_type);
        let st1 = with_fields(dd, format, fuel, st, at, members, k, object_type)->0;
        let (name, (t, offset)) = members[n - 1];
        if offset <= 0xFFFF {
            lemma_registration_keeps(dd, format, fuel, st1, element_type(t), object_type);
            let st2 = registration(dd, format, fuel, st1, element_type(t), object_type)->0;
            assert forall|i: int| 0 <= i < st.len() implies #[trigger] st2[i] == st1[i] by {
                assert(st2.take(st1.len() as int)[i] == st1[i]);
            }
        }
    }
}

/// The identifiers of registered types.
spec fn registered(st: Seq<TypedefView>) -> Set<Seq<char>> {
    Set::new(|id: Seq<char>| has_typedef(st, id))
}

/// A set of identifiers that covers every known type covers the end of a chain that it begins.
proof fn lemma_resolved_covers(
    dd: DebugData,
    format: A2lFormat,
    ids: Set<Seq<char>>,
    f: nat,
    t: TypeInfo,
)
    requires
        forall|r: usize| #[trigger]
            dd.types@.contains_key(r) ==> covers(dd, format, ids, dd.types@[r]),
        covers(dd, format, ids, t),
        target(dd.types@, f, t) is Some,
    ensures
        covers(dd, format, ids, target(dd.types@, f, t)->0),
    decreases f,
{
    match t.datatype {
        DbgDataType::TypeRef(r, _) => {
            if dd.types@.contains_key(r) {
                lemma_resolved_covers(dd, format, ids, (f - 1) as nat, dd.types@[r]);
            }
        },
        _ => {},
    }
}

/// Structs nest no deeper than there are identifiers that are not registered yet.
proof fn lemma_registration_ends(
    dd: DebugData,
    format: A2lFormat,
    ids: Set<Seq<char>>,
    fuel: nat,
    st: Seq<TypedefView>,
    t: TypeInfo,
    object_type: McObjectType,
)
    requires
        can_register(dd, t),
        ids.finite(),
        forall|r: usize| #[trigger]
            dd.types@.contains_key(r) ==> covers(dd, format, ids, dd.types@[r]),
        covers(dd, format, ids, t),
        fuel >= ids.difference(registered(st)).len(),
    ensures
        registration(dd, format, fuel, st, t, object_type) is Some,
    decreases fuel, 1nat,
{
    lemma_can_register_resolved(dd, t);
    let f = choose|f: nat| (#[trigger] target(dd.types@, f, t)) is Some;
    lemma_resolved_covers(dd, format, ids, f, t);
    let u = resolved(dd.types@, t);
    if u.name is Some {
        lemma_can_register_members(dd, u);
    }
    match (u.datatype, dd.a2l_name(u)) {
        (DbgDataType::Struct { size, members, .. }, Some(name)) => {
            let id = format.identifier(name);
            if !has_typedef(st, id) {
                let missing = ids.difference(registered(st));
                assert(missing.contains(id));
                vstd::set_lib::lemma_set_empty_equivalency_len(missing);
                let st1 = st.push(TypedefView { name: id, size, fields: Seq::empty() });
                let missing1 = ids.difference(registered(st1));
                assert forall|s: Seq<char>| has_typedef(st, s) implies has_typedef(st1, s) by {
                    let i = choose|i: int| 0 <= i < st.len() && (#[trigger] st[i]).name == s;
                    assert(st1[i].name == s);
                }
                assert(has_typedef(st1, id)) by {
                    assert(st1[st.len() as int].name == id);
                }
                assert(missing1.subset_of(missing.remove(id)));
                vstd::set_lib::lemma_len_subset(missing1, missing.remove(id));
                lemma_with_fields_ends(
                    dd,
                    format,
                    ids,
                    (fuel - 1) as nat,
                    st1,
                    st.len() as int,
                    members@,
                    members@.len(),
                    object_type,
                );
            }
        },
        _ => {},
    }
}

proof fn lemma_with_fields_ends(
    dd: DebugData,
    format: A2lFormat,
    ids: Set<Seq<char>>,
    fuel: nat,
    st: Seq<TypedefView>,
    at: int,
    members: Seq<(String, (TypeInfo, u64))>,
    n: nat,
    object_type: McObjectType,
)
    requires
        can_register_members(dd, members),
        ids.finite(),
        forall|r: usize| #[trigger]
            dd.types@.contains_key(r) ==> covers(dd, format, ids, dd.types@[r]),
        n <= members.len(),
        forall|i: int| 0 <= i < members.len() ==> covers(dd, format, ids, (#[trigger] members[i]).1.0),
        0 <= at < st.len(),
        fuel >= ids.difference(registered(st)).len(),
    ensures
        with_fields(dd, format, fuel, st, at, members, n, object_type) is Some,
    decreases fuel, n + 2,
{
    if n > 0 {
        let k = (n - 1) as nat;
        lemma_with_fields_ends(dd, format, ids, fuel, st, at, members, k, object_type);
        lemma_with_fields_keeps(dd, format, fuel, st, at, members, k, object_type);
        let st1 = with_fields(dd, format, fuel, st, at, members, k, object_type)->0;
        let (name, (t, offset)) = members[n - 1];
        if offset <= 0xFFFF {
            assert forall|s: Seq<char>| has_typedef(st, s) implies has_typedef(st1, s) by {
                let i = choose|i: int| 0 <= i < st.len() && (#[trigger] st[i]).name == s;
                assert(st1[i].name == s);
            }
            let missing = ids.difference(registered(st));
            let missing1 = ids.difference(registered(st1));
            assert(missing1.subset_of(missing));
            vstd::set_lib::lemma_len_subset(missing1, missing);
            assert(covers(dd, format, ids, members[n - 1].1.0));
            assert(can_register_dims(dd, members[n - 1].1.0));
            lemma_registration_ends(dd, format, ids, fuel, st1, element_type(t), object_type);
        }
    }
}

/// Registering a type comes to an end, also where a struct refers back to itself.
pub proof fn lemma_registration_total(
    dd: DebugData,
    format: A2lFormat,
    st: Seq<TypedefView>,
    t: TypeInfo,
    object_type: McObjectType,
) -> (fuel: nat)
    requires
        can_register(dd, t),
    ensures
        registration(dd, format, fuel, st, t, object_type) is Some,
{
    broadcast use vstd::std_specs::hash::group_hash_axioms;

    let a = cover_of_types(dd, format, dd.types@.dom());
    let b = cover_of(dd, format, t);
    let ids = a.union(b);
    assert forall|r: usize| #[trigger] dd.types@.contains_key(r) implies covers(
        dd,
        format,
        ids,
        dd.types@[r],
    ) by {
        assert(dd.types@.dom().contains(r));
        lemma_covers_more(dd, format, a, ids, dd.types@[r]);
    }
    lemma_covers_more(dd, format, b, ids, t);
    let fuel = ids.difference(registered(st)).len();
    lemma_registration_ends(dd, format, ids, fuel, st, t, object_type);
    fuel
}

/// The types after a type was registered.
pub open spec fn typedefs_after(
    dd: DebugData,
    format: A2lFormat,
    st: Seq<TypedefView>,
    t: TypeInfo,
    object_type: McObjectType,
) -> Seq<TypedefView> {
    registration(
        dd,
        format,
        choose|fuel: nat| (#[trigger] registration(dd, format, fuel, st, t, object_type)) is Some,
        st,
        t,
        object_type,
    )->0
}

/// What is registered with some fuel is what is registered.
pub proof fn lemma_typedefs_after(
    dd: DebugData,
    format: A2lFormat,
    fuel: nat,
    st: Seq<TypedefView>,
    t: TypeInfo,
    object_type: McObjectType,
)
    requires
        registration(dd, format, fuel, st, t, object_type) is Some,
    ensures
        typedefs_after(dd, format, st, t, object_type) == registration(
            dd,
            format,
            fuel,
            st,
            t,
            object_type,
        )->0,
{
    let g = choose|fuel: nat| (#[trigger] registration(dd, format, fuel, st, t, object_type)) is Some;
    if fuel <= g {
        lemma_registration_fuel(dd, format, fuel, g, st, t, object_type);
    } else {
        lemma_registration_fuel(dd, format, g, fuel, st, t, object_type);
    }
}

/// If all members become fields, the first of them do.
proof fn lemma_with_fields_start(
    dd: DebugData,
    format: A2lFormat,
    fuel: nat,
    st: Seq<TypedefView>,
    at: int,
    members: Seq<(String, (TypeInfo, u64))>,
    k: nat,
    n: nat,
    object_type: McObjectType,
)
    requires
        with_fields(dd, format, fuel, st, at, members, n, object_type) is Some,
        k <= n,
    ensures
        with_fields(dd, format, fuel, st, at, members, k, object_type) is Some,
    decreases n,
{
    if k < n {
        lemma_with_fields_start(dd, format, fuel, st, at, members, k, (n - 1) as nat, object_type);
    }
}

/// No identifier is registered twice.
pub open spec fn typedefs_distinct(st: Seq<TypedefView>) -> bool {
    forall|i: int, j: int|
        0 <= i < j < st.len() ==> (#[trigger] st[i]).name != (#[trigger] st[j]).name
}

/// A value type that is a registered type is among the types.
pub open spec fn refers(v: McValueType<Seq<char>>, st: Seq<TypedefView>) -> bool {
    v matches McValueType::TypeDef(id) ==> has_typedef(st, id)
}

/// Every field that refers to a registered type refers to one of the types.
pub open spec fn references_ok(st: Seq<TypedefView>) -> bool {
    forall|i: int, k: int|
        0 <= i < st.len() && 0 <= k < st[i].fields.len() ==> refers(
            (#[trigger] st[i].fields[k]).dim_type.value_type,
            st,
        )
}

/// The fields of a struct: its first `n` members in their order, without those whose offset takes
/// more than 16 bits.
pub open spec fn fields_of(
    dd: DebugData,
    format: A2lFormat,
    members: Seq<(String, (TypeInfo, u64))>,
    n: nat,
    object_type: McObjectType,
) -> Seq<McTypedefField<Seq<char>>>
    decreases n,
{
    if n == 0 {
        Seq::empty()
    } else {
        let (name, (t, offset)) = members[n - 1];
        let before = fields_of(dd, format, members, (n - 1) as nat, object_type);
        if offset > 0xFFFF {
            before
        } else {
            before.push(
                McTypedefField {
                    name: name@,
                    dim_type: dim_type(dd, format, t),
                    object_type,
                    offset: offset as u16,
                },
            )
        }
    }
}

/// No two members have the same name.
pub open spec fn members_distinct(members: Seq<(String, (TypeInfo, u64))>) -> bool {
    forall|i: int, j: int|
        0 <= i < j < members.len() ==> (#[trigger] members[i]).0@ != (#[trigger] members[j]).0@
}

/// Where no two members of a struct have the same name, no two fields have.
pub proof fn law_fields_have_distinct_names(
    dd: DebugData,
    format: A2lFormat,
    members: Seq<(String, (TypeInfo, u64))>,
    n: nat,
    object_type: McObjectType,
)
    requires
        members_distinct(members),
        n <= members.len(),
    ensures
        ({
            let fields = fields_of(dd, format, members, n, object_type);
            forall|i: int, j: int|
                0 <= i < j < fields.len() ==> (#[trigger] fields[i]).name
                    != (#[trigger] fields[j]).name
        }),
        forall|i: int|
            0 <= i < fields_of(dd, format, members, n, object_type).len() ==> exists|k: int|
                0 <= k < n && (#[trigger] members[k]).0@ == (#[trigger] fields_of(
                    dd,
                    format,
                    members,
                    n,
                    object_type,
                )[i]).name,
    decreases n,
{
    if n > 0 {
        law_fields_have_distinct_names(dd, format, members, (n - 1) as nat, object_type);
        let before = fields_of(dd, format, members, (n - 1) as nat, object_type);
        let fields = fields_of(dd, format, members, n, object_type);
        assert forall|i: int| 0 <= i < fields.len() implies exists|k: int|
            0 <= k < n && (#[trigger] members[k]).0@ == (#[trigger] fields[i]).name by {
            if i < before.len() {
                assert(fields[i] == before[i]);
                let k = choose|k: int|
                    0 <= k < n - 1 && (#[trigger] members[k]).0@ == before[i].name;
                assert(members[k].0@ == fields[i].name);
            } else {
                assert(members[n - 1].0@ == fields[i].name);
            }
        }
        assert forall|i: int, j: int| 0 <= i < j < fields.len() implies (#[trigger] fields[i]).name
            != (#[trigger] fields[j]).name by {
            assert(fields[i] == before[i]);
            if j < before.len() {
                assert(fields[j] == before[j]);
            } else {
                let k = choose|k: int|
                    0 <= k < n - 1 && (#[trigger] members[k]).0@ == before[i].name;
                assert(members[k].0@ != members[n - 1].0@);
            }
        }
    }
}

/// What every registration keeps: identifiers stay distinct, and no field refers to a type that is
/// not there. The value type of the registered type is there as well.
proof fn lemma_registration_consistent(
    dd: DebugData,
    format: A2lFormat,
    fuel: nat,
    st: Seq<TypedefView>,
    t: TypeInfo,
    object_type: McObjectType,
)
    requires
        registration(dd, format, fuel, st, t, object_type) is Some,
        typedefs_distinct(st),
        references_ok(st),
    ensures
        ({
            let r = registration(dd, format, fuel, st, t, object_type)->0;
            &&& typedefs_distinct(r)
            &&& references_ok(r)
            &&& refers(value_type(dd, format, t), r)
        }),
    decreases fuel, 1nat,
{
    let u = resolved(dd.types@, t);
    match (u.datatype, dd.a2l_name(u)) {
        (DbgDataType::Struct { size, members, .. }, Some(name)) => {
            let id = format.identifier(name);
            if !has_typedef(st, id) {
                let at = st.len() as int;
                let f = (fuel - 1) as nat;
                let n = members@.len();
                let st1 = st.push(TypedefView { name: id, size, fields: Seq::empty() });
                assert forall|s: Seq<char>| has_typedef(st, s) implies has_typedef(st1, s) by {
                    let i = choose|i: int| 0 <= i < st.len() && (#[trigger] st[i]).name == s;
                    assert(st1[i].name == s);
                }
                assert forall|i: int, k: int|
                    0 <= i < st1.len() && 0 <= k < st1[i].fields.len() implies refers(
                    (#[trigger] st1[i].fields[k]).dim_type.value_type,
                    st1,
                ) by {
                    assert(i < st.len());
                    assert(st1[i] == st[i]);
                    assert(refers(st[i].fields[k].dim_type.value_type, st));
                }
                lemma_with_fields_consistent(dd, format, f, st1, at, members@, n, object_type);
                lemma_with_fields_keeps(dd, format, f, st1, at, members@, n, object_type);
                let r = with_fields(dd, format, f, st1, at, members@, n, object_type)->0;
                assert(r[at].name == id);
            }
        },
        _ => {},
    }
}

proof fn lemma_with_fields_consistent(
    dd: DebugData,
    format: A2lFormat,
    fuel: nat,
    st: Seq<TypedefView>,
    at: int,
    members: Seq<(String, (TypeInfo, u64))>,
    n: nat,
    object_type: McObjectType,
)
    requires
        with_fields(dd, format, fuel, st, at, members, n, object_type) is Some,
        0 <= at < st.len(),
        typedefs_distinct(st),
        references_ok(st),
    ensures
        ({
            let r = with_fields(dd, format, fuel, st, at, members, n, object_type)->0;
            &&& typedefs_distinct(r)
            &&& references_ok(r)
            &&& r[at].fields == st[at].fields + fields_of(dd, format, members, n, object_type)
        }),
    decreases fuel, n + 2,
{
    if n == 0 {
        assert(st[at].fields =~= st[at].fields + fields_of(dd, format, members, n, object_type));
    } else {
        let k = (n - 1) as nat;
        lemma_with_fields_consistent(dd, format, fuel, st, at, members, k, object_type);
        lemma_with_fields_keeps(dd, format, fuel, st, at, members, k, object_type);
        let st1 = with_fields(dd, format, fuel, st, at, members, k, object_type)->0;
        let (name, (t, offset)) = members[n - 1];
        if offset <= 0xFFFF {
            let e = element_type(t);
            lemma_registration_consistent(dd, format, fuel, st1, e, object_type);
            lemma_registration_keeps(dd, format, fuel, st1, e, object_type);
            let st2 = registration(dd, format, fuel, st1, e, object_type)->0;
            let field = McTypedefField {
                name: name@,
                dim_type: dim_type(dd, format, t),
                object_type,
                offset: offset as u16,
            };
            let r = with_field(st2, at, field);
            assert(st2.take(st1.len() as int)[at] == st1[at]);
            assert forall|s: Seq<char>| has_typedef(st2, s) implies has_typedef(r, s) by {
                let i = choose|i: int| 0 <= i < st2.len() && (#[trigger] st2[i]).name == s;
                assert(r[i].name == s);
            }
            assert forall|i: int, m: int|
                0 <= i < r.len() && 0 <= m < r[i].fields.len() implies refers(
                (#[trigger] r[i].fields[m]).dim_type.value_type,
                r,
            ) by {
                if i == at && m == st2[at].fields.len() {
                    assert(r[i].fields[m] == field);
                } else {
                    assert(r[i].fields[m] == st2[i].fields[m]);
                    assert(refers(st2[i].fields[m].dim_type.value_type, st2));
                }
            }
            assert forall|i: int, j: int| 0 <= i < j < r.len() implies (#[trigger] r[i]).name != (
            #[trigger] r[j]).name by {
                assert(r[i].name == st2[i].name && r[j].name == st2[j].name);
            }
            assert(r[at].fields =~= st[at].fields + fields_of(
                dd,
                format,
                members,
                n,
                object_type,
            ));
        }
    }
}

/// Registering a type leaves every registered type as it is, keeps identifiers distinct and leaves
/// no reference to a type that is not registered, in a field or in the value type itself.
pub proof fn law_types_stay_consistent(
    dd: DebugData,
    format: A2lFormat,
    st: Seq<TypedefView>,
    t: TypeInfo,
    object_type: McObjectType,
)
    requires
        can_register(dd, t),
        typedefs_distinct(st),
        references_ok(st),
    ensures
        st.is_prefix_of(typedefs_after(dd, format, st, t, object_type)),
        typedefs_distinct(typedefs_after(dd, format, st, t, object_type)),
        references_ok(typedefs_after(dd, format, st, t, object_type)),
        refers(value_type(dd, format, t), typedefs_after(dd, format, st, t, object_type)),
{
    let fuel = lemma_registration_total(dd, format, st, t, object_type);
    lemma_typedefs_after(dd, format, fuel, st, t, object_type);
    lemma_registration_consistent(dd, format, fuel, st, t, object_type);
    lemma_registration_keeps(dd, format, fuel, st, t, object_type);
}

/// Registering a type a second time adds nothing.
pub proof fn law_registering_again_adds_nothing(
    dd: DebugData,
    format: A2lFormat,
    st: Seq<TypedefView>,
    t: TypeInfo,
    object_type: McObjectType,
)
    requires
        can_register(dd, t),
    ensures
        ({
            let once = typedefs_after(dd, format, st, t, object_type);
            typedefs_after(dd, format, once, t, object_type) == once
        }),
{
    let fuel = lemma_registration_total(dd, format, st, t, object_type);
    lemma_typedefs_after(dd, format, fuel, st, t, object_type);
    let once = typedefs_after(dd, format, st, t, object_type);
    let u = resolved(dd.types@, t);
    match (u.datatype, dd.a2l_name(u)) {
        (DbgDataType::Struct { size, members, .. }, Some(name)) => {
            let id = format.identifier(name);
            if !has_typedef(st, id) {
                let st1 = st.push(TypedefView { name: id, size, fields: Seq::empty() });
                lemma_with_fields_keeps(
                    dd,
                    format,
                    (fuel - 1) as nat,
                    st1,
                    st.len() as int,
                    members@,
                    members@.len(),
                    object_type,
                );
                assert(once[st.len() as int].name == id);
            }
            assert(has_typedef(once, id));
        },
        _ => {},
    }
    assert(registration(dd, format, 0, once, t, object_type) == Some(once));
    lemma_typedefs_after(dd, format, 0, once, t, object_type);
}

/// A struct with a name that is new comes right behind the types that were there, with its size
/// and all its members whose offset fits, in their order.
pub proof fn law_struct_is_registered_with_its_members(
    dd: DebugData,
    format: A2lFormat,
    st: Seq<TypedefView>,
    t: TypeInfo,
    object_type: McObjectType,
)
    requires
        can_register(dd, t),
        typedefs_distinct(st),
        references_ok(st),
        resolved(dd.types@, t).datatype is Struct,
        dd.a2l_name(resolved(dd.types@, t)) is Some,
        !has_typedef(st, format.identifier(dd.a2l_name(resolved(dd.types@, t))->0)),
    ensures
        ({
            let u = resolved(dd.types@, t);
            let after = typedefs_after(dd, format, st, t, object_type);
            let id = format.identifier(dd.a2l_name(u)->0);
            &&& st.len() < after.len()
            &&& value_type(dd, format, t) == McValueType::TypeDef(id)
            &&& u.datatype matches DbgDataType::Struct { size, members, .. }
                && after[st.len() as int] == (TypedefView {
                name: id,
                size,
                fields: fields_of(dd, format, members@, members@.len(), object_type),
            })
        }),
{
    let fuel = lemma_registration_total(dd, format, st, t, object_type);
    lemma_typedefs_after(dd, format, fuel, st, t, object_type);
    lemma_registration_consistent(dd, format, fuel, st, t, object_type);
    let u = resolved(dd.types@, t);
    let after = typedefs_after(dd, format, st, t, object_type);
    let at = st.len() as int;
    match (u.datatype, dd.a2l_name(u)) {
        (DbgDataType::Struct { size, members, .. }, Some(name)) => {
            let id = format.identifier(name);
            let f = (fuel - 1) as nat;
            let n = members@.len();
            let st1 = st.push(TypedefView { name: id, size, fields: Seq::empty() });
            assert forall|i: int, k: int|
                0 <= i < st1.len() && 0 <= k < st1[i].fields.len() implies refers(
                (#[trigger] st1[i].fields[k]).dim_type.value_type,
                st1,
            ) by {
                assert(i < st.len());
                assert(st1[i] == st[i]);
                let v = st[i].fields[k].dim_type.value_type;
                assert(refers(v, st));
                if v is TypeDef {
                    let s = v->TypeDef_0;
                    let j = choose|j: int| 0 <= j < st.len() && (#[trigger] st[j]).name == s;
                    assert(st1[j].name == s);
                }
            }
            lemma_with_fields_consistent(dd, format, f, st1, at, members@, n, object_type);
            lemma_with_fields_keeps(dd, format, f, st1, at, members@, n, object_type);
            assert(after[at].fields =~= fields_of(dd, format, members@, n, object_type));
        },
        _ => {},
    }
}

impl ElfReader {
    /// The type at the end of the chain of type references that begins with a type.
    fn resolve_type<'a>(&'a self, type_info: &'a TypeInfo) -> (r: &'a TypeInfo)
        requires
            chain_ends(self.debug_data.types@, *type_info),
        ensures
            *r == resolved(self.debug_data.types@, *type_info),
    {
        broadcast use vstd::std_specs::hash::group_hash_axioms;

        let ghost types = self.debug_data.types@;
        let ghost start = choose|fuel: nat| (#[trigger] target(types, fuel, *type_info)) is Some;
        let ghost mut fuel = start;
        let mut t: &TypeInfo = type_info;
        loop
            invariant
                types == self.debug_data.types@,
                target(types, start, *type_info) is Some,
                target(types, fuel, *t) == target(types, start, *type_info),
            decreases fuel,
        {
            match &t.datatype {
                DbgDataType::TypeRef(typeref, _) => match self.debug_data.types.get(typeref) {
                    Some(next) => {
                        proof {
                            fuel = (fuel - 1) as nat;
                        }
                        t = next;
                    },
                    None => {
                        proof {
                            lemma_resolved(types, start, *type_info);
                        }
                        return t;
                    },
                },
                _ => {
                    proof {
                        lemma_resolved(types, start, *type_info);
                    }
                    return t;
                },
            }
        }
    }

    /// The value type of a type: of a basic type, an enumeration or a pointer the number type, of a
    /// struct or class the reference to its registered type. A struct that is not registered yet is
    /// registered with all its members.
    fn get_value_type(
        &self,
        typedefs: &mut TypedefList,
        format: &A2lFormat,
        type_info: &TypeInfo,
        object_type: McObjectType,
        Ghost(fuel): Ghost<nat>,
    ) -> (v: McValueType<String>)
        requires
            can_register(self.debug_data, *type_info),
            registration(
                self.debug_data,
                *format,
                fuel,
                old(typedefs)@,
                *type_info,
                object_type,
            ) is Some,
        ensures
            v@ == value_type(self.debug_data, *format, *type_info),
            Some(final(typedefs)@) == registration(
                self.debug_data,
                *format,
                fuel,
                old(typedefs)@,
                *type_info,
                object_type,
            ),
        decreases fuel, 1nat,
    {
        proof {
            lemma_can_register_resolved(self.debug_data, *type_info);
            let u = resolved(self.debug_data.types@, *type_info);
            if u.name is Some {
                lemma_can_register_members(self.debug_data, u);
            }
        }
        let t = self.resolve_type(type_info);
        match &t.datatype {
            DbgDataType::Uint8 => McValueType::Ubyte,
            DbgDataType::Uint16 => McValueType::Uword,
            DbgDataType::Uint32 => McValueType::Ulong,
            DbgDataType::Uint64 => McValueType::Ulonglong,
            DbgDataType::Sint8 => McValueType::Sbyte,
            DbgDataType::Sint16 => McValueType::Sword,
            DbgDataType::Sint32 => McValueType::Slong,
            DbgDataType::Sint64 => McValueType::Slonglong,
            DbgDataType::Float => McValueType::Float32Ieee,
            DbgDataType::Double => McValueType::Float64Ieee,
            DbgDataType::Struct { size, members, .. } => {
                match self.debug_data.get_a2l_type_name(t) {
                    Some(name) => {
                        let type_id = format.make_identifier(name);
                        self.register_struct(
                            typedefs,
                            format,
                            object_type,
                            type_id,
                            *size,
                            members,
                            Ghost(fuel),
                        );
                        McValueType::TypeDef(type_id.to_owned())
                    },
                    None => McValueType::Ubyte,
                }
            },
            DbgDataType::Enum { size, signed, .. } => McValueType::Integer {
                size: *size,
                signed: *signed,
            },
            DbgDataType::Pointer(size, _) => if *size == 4 {
                McValueType::Ulong
            } else {
                McValueType::Ulonglong
            },
            _ => McValueType::Ubyte,
        }
    }

    /// The value type of a type with the dimensions of an array.
    pub(crate) fn get_dim_type(
        &self,
        typedefs: &mut TypedefList,
        format: &A2lFormat,
        type_info: &TypeInfo,
        object_type: McObjectType,
        Ghost(fuel): Ghost<nat>,
    ) -> (d: McDimType<String>)
        requires
            can_register_dims(self.debug_data, *type_info),
            registration(
                self.debug_data,
                *format,
                fuel,
                old(typedefs)@,
                element_type(*type_info),
                object_type,
            ) is Some,
        ensures
            d@ == dim_type(self.debug_data, *format, *type_info),
            Some(final(typedefs)@) == registration(
                self.debug_data,
                *format,
                fuel,
                old(typedefs)@,
                element_type(*type_info),
                object_type,
            ),
        decreases fuel, 2nat,
    {
        match &type_info.datatype {
            DbgDataType::Array { arraytype, dim, .. } => {
                let elem_type = self.get_value_type(
                    typedefs,
                    format,
                    arraytype,
                    object_type,
                    Ghost(fuel),
                );
                if dim.len() > 2 {
                    McDimType { value_type: McValueType::Ubyte, x_dim: 1, y_dim: 1 }
                } else if dim.len() == 1 {
                    McDimType {
                        value_type: elem_type,
                        x_dim: #[verifier::truncate] (dim[0] as u16),
                        y_dim: 1,
                    }
                } else {
                    McDimType {
                        value_type: elem_type,
                        x_dim: #[verifier::truncate] (dim[0] as u16),
                        y_dim: #[verifier::truncate] (dim[1] as u16),
                    }
                }
            },
            _ => McDimType {
                value_type: self.get_value_type(
                    typedefs,
                    format,
                    type_info,
                    object_type,
                    Ghost(fuel),
                ),
                x_dim: 1,
                y_dim: 1,
            },
        }
    }

    /// Registers a struct or class with its members. One whose identifier is registered already
    /// (the same type used by several variables or fields) stays as it is.
    fn register_struct(
        &self,
        typedefs: &mut TypedefList,
        format: &A2lFormat,
        object_type: McObjectType,
        type_id: &str,
        size: u64,
        members: &Vec<(String, (TypeInfo, u64))>,
        Ghost(fuel): Ghost<nat>,
    )
        requires
            can_register_members(self.debug_data, members@),
            struct_registration(
                self.debug_data,
                *format,
                fuel,
                old(typedefs)@,
                type_id@,
                size,
                members@,
                object_type,
            ) is Some,
        ensures
            Some(final(typedefs)@) == struct_registration(
                self.debug_data,
                *format,
                fuel,
                old(typedefs)@,
                type_id@,
                size,
                members@,
                object_type,
            ),
        decreases fuel, 0nat,
    {
        let at: usize = match typedefs.add_typedef(type_id, size) {
            Ok(i) => i,
            Err(_) => {
                return;
            },
        };
        let ghost f = (fuel - 1) as nat;
        let ghost start = typedefs@;
        let n: usize = members.len();
        let mut i: usize = 0;
        while i < n
            invariant
                i <= n,
                n == members@.len(),
                fuel > 0,
                f == fuel - 1,
                at < start.len(),
                can_register_members(self.debug_data, members@),
                with_fields(
                    self.debug_data,
                    *format,
                    f,
                    start,
                    at as int,
                    members@,
                    n as nat,
                    object_type,
                ) is Some,
                Some(typedefs@) == with_fields(
                    self.debug_data,
                    *format,
                    f,
                    start,
                    at as int,
                    members@,
                    i as nat,
                    object_type,
                ),
            decreases n - i,
        {
            proof {
                lemma_with_fields_start(
                    self.debug_data,
                    *format,
                    f,
                    start,
                    at as int,
                    members@,
                    (i + 1) as nat,
                    n as nat,
                    object_type,
                );
                lemma_with_fields_keeps(
                    self.debug_data,
                    *format,
                    f,
                    start,
                    at as int,
                    members@,
                    i as nat,
                    object_type,
                );
            }
            let (name, (type_info, offset)) = &members[i];
            if *offset <= 0xFFFF {
                let ghost before = typedefs@;
                let field_dim_type = self.get_dim_type(
                    typedefs,
                    format,
                    type_info,
                    object_type,
                    Ghost(f),
                );
                proof {
                    lemma_registration_keeps(
                        self.debug_data,
                        *format,
                        f,
                        before,
                        element_type(*type_info),
                        object_type,
                    );
                }
                typedefs.add_typedef_field(
                    at,
                    McTypedefField {
                        name: name.clone(),
                        dim_type: field_dim_type,
                        object_type,
                        offset: *offset as u16,
                    },
                );
            }
            i = i + 1;
        }
    }
}

/// The number of links of the chain of type references that begins with a type is `m`.
spec fn has_links(types: Map<usize, TypeInfo>, t: TypeInfo, m: nat) -> bool {
    &&& target(types, m, t) is Some
    &&& m > 0 ==> target(types, (m - 1) as nat, t) is None
}

/// A chain that ends has a number of links, no more than any fuel it ends with.
proof fn lemma_links(types: Map<usize, TypeInfo>, t: TypeInfo, f: nat) -> (m: nat)
    requires
        target(types, f, t) is Some,
    ensures
        has_links(types, t, m),
        m <= f,
    decreases f,
{
    if f == 0 || target(types, (f - 1) as nat, t) is None {
        f
    } else {
        lemma_links(types, t, (f - 1) as nat)
    }
}

/// A chain has only one number of links.
proof fn lemma_links_unique(types: Map<usize, TypeInfo>, t: TypeInfo, m: nat, n: nat)
    requires
        has_links(types, t, m),
        has_links(types, t, n),
    ensures
        m == n,
{
    if m < n {
        lemma_target(types, m, (n - 1) as nat, t);
    }
    if n < m {
        lemma_target(types, n, (m - 1) as nat, t);
    }
}

/// Behind the beginning of a chain of `m` links there is a known type with each lower number of
/// links.
proof fn lemma_links_below(types: Map<usize, TypeInfo>, t: TypeInfo, m: nat, k: nat) -> (r: usize)
    requires
        has_links(types, t, m),
        k < m,
    ensures
        types.contains_key(r),
        has_links(types, types[r], k),
    decreases m,
{
    match t.datatype {
        DbgDataType::TypeRef(r, _) => {
            let n = (m - 1) as nat;
            assert(has_links(types, types[r], n));
            if k == n {
                r
            } else {
                lemma_links_below(types, types[r], n, k)
            }
        },
        _ => 0,
    }
}

/// One of the types has `k` links.
spec fn one_has_links(types: Map<usize, TypeInfo>, refs: Set<usize>, k: nat) -> bool {
    exists|r: usize| #[trigger]
        refs.contains(r) && types.contains_key(r) && has_links(types, types[r], k)
}

/// If there is a type with each number of links below `m`, there are at least `m` types.
proof fn lemma_count_links(types: Map<usize, TypeInfo>, refs: Set<usize>, m: nat)
    requires
        refs.finite(),
        forall|k: nat| k < m ==> #[trigger] one_has_links(types, refs, k),
    ensures
        m <= refs.len(),
    decreases m,
{
    if m > 0 {
        let n = (m - 1) as nat;
        assert(one_has_links(types, refs, n));
        let r0 = choose|r: usize| #[trigger]
            refs.contains(r) && types.contains_key(r) && has_links(types, types[r], n);
        let rest = refs.remove(r0);
        assert forall|k: nat| k < n implies #[trigger] one_has_links(types, rest, k) by {
            assert(one_has_links(types, refs, k));
            let r = choose|r: usize| #[trigger]
                refs.contains(r) && types.contains_key(r) && has_links(types, types[r], k);
            if r == r0 {
                lemma_links_unique(types, types[r], k, n);
            }
            assert(rest.contains(r));
        }
        lemma_count_links(types, rest, n);
    }
}

/// A chain that ends has no more links than there are known types.
proof fn lemma_chain_is_short(types: Map<usize, TypeInfo>, t: TypeInfo)
    requires
        types.dom().finite(),
        chain_ends(types, t),
    ensures
        target(types, types.dom().len(), t) is Some,
{
    let f = choose|f: nat| (#[trigger] target(types, f, t)) is Some;
    let m = lemma_links(types, t, f);
    assert forall|k: nat| k < m implies #[trigger] one_has_links(types, types.dom(), k) by {
        let r = lemma_links_below(types, t, m, k);
        assert(types.dom().contains(r));
    }
    lemma_count_links(types, types.dom(), m);
    lemma_target(types, m, types.dom().len(), t);
}

/// A type can be registered as far as one link more leads.
spec fn sound_after(dd: DebugData, t: TypeInfo, n: nat) -> bool {
    sound_to(dd, t, n + 1)
}

/// The types of references can be registered as far as `n` links lead.
spec fn refs_sound(dd: DebugData, refs: Seq<usize>, n: nat) -> bool {
    forall|k: int| 0 <= k < refs.len() ==> sound_to(dd, dd.types@[#[trigger] refs[k]], n)
}

/// The types of a set of references can be registered as far as `n` links lead.
spec fn set_sound(dd: DebugData, refs: Set<usize>, n: nat) -> bool {
    forall|r: usize| #[trigger] refs.contains(r) ==> sound_to(dd, dd.types@[r], n)
}

/// The types of references can be registered.
pub open spec fn can_register_refs(dd: DebugData, refs: Seq<usize>) -> bool {
    forall|k: int| 0 <= k < refs.len() ==> can_register(dd, dd.types@[#[trigger] refs[k]])
}

/// A type can be registered a link further exactly if the types it refers to can be as far.
spec fn refers_to(dd: DebugData, t: TypeInfo, refs: Seq<usize>) -> bool {
    forall|n: nat| #[trigger] sound_after(dd, t, n) <==> refs_sound(dd, refs, n)
}

proof fn lemma_refs_sound_both(dd: DebugData, a: Seq<usize>, b: Seq<usize>, n: nat)
    ensures
        refs_sound(dd, a + b, n) <==> refs_sound(dd, a, n) && refs_sound(dd, b, n),
{
    let c = a + b;
    if refs_sound(dd, c, n) {
        assert forall|k: int| 0 <= k < a.len() implies sound_to(
            dd,
            dd.types@[#[trigger] a[k]],
            n,
        ) by {
            assert(c[k] == a[k]);
        }
        assert forall|k: int| 0 <= k < b.len() implies sound_to(
            dd,
            dd.types@[#[trigger] b[k]],
            n,
        ) by {
            assert(c[a.len() + k] == b[k]);
        }
    }
    if refs_sound(dd, a, n) && refs_sound(dd, b, n) {
        assert forall|k: int| 0 <= k < c.len() implies sound_to(
            dd,
            dd.types@[#[trigger] c[k]],
            n,
        ) by {
            if k < a.len() {
                assert(c[k] == a[k]);
            } else {
                assert(c[k] == b[k - a.len()]);
            }
        }
    }
}

/// A type that can be registered without looking at the types it refers to can be registered if
/// and only if those can.
proof fn lemma_refers_to(dd: DebugData, t: TypeInfo, refs: Seq<usize>)
    requires
        sound_to(dd, t, 0),
        refers_to(dd, t, refs),
    ensures
        can_register(dd, t) <==> can_register_refs(dd, refs),
{
    if can_register(dd, t) {
        assert forall|k: int| 0 <= k < refs.len() implies can_register(
            dd,
            dd.types@[#[trigger] refs[k]],
        ) by {
            assert forall|n: nat| #[trigger] sound_to(dd, dd.types@[refs[k]], n) by {
                assert(sound_after(dd, t, n));
                assert(refs_sound(dd, refs, n));
            }
        }
    }
    if can_register_refs(dd, refs) {
        assert forall|n: nat| #[trigger] sound_to(dd, t, n) by {
            if n > 0 {
                assert forall|k: int| 0 <= k < refs.len() implies sound_to(
                    dd,
                    dd.types@[#[trigger] refs[k]],
                    (n - 1) as nat,
                ) by {
                    assert(can_register(dd, dd.types@[refs[k]]));
                }
                assert(sound_after(dd, t, (n - 1) as nat));
            }
        }
    }
}

/// A member of a struct can become a field as far as `n` links lead.
spec fn member_sound(dd: DebugData, m: TypeInfo, n: nat) -> bool {
    &&& m.datatype matches DbgDataType::Array { dim, .. } ==> dim@.len() > 0
    &&& sound_to(dd, element_type(m), n)
}

/// The first `i` members of a struct can become fields as far as one link more leads.
spec fn members_sound_after(
    dd: DebugData,
    members: Seq<(String, (TypeInfo, u64))>,
    i: int,
    n: nat,
) -> bool {
    forall|k: int|
        0 <= k < i && k < members.len() && (#[trigger] members[k]).1.1 <= 0xFFFF ==> sound_after(
            dd,
            element_type(members[k].1.0),
            n,
        )
}

proof fn lemma_members_sound_after(
    dd: DebugData,
    members: Seq<(String, (TypeInfo, u64))>,
    i: int,
    n: nat,
)
    requires
        0 <= i < members.len(),
    ensures
        members_sound_after(dd, members, i + 1, n) <==> members_sound_after(dd, members, i, n) && (
        members[i].1.1 <= 0xFFFF ==> sound_after(dd, element_type(members[i].1.0), n)),
{
    if members_sound_after(dd, members, i + 1, n) {
        assert(members[i].1.1 <= 0xFFFF ==> sound_after(dd, element_type(members[i].1.0), n));
    }
}

/// A struct with a name can be registered as far as its members can.
proof fn lemma_struct_sound(dd: DebugData, t: TypeInfo, n: nat)
    requires
        t.datatype is Struct,
        t.name is Some,
    ensures
        t.datatype matches DbgDataType::Struct { members, .. } ==> (sound_to(dd, t, n) <==> forall|
            k: int,
        |
            0 <= k < members@.len() && (#[trigger] members@[k]).1.1 <= 0xFFFF ==> member_sound(
                dd,
                members@[k].1.0,
                n,
            )),
{
    if let DbgDataType::Struct { members, .. } = t.datatype {
        if sound_to(dd, t, n) {
            assert forall|k: int|
                0 <= k < members@.len() && (#[trigger] members@[k]).1.1 <= 0xFFFF implies member_sound(
                dd,
                members@[k].1.0,
                n,
            ) by {}
        }
    }
}

/// The types of a set can be registered a link further if those of the set and of a list can be as
/// far.
spec fn closed_by(dd: DebugData, seen: Set<usize>, todo: Seq<usize>) -> bool {
    forall|n: nat| set_sound(dd, seen, n) && #[trigger] refs_sound(dd, todo, n) ==> set_sound(
        dd,
        seen,
        n + 1,
    )
}

/// A set of types that refers to no others can be registered if its types can be, each for itself.
proof fn lemma_closed(dd: DebugData, seen: Set<usize>, todo: Seq<usize>, n: nat)
    requires
        todo.len() == 0,
        set_sound(dd, seen, 0),
        closed_by(dd, seen, todo),
    ensures
        set_sound(dd, seen, n),
    decreases n,
{
    if n > 0 {
        let m = (n - 1) as nat;
        lemma_closed(dd, seen, todo, m);
        assert(refs_sound(dd, todo, m));
        assert(set_sound(dd, seen, m + 1));
    }
}

/// A reference that is in the set may be taken off the list.
proof fn lemma_todo(
    dd: DebugData,
    roots: Seq<usize>,
    seen: Set<usize>,
    rest: Seq<usize>,
    r: usize,
)
    requires
        closed_by(dd, seen, rest.push(r)),
        forall|k: int|
            0 <= k < roots.len() ==> seen.contains(#[trigger] roots[k]) || rest.push(r).contains(
                roots[k],
            ),
        can_register_refs(dd, roots) ==> can_register_refs(dd, rest.push(r)),
    ensures
        seen.contains(r) ==> closed_by(dd, seen, rest),
        forall|k: int|
            0 <= k < roots.len() ==> seen.contains(#[trigger] roots[k]) || rest.contains(roots[k])
                || roots[k] == r,
        can_register_refs(dd, roots) ==> can_register_refs(dd, rest) && can_register(
            dd,
            dd.types@[r],
        ),
{
    let all = rest.push(r);
    if seen.contains(r) {
        assert forall|n: nat| set_sound(dd, seen, n) && #[trigger] refs_sound(
            dd,
            rest,
            n,
        ) implies set_sound(dd, seen, n + 1) by {
            assert forall|k: int| 0 <= k < all.len() implies sound_to(
                dd,
                dd.types@[#[trigger] all[k]],
                n,
            ) by {
                if k < rest.len() {
                    assert(all[k] == rest[k]);
                }
            }
            assert(refs_sound(dd, all, n));
        }
    }
    assert forall|k: int| 0 <= k < roots.len() implies seen.contains(#[trigger] roots[k])
        || rest.contains(roots[k]) || roots[k] == r by {
        if !seen.contains(roots[k]) {
            let m = choose|m: int| 0 <= m < all.len() && all[m] == roots[k];
            if m < rest.len() {
                assert(rest[m] == roots[k]);
            }
        }
    }
    if can_register_refs(dd, roots) {
        assert(all[rest.len() as int] == r);
        assert forall|k: int| 0 <= k < rest.len() implies can_register(
            dd,
            dd.types@[#[trigger] rest[k]],
        ) by {
            assert(all[k] == rest[k]);
        }
    }
}

/// A reference may be moved from the list to the set, if the references of its type come to the
/// list.
proof fn lemma_seen(
    dd: DebugData,
    roots: Seq<usize>,
    seen: Set<usize>,
    rest: Seq<usize>,
    r: usize,
    added: Seq<usize>,
)
    requires
        set_sound(dd, seen, 0),
        sound_to(dd, dd.types@[r], 0),
        refers_to(dd, dd.types@[r], added),
        closed_by(dd, seen, rest.push(r)),
        forall|k: int|
            0 <= k < roots.len() ==> seen.contains(#[trigger] roots[k]) || rest.contains(roots[k])
                || roots[k] == r,
        can_register_refs(dd, roots) ==> can_register_refs(dd, rest) && can_register(
            dd,
            dd.types@[r],
        ),
    ensures
        set_sound(dd, seen.insert(r), 0),
        closed_by(dd, seen.insert(r), rest + added),
        forall|k: int|
            0 <= k < roots.len() ==> seen.insert(r).contains(#[trigger] roots[k]) || (rest
                + added).contains(roots[k]),
        can_register_refs(dd, roots) ==> can_register_refs(dd, rest + added),
{
    let all = rest.push(r);
    let todo = rest + added;
    let after = seen.insert(r);
    assert forall|n: nat| set_sound(dd, after, n) && #[trigger] refs_sound(
        dd,
        todo,
        n,
    ) implies set_sound(dd, after, n + 1) by {
        lemma_refs_sound_both(dd, rest, added, n);
        assert(after.contains(r));
        assert forall|k: int| 0 <= k < all.len() implies sound_to(
            dd,
            dd.types@[#[trigger] all[k]],
            n,
        ) by {
            if k < rest.len() {
                assert(all[k] == rest[k]);
            }
        }
        assert(refs_sound(dd, all, n));
        assert forall|q: usize| #[trigger] seen.contains(q) implies sound_to(
            dd,
            dd.types@[q],
            n,
        ) by {
            assert(after.contains(q));
        }
        assert(set_sound(dd, seen, n));
        assert(set_sound(dd, seen, n + 1));
        assert(sound_after(dd, dd.types@[r], n));
    }
    assert forall|k: int| 0 <= k < roots.len() implies after.contains(#[trigger] roots[k])
        || todo.contains(roots[k]) by {
        if rest.contains(roots[k]) {
            let m = choose|m: int| 0 <= m < rest.len() && rest[m] == roots[k];
            assert(todo[m] == roots[k]);
        }
    }
    if can_register_refs(dd, roots) {
        lemma_refers_to(dd, dd.types@[r], added);
        assert forall|k: int| 0 <= k < todo.len() implies can_register(
            dd,
            dd.types@[#[trigger] todo[k]],
        ) by {
            if k < rest.len() {
                assert(todo[k] == rest[k]);
            } else {
                assert(todo[k] == added[k - rest.len()]);
            }
        }
    }
}

impl DebugData {
    /// Whether the chain of type references that begins with a type ends.
    fn check_chain(&self, type_info: &TypeInfo) -> (r: bool)
        ensures
            r == chain_ends(self.types@, *type_info),
    {
        broadcast use vstd::std_specs::hash::group_hash_axioms;

        let ghost types = self.types@;
        let mut left: usize = self.types.len();
        let ghost all = left as nat;
        let mut t: &TypeInfo = type_info;
        loop
            invariant
                types == self.types@,
                all == types.dom().len(),
                target(types, left as nat, *t) == target(types, all, *type_info),
            decreases left,
        {
            match &t.datatype {
                DbgDataType::TypeRef(typeref, _) => match self.types.get(typeref) {
                    Some(next) => {
                        if left == 0 {
                            proof {
                                if chain_ends(types, *type_info) {
                                    lemma_chain_is_short(types, *type_info);
                                }
                            }
                            return false;
                        }
                        left = left - 1;
                        t = next;
                    },
                    None => {
                        assert(target(types, all, *type_info) is Some);
                        return true;
                    },
                },
                _ => {
                    assert(target(types, all, *type_info) is Some);
                    return true;
                },
            }
        }
    }

    /// Whether a type can be registered without looking at the types it refers to; the references to
    /// these are added to a list.
    fn walk_type(&self, t: &TypeInfo, todo: &mut Vec<usize>) -> (r: bool)
        requires
            forall|k: int|
                0 <= k < old(todo)@.len() ==> self.types@.contains_key(#[trigger] old(todo)@[k]),
        ensures
            r == sound_to(*self, *t, 0),
            old(todo)@.is_prefix_of(final(todo)@),
            forall|k: int|
                0 <= k < final(todo)@.len() ==> self.types@.contains_key(
                    #[trigger] final(todo)@[k],
                ),
            r ==> refers_to(*self, *t, final(todo)@.skip(old(todo)@.len() as int)),
        decreases t,
    {
        broadcast use vstd::std_specs::hash::group_hash_axioms;

        let ghost start = todo@;
        assert(start =~= start.take(start.len() as int));
        let ghost dd = *self;
        match &t.datatype {
            DbgDataType::Struct { members, .. } => {
                let n: usize = members.len();
                if t.name.is_some() {
                    assert(start.skip(start.len() as int) =~= Seq::<usize>::empty());
                    let mut i: usize = 0;
                    while i < n
                        invariant
                            i <= n,
                            n == members@.len(),
                            dd == *self,
                            t.datatype matches DbgDataType::Struct { members: m, .. } && m
                                == *members,
                            t.name is Some,
                            start == old(todo)@,
                            start.is_prefix_of(todo@),
                            forall|k: int|
                                0 <= k < todo@.len() ==> self.types@.contains_key(
                                    #[trigger] todo@[k],
                                ),
                            forall|k: int| #![trigger members@[k]]
                                0 <= k < i && members@[k].1.1 <= 0xFFFF ==> member_sound(
                                    dd,
                                    members@[k].1.0,
                                    0,
                                ),
                            forall|q: nat| #[trigger]
                                members_sound_after(dd, members@, i as int, q) <==> refs_sound(
                                    dd,
                                    todo@.skip(start.len() as int),
                                    q,
                                ),
                        decreases n - i,
                    {
                        let ghost before = todo@;
                        let ghost refs = before.skip(start.len() as int);
                        let (_, (m, offset)) = &members[i];
                        assert(members@[i as int].1.0 == *m && members@[i as int].1.1 == *offset);
                        if *offset <= 0xFFFF {
                            let ok = match &m.datatype {
                                DbgDataType::Array { dim, arraytype, .. } => dim.len() > 0
                                    && self.walk_type(arraytype, todo),
                                _ => self.walk_type(m, todo),
                            };
                            proof {
                                if m.datatype is Array && todo@ == before {
                                    assert(before =~= before.take(before.len() as int));
                                }
                                assert(before.is_prefix_of(todo@));
                                assert(start =~= todo@.take(start.len() as int));
                            }
                            if !ok {
                                proof {
                                    assert(!member_sound(dd, *m, 0));
                                    lemma_struct_sound(dd, *t, 0);
                                }
                                return false;
                            }
                            proof {
                                let added = todo@.skip(before.len() as int);
                                assert(todo@.skip(start.len() as int) =~= refs + added);
                                assert forall|q: nat| #[trigger]
                                    members_sound_after(dd, members@, i + 1, q) <==> refs_sound(
                                        dd,
                                        todo@.skip(start.len() as int),
                                        q,
                                    ) by {
                                    lemma_refs_sound_both(dd, refs, added, q);
                                    lemma_members_sound_after(dd, members@, i as int, q);
                                    assert(members_sound_after(dd, members@, i as int, q)
                                        <==> refs_sound(dd, refs, q));
                                    assert(sound_after(dd, element_type(*m), q) <==> refs_sound(
                                        dd,
                                        added,
                                        q,
                                    ));
                                }
                            }
                        } else {
                            assert forall|q: nat| #[trigger]
                                members_sound_after(dd, members@, i + 1, q) <==> refs_sound(
                                    dd,
                                    todo@.skip(start.len() as int),
                                    q,
                                ) by {
                                lemma_members_sound_after(dd, members@, i as int, q);
                                assert(members_sound_after(dd, members@, i as int, q)
                                    <==> refs_sound(dd, refs, q));
                            }
                        }
                        i = i + 1;
                    }
                    proof {
                        let refs = todo@.skip(start.len() as int);
                        assert forall|q: nat| #[trigger] sound_after(dd, *t, q) <==> refs_sound(
                            dd,
                            refs,
                            q,
                        ) by {
                            assert(members_sound_after(dd, members@, n as int, q) <==> refs_sound(
                                dd,
                                refs,
                                q,
                            ));
                            lemma_struct_sound(dd, *t, (q + 1) as nat);
                        }
                        lemma_struct_sound(dd, *t, 0);
                    }
                    return true;
                }
            },
            DbgDataType::TypeRef(r, _) => {
                if !self.check_chain(t) {
                    return false;
                }
                if self.types.contains_key(r) {
                    todo.push(*r);
                    proof {
                        let refs = todo@.skip(start.len() as int);
                        assert(refs =~= seq![*r]);
                        assert(start =~= todo@.take(start.len() as int));
                        assert forall|q: nat| #[trigger] sound_after(dd, *t, q) <==> refs_sound(
                            dd,
                            refs,
                            q,
                        ) by {
                            assert(refs[0] == *r);
                        }
                    }
                    return true;
                }
            },
            _ => {},
        }
        true
    }

    /// Whether a type can be registered with its dimensions, as far as it does not depend on the
    /// types it refers to; the references to these are added to a list.
    pub(crate) fn walk_dims(&self, t: &TypeInfo, todo: &mut Vec<usize>) -> (r: bool)
        requires
            forall|k: int|
                0 <= k < old(todo)@.len() ==> self.types@.contains_key(#[trigger] old(todo)@[k]),
        ensures
            forall|k: int|
                0 <= k < final(todo)@.len() ==> self.types@.contains_key(
                    #[trigger] final(todo)@[k],
                ),
            !r ==> !can_register_dims(*self, *t),
            r ==> (can_register_refs(*self, final(todo)@) <==> can_register_refs(
                *self,
                old(todo)@,
            ) && can_register_dims(*self, *t)),
    {
        let ghost start = todo@;
        let ok = match &t.datatype {
            DbgDataType::Array { dim, arraytype, .. } => dim.len() > 0 && self.walk_type(
                arraytype,
                todo,
            ),
            _ => self.walk_type(t, todo),
        };
        proof {
            let e = element_type(*t);
            if ok {
                let refs = todo@.skip(start.len() as int);
                lemma_refers_to(*self, e, refs);
                assert(start =~= todo@.take(start.len() as int));
                if can_register_refs(*self, todo@) {
                    assert forall|k: int| 0 <= k < start.len() implies can_register(
                        *self,
                        self.types@[#[trigger] start[k]],
                    ) by {
                        assert(todo@[k] == start[k]);
                    }
                    assert forall|k: int| 0 <= k < refs.len() implies can_register(
                        *self,
                        self.types@[#[trigger] refs[k]],
                    ) by {
                        assert(todo@[start.len() + k] == refs[k]);
                    }
                }
                if can_register_refs(*self, start) && can_register_refs(*self, refs) {
                    assert forall|k: int| 0 <= k < todo@.len() implies can_register(
                        *self,
                        self.types@[#[trigger] todo@[k]],
                    ) by {
                        if k < start.len() {
                            assert(start[k] == todo@[k]);
                        } else {
                            assert(refs[k - start.len()] == todo@[k]);
                        }
                    }
                }
            } else {
                if can_register_dims(*self, *t) {
                    assert(sound_to(*self, e, 0));
                }
            }
        }
        ok
    }

    /// Whether the types of references can be registered.
    pub(crate) fn check_refs(&self, refs: Vec<usize>) -> (r: bool)
        requires
            forall|k: int| 0 <= k < refs@.len() ==> self.types@.contains_key(#[trigger] refs@[k]),
        ensures
            r == can_register_refs(*self, refs@),
    {
        broadcast use vstd::std_specs::hash::group_hash_axioms;

        let ghost dd = *self;
        let ghost roots = refs@;
        let mut todo = refs;
        let mut seen: HashSet<usize> = HashSet::new();
        while todo.len() > 0
            invariant
                dd == *self,
                roots == refs@,
                self.types@.dom().finite(),
                seen@.finite(),
                seen@.subset_of(self.types@.dom()),
                forall|k: int|
                    0 <= k < todo@.len() ==> self.types@.contains_key(#[trigger] todo@[k]),
                forall|k: int|
                    0 <= k < roots.len() ==> seen@.contains(#[trigger] roots[k])
                        || todo@.contains(roots[k]),
                set_sound(dd, seen@, 0),
                closed_by(dd, seen@, todo@),
                can_register_refs(dd, roots) ==> can_register_refs(dd, todo@) && forall|q: usize|
                    #[trigger] seen@.contains(q) ==> can_register(dd, dd.types@[q]),
            decreases self.types@.dom().len() - seen@.len(), todo@.len(),
        {
            let ghost before = todo@;
            let ghost seen0 = seen@;
            proof {
                vstd::set_lib::lemma_len_subset(seen0, self.types@.dom());
            }
            if let Some(r) = todo.pop() {
                let ghost rest = todo@;
                proof {
                    assert(before =~= rest.push(r));
                    assert(before[before.len() - 1] == r);
                    assert forall|k: int| 0 <= k < rest.len() implies self.types@.contains_key(
                        #[trigger] rest[k],
                    ) by {
                        assert(before[k] == rest[k]);
                    }
                    lemma_todo(dd, roots, seen0, rest, r);
                }
                if seen.contains(&r) {
                    continue;
                }
                if let Some(t) = self.types.get(&r) {
                    let ok = self.walk_type(t, &mut todo);
                    if !ok {
                        proof {
                            if can_register_refs(dd, roots) {
                                assert(can_register(dd, dd.types@[r]));
                                assert(sound_to(dd, dd.types@[r], 0));
                            }
                        }
                        return false;
                    }
                    seen.insert(r);
                    proof {
                        let added = todo@.skip(rest.len() as int);
                        assert(todo@ =~= rest + added);
                        lemma_seen(dd, roots, seen0, rest, r, added);
                        assert(seen@ =~= seen0.insert(r));
                        vstd::set_lib::lemma_len_subset(seen@, self.types@.dom());
                    }
                }
            }
        }
        proof {
            assert forall|k: int| 0 <= k < roots.len() implies can_register(
                dd,
                dd.types@[#[trigger] roots[k]],
            ) by {
                assert(seen@.contains(roots[k]));
                assert forall|n: nat| #[trigger] sound_to(dd, dd.types@[roots[k]], n) by {
                    lemma_closed(dd, seen@, todo@, n);
                }
            }
        }
        true
    }
}

} // verus!
