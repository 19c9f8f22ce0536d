//! What the registered type of a value is, for every kind of type: its width and sign, the
//! dimensions of arrays, and the fields of structs.
use vstd::prelude::*;

use crate::debuginfo::{type_size, DbgDataType, DebugData, TypeInfo};
use crate::name_map::lookup;
use crate::registry::{has_typedef, A2lFormat, McObjectType, McValueType, TypedefView};
use crate::types::{
    can_register, chain_ends, dim_type, element_type, fields_of, lemma_registration_keeps,
    lemma_registration_total, lemma_resolved, lemma_typedefs_after, lemma_with_fields_keeps,
    registration, resolved, target, typedefs_after, value_type, with_fields,
};

verus! {

/// The number of bytes of a value type; none for a registered type.
pub open spec fn value_width(v: McValueType<Seq<char>>) -> Option<u64> {
    match v {
        McValueType::Ubyte | McValueType::Sbyte => Some(1),
        McValueType::Uword | McValueType::Sword => Some(2),
        McValueType::Ulong | McValueType::Slong | McValueType::Float32Ieee => Some(4),
        McValueType::Ulonglong | McValueType::Slonglong | McValueType::Float64Ieee => Some(8),
        McValueType::Integer { size, .. } => Some(size),
        McValueType::TypeDef(_) => None,
    }
}

/// A value type is that of signed integers.
pub open spec fn value_signed(v: McValueType<Seq<char>>) -> bool {
    match v {
        McValueType::Sbyte | McValueType::Sword | McValueType::Slong | McValueType::Slonglong => true,
        McValueType::Integer { signed, .. } => signed,
        _ => false,
    }
}

/// A value type is that of floating point numbers.
pub open spec fn value_floating(v: McValueType<Seq<char>>) -> bool {
    v is Float32Ieee || v is Float64Ieee
}

/// A type is a number: an integer or a floating point number of a fixed width.
pub open spec fn is_number(t: TypeInfo) -> bool {
    match t.datatype {
        DbgDataType::Uint8
        | DbgDataType::Uint16
        | DbgDataType::Uint32
        | DbgDataType::Uint64
        | DbgDataType::Sint8
        | DbgDataType::Sint16
        | DbgDataType::Sint32
        | DbgDataType::Sint64
        | DbgDataType::Float
        | DbgDataType::Double => true,
        _ => false,
    }
}

/// The value of a number is as wide as the number, signed exactly if it is, and floating exactly if
/// it is. That of an enum has its size and sign.
pub proof fn law_numbers_keep_width_and_sign(dd: DebugData, format: A2lFormat, t: TypeInfo)
    requires
        is_number(t) || t.datatype is Enum,
    ensures
        value_width(value_type(dd, format, t)) == Some(type_size(t)),
        is_number(t) ==> (value_signed(value_type(dd, format, t)) <==> t.datatype is Sint8
            || t.datatype is Sint16 || t.datatype is Sint32 || t.datatype is Sint64),
        t.datatype matches DbgDataType::Enum { size, signed, .. } ==> value_signed(
            value_type(dd, format, t),
        ) == signed && value_width(value_type(dd, format, t)) == Some(size) && value_type(
            dd,
            format,
            t,
        ) is Integer,
        is_number(t) ==> !(value_type(dd, format, t) is Integer),
        value_floating(value_type(dd, format, t)) <==> t.datatype is Float || t.datatype is Double,
{
    lemma_plain(dd.types@, t);
}

/// A type that is no reference stands for itself.
proof fn lemma_plain(types: Map<usize, TypeInfo>, t: TypeInfo)
    requires
        !(t.datatype is TypeRef),
    ensures
        resolved(types, t) == t,
{
    assert(target(types, 0, t) == Some(t));
    lemma_resolved(types, 0, t);
}

/// The size of a type is the number of bytes that the debug information gives for it: the size of
/// a struct, a class, a union, an enum or an array as a whole, whatever it holds; the width of
/// a number; and for a bit field the size of the type that it is a part of.
pub proof fn law_sizes_are_those_of_the_debug_information(t: TypeInfo)
    ensures
        t.datatype matches DbgDataType::Struct { size, .. } ==> type_size(t) == size,
        t.datatype matches DbgDataType::Union { size, .. } ==> type_size(t) == size,
        t.datatype matches DbgDataType::Enum { size, .. } ==> type_size(t) == size,
        t.datatype matches DbgDataType::Array { size, .. } ==> type_size(t) == size,
        t.datatype matches DbgDataType::Pointer(size, _) ==> type_size(t) == size,
        t.datatype matches DbgDataType::FuncPtr(size) ==> type_size(t) == size,
        t.datatype matches DbgDataType::Other(size) ==> type_size(t) == size,
        t.datatype matches DbgDataType::TypeRef(_, size) ==> type_size(t) == size,
        t.datatype matches DbgDataType::Bitfield { basetype, .. } ==> type_size(t) == type_size(
            *basetype,
        ),
        t.datatype is Uint8 || t.datatype is Sint8 ==> 8 * type_size(t) == 8,
        t.datatype is Uint16 || t.datatype is Sint16 ==> 8 * type_size(t) == 16,
        t.datatype is Uint32 || t.datatype is Sint32 || t.datatype is Float ==> 8 * type_size(t)
            == 32,
        t.datatype is Uint64 || t.datatype is Sint64 || t.datatype is Double ==> 8 * type_size(t)
            == 64,
{
}

/// A struct with a name is a value of the registered type of that name; a pointer is an unsigned
/// number of its width; whatever has no value type of its own counts as a single byte.
pub proof fn law_other_types_have_a_value_type(dd: DebugData, format: A2lFormat, t: TypeInfo)
    requires
        !is_number(t),
        !(t.datatype is Enum),
        !(t.datatype is TypeRef),
    ensures
        t.datatype is Struct && t.name is Some && dd.a2l_type_names@.contains_key(t.dbginfo_offset)
            ==> value_type(dd, format, t) == McValueType::TypeDef(
            format.identifier(dd.a2l_type_names@[t.dbginfo_offset]@),
        ),
        t.datatype is Struct && t.name is Some && !dd.a2l_type_names@.contains_key(t.dbginfo_offset)
            ==> value_type(dd, format, t) == McValueType::TypeDef(
            format.identifier((t.name->0)@),
        ),
        t.datatype matches DbgDataType::Pointer(size, _) ==> !value_signed(
            value_type(dd, format, t),
        ) && !value_floating(value_type(dd, format, t)) && (size == 4 || size == 8 ==> value_width(
            value_type(dd, format, t),
        ) == Some(size)) && (size != 4 ==> value_width(value_type(dd, format, t)) == Some(8u64)),
        t.datatype is Struct && t.name is None ==> value_type(dd, format, t) is Ubyte,
        t.datatype is Bitfield || t.datatype is Union || t.datatype is Array || t.datatype is FuncPtr
            || t.datatype is Other ==> value_type(dd, format, t) is Ubyte,
{
    lemma_plain(dd.types@, t);
}

/// A reference to a type has the value type of that type, over any number of references. Where the
/// type is not known, it counts as a single byte.
pub proof fn law_references_have_the_type_they_refer_to(
    dd: DebugData,
    format: A2lFormat,
    t: TypeInfo,
)
    requires
        t.datatype is TypeRef,
        chain_ends(dd.types@, t),
    ensures
        dd.types@.contains_key(t.datatype->TypeRef_0) ==> {
            let u = dd.types@[t.datatype->TypeRef_0];
            &&& chain_ends(dd.types@, u)
            &&& resolved(dd.types@, t) == resolved(dd.types@, u)
            &&& value_type(dd, format, t) == value_type(dd, format, u)
        },
        !dd.types@.contains_key(t.datatype->TypeRef_0) ==> value_type(dd, format, t) is Ubyte,
{
    let types = dd.types@;
    let r = t.datatype->TypeRef_0;
    let fuel = choose|fuel: nat| (#[trigger] target(types, fuel, t)) is Some;
    lemma_resolved(types, fuel, t);
    if types.contains_key(r) {
        assert(target(types, fuel, t) == target(types, (fuel - 1) as nat, types[r]));
        lemma_resolved(types, (fuel - 1) as nat, types[r]);
    }
}

/// The value type of an array of one or two dimensions is the value type of its elements: the type
/// of a number for numbers, the registered type for structs with a name, and so on. Its dimensions
/// are those of the array.
pub proof fn law_arrays_hold_values_of_their_elements(dd: DebugData, format: A2lFormat, t: TypeInfo)
    requires
        t.datatype is Array,
        1 <= t.datatype->dim@.len() <= 2,
    ensures
        ({
            let e = *t.datatype->arraytype;
            let d = dim_type(dd, format, t);
            let dim = t.datatype->dim@;
            &&& d.value_type == value_type(dd, format, e)
            &&& is_number(e) || e.datatype is Enum ==> value_width(d.value_type) == Some(
                type_size(e),
            )
            &&& is_number(e) ==> (value_signed(d.value_type) <==> e.datatype is Sint8
                || e.datatype is Sint16 || e.datatype is Sint32 || e.datatype is Sint64)
            &&& e.datatype is Float ==> d.value_type is Float32Ieee
            &&& e.datatype is Double ==> d.value_type is Float64Ieee
            &&& e.datatype is Struct && e.name is Some ==> d.value_type == McValueType::TypeDef(
                format.identifier(dd.a2l_name(e)->0),
            )
            &&& dim[0] <= u16::MAX ==> d.x_dim == dim[0]
            &&& dim.len() == 1 ==> d.y_dim == 1
            &&& dim.len() == 2 && dim[1] <= u16::MAX ==> d.y_dim == dim[1]
        }),
{
    let e = *t.datatype->arraytype;
    if !(e.datatype is TypeRef) {
        lemma_plain(dd.types@, e);
    }
    if is_number(e) || e.datatype is Enum {
        law_numbers_keep_width_and_sign(dd, format, e);
    }
}

/// The dimensions of an array count modulo the range of 16 bits.
pub proof fn law_dimensions_are_cut_to_16_bits(dd: DebugData, format: A2lFormat, t: TypeInfo)
    requires
        t.datatype is Array,
        1 <= t.datatype->dim@.len() <= 2,
    ensures
        dim_type(dd, format, t).x_dim == t.datatype->dim@[0] % 0x10000,
        t.datatype->dim@.len() == 2 ==> dim_type(dd, format, t).y_dim == t.datatype->dim@[1]
            % 0x10000,
{
    let a = t.datatype->dim@[0];
    let b = t.datatype->dim@[1];
    assert(a as u16 == a % 0x10000) by (bit_vector);
    assert(b as u16 == b % 0x10000) by (bit_vector);
}

/// What is no array has one value of its own type. An array of more than two dimensions counts as
/// a single byte.
pub proof fn law_scalars_have_one_value(dd: DebugData, format: A2lFormat, t: TypeInfo)
    ensures
        !(t.datatype is Array) ==> dim_type(dd, format, t).value_type == value_type(dd, format, t),
        t.datatype matches DbgDataType::Array { dim, .. } ==> (dim@.len() > 2 ==> dim_type(
            dd,
            format,
            t,
        ).value_type is Ubyte),
        !(t.datatype is Array) || t.datatype->dim@.len() > 2 ==> dim_type(dd, format, t).x_dim == 1
            && dim_type(dd, format, t).y_dim == 1,
{
}

/// A name that the registry writes in another way is written so; any other name stands for itself.
pub proof fn law_identifiers_stand_for_names(format: A2lFormat, name: Seq<char>)
    ensures
        lookup(format.identifiers.order(), name) matches Some(id) ==> format.identifier(name) == id@,
        lookup(format.identifiers.order(), name) is None ==> format.identifier(name) == name,
{
}

/// The fields of a struct are its members whose offset fits into 16 bits, all of them and in their
/// order, each with its name, its type, its offset and the use of the struct.
pub proof fn law_members_become_fields(
    dd: DebugData,
    format: A2lFormat,
    members: Seq<(String, (TypeInfo, u64))>,
    n: nat,
    object_type: McObjectType,
)
    requires
        n <= members.len(),
    ensures
        ({
            let kept = members.take(n as int).filter(|m: (String, (TypeInfo, u64))| m.1.1 < 0x10000);
            let fields = fields_of(dd, format, members, n, object_type);
            &&& fields.len() == kept.len()
            &&& forall|i: int|
                0 <= i < fields.len() ==> {
                    let f = #[trigger] fields[i];
                    &&& f.name == kept[i].0@
                    &&& f.offset == kept[i].1.1
                    &&& f.object_type == object_type
                    &&& f.dim_type == dim_type(dd, format, kept[i].1.0)
                }
        }),
    decreases n,
{
    reveal(Seq::filter);
    let fits = |m: (String, (TypeInfo, u64))| m.1.1 < 0x10000;
    if n > 0 {
        law_members_become_fields(dd, format, members, (n - 1) as nat, object_type);
        assert(members.take(n as int).drop_last() =~= members.take(n - 1));
        assert(members.take(n as int).last() == members[n - 1]);
        let before = members.take(n - 1).filter(fits);
        let fields = fields_of(dd, format, members, n, object_type);
        let kept = members.take(n as int).filter(fits);
        assert forall|i: int| 0 <= i < fields.len() implies {
            let f = #[trigger] fields[i];
            &&& f.name == kept[i].0@
            &&& f.offset == kept[i].1.1
            &&& f.object_type == object_type
            &&& f.dim_type == dim_type(dd, format, kept[i].1.0)
        } by {
            if i < before.len() {
                assert(fields[i] == fields_of(dd, format, members, (n - 1) as nat, object_type)[i]);
            }
        }
    }
}

/// A registered type is that of a struct: its identifier, its size in bytes and its members.
pub open spec fn is_typedef_of(
    dd: DebugData,
    format: A2lFormat,
    td: TypedefView,
    u: TypeInfo,
    object_type: McObjectType,
) -> bool {
    &&& dd.a2l_name(u) matches Some(name)
    &&& td.name == format.identifier(name)
    &&& u.datatype matches DbgDataType::Struct { members, .. }
    &&& td.size == type_size(u)
    &&& td.fields == fields_of(dd, format, members@, members@.len(), object_type)
}

/// A registered type is that of some struct.
pub open spec fn is_typedef(
    dd: DebugData,
    format: A2lFormat,
    td: TypedefView,
    object_type: McObjectType,
) -> bool {
    exists|u: TypeInfo| #[trigger] is_typedef_of(dd, format, td, u, object_type)
}

proof fn lemma_fields_in_place(
    dd: DebugData,
    format: A2lFormat,
    fuel: nat,
    st: Seq<TypedefView>,
    at: int,
    members: Seq<(String, (TypeInfo, u64))>,
    n: nat,
    object_type: McObjectType,
)
    requires
        with_fields(dd, format, fuel, st, at, members, n, object_type) is Some,
        0 <= at < st.len(),
    ensures
        (with_fields(dd, format, fuel, st, at, members, n, object_type)->0)[at].fields
            == st[at].fields + fields_of(dd, format, members, n, object_type),
    decreases n,
{
    if n == 0 {
        assert(st[at].fields =~= st[at].fields + fields_of(dd, format, members, n, object_type));
    } else {
        let k = (n - 1) as nat;
        lemma_fields_in_place(dd, format, fuel, st, at, members, k, object_type);
        lemma_with_fields_keeps(dd, format, fuel, st, at, members, k, object_type);
        let st1 = with_fields(dd, format, fuel, st, at, members, k, object_type)->0;
        let (name, (t, offset)) = members[n - 1];
        if offset <= 0xFFFF {
            let e = element_type(t);
            lemma_registration_keeps(dd, format, fuel, st1, e, object_type);
            let st2 = registration(dd, format, fuel, st1, e, object_type)->0;
            assert(st2.take(st1.len() as int)[at] == st1[at]);
            let r = with_fields(dd, format, fuel, st, at, members, n, object_type)->0;
            assert(r[at].fields =~= st[at].fields + fields_of(
                dd,
                format,
                members,
                n,
                object_type,
            ));
        }
    }
}

proof fn lemma_registration_describes(
    dd: DebugData,
    format: A2lFormat,
    fuel: nat,
    st: Seq<TypedefView>,
    t: TypeInfo,
    object_type: McObjectType,
    from: int,
)
    requires
        registration(dd, format, fuel, st, t, object_type) is Some,
        0 <= from,
        forall|i: int|
            from <= i < st.len() ==> is_typedef(
                dd,
                format,
                #[trigger] st[i],
                object_type,
            ),
    ensures
        forall|i: int|
            from <= i < (registration(dd, format, fuel, st, t, object_type)->0).len()
                ==> is_typedef(
                dd,
                format,
                #[trigger] (registration(dd, format, fuel, st, t, object_type)->0)[i],
                object_type,
            ),
    decreases fuel, 1nat,
{
    let u = resolved(dd.types@, t);
    match (u.datatype, dd.a2l_name(u)) {
        (DbgDataType::Struct { size, members, .. }, Some(name)) => {
            let id = format.identifier(name);
            if !has_typedef(st, id) {
                let at = st.len() as int;
                let f = (fuel - 1) as nat;
                let n = members@.len();
                let st1 = st.push(TypedefView { name: id, size, fields: Seq::empty() });
                let r = with_fields(dd, format, f, st1, at, members@, n, object_type)->0;
                assert(registration(dd, format, fuel, st, t, object_type) == Some(r));
                lemma_with_fields_describes(
                    dd,
                    format,
                    f,
                    st1,
                    at,
                    members@,
                    n,
                    object_type,
                    from,
                );
                lemma_with_fields_keeps(dd, format, f, st1, at, members@, n, object_type);
                lemma_fields_in_place(dd, format, f, st1, at, members@, n, object_type);
                assert(r[at].fields =~= fields_of(dd, format, members@, n, object_type));
                assert(is_typedef_of(dd, format, r[at], u, object_type));
                assert(is_typedef(dd, format, r[at], object_type));
            }
        },
        _ => {},
    }
}

proof fn lemma_with_fields_describes(
    dd: DebugData,
    format: A2lFormat,
    fuel: nat,
    st: Seq<TypedefView>,
    at: int,
    members: Seq<(String, (TypeInfo, u64))>,
    n: nat,
    object_type: McObjectType,
    from: int,
)
    requires
        with_fields(dd, format, fuel, st, at, members, n, object_type) is Some,
        0 <= from,
        0 <= at < st.len(),
        at == st.len() - 1,
        forall|i: int|
            from <= i < st.len() && i != at ==> is_typedef(
                dd,
                format,
                #[trigger] st[i],
                object_type,
            ),
    ensures
        forall|i: int|
            from <= i < (with_fields(dd, format, fuel, st, at, members, n, object_type)->0).len() && i != at ==> is_typedef(
                dd,
                format,
                #[trigger] (with_fields(dd, format, fuel, st, at, members, n, object_type)->0)[i],
                object_type,
            ),
    decreases fuel, n + 2,
{
    if n > 0 {
        let k = (n - 1) as nat;
        lemma_with_fields_describes(dd, format, fuel, st, at, members, k, object_type, from);
        lemma_with_fields_keeps(dd, format, fuel, st, at, members, k, object_type);
        let st1 = with_fields(dd, format, fuel, st, at, members, k, object_type)->0;
        let (name, (t, offset)) = members[n - 1];
        if offset <= 0xFFFF {
            let e = element_type(t);
            let st2 = registration(dd, format, fuel, st1, e, object_type)->0;
            lemma_added_describe(dd, format, fuel, st1, e, object_type);
            lemma_registration_keeps(dd, format, fuel, st1, e, object_type);
            let r = with_fields(dd, format, fuel, st, at, members, n, object_type)->0;
            assert forall|i: int| from <= i < r.len() && i != at implies is_typedef(
                dd,
                format,
                #[trigger] r[i],
                object_type,
            ) by {
                assert(r[i] == st2[i]);
                if i < st1.len() {
                    assert(st2.take(st1.len() as int)[i] == st1[i]);
                    assert(is_typedef(dd, format, st1[i], object_type));
                }
            }
        }
    }
}

proof fn lemma_added_describe(
    dd: DebugData,
    format: A2lFormat,
    fuel: nat,
    st: Seq<TypedefView>,
    t: TypeInfo,
    object_type: McObjectType,
)
    requires
        registration(dd, format, fuel, st, t, object_type) is Some,
    ensures
        forall|i: int|
            st.len() <= i < (registration(dd, format, fuel, st, t, object_type)->0).len()
                ==> is_typedef(
                dd,
                format,
                #[trigger] (registration(dd, format, fuel, st, t, object_type)->0)[i],
                object_type,
            ),
    decreases fuel, 2nat,
{
    lemma_registration_describes(dd, format, fuel, st, t, object_type, st.len() as int);
}

/// Every type that a registration adds is that of a struct, with the size of the struct in bytes and
/// its members as fields, for the use that was asked for; down to the innermost member.
pub proof fn law_added_types_are_structs(
    dd: DebugData,
    format: A2lFormat,
    st: Seq<TypedefView>,
    t: TypeInfo,
    object_type: McObjectType,
    i: int,
)
    requires
        can_register(dd, t),
        st.len() <= i < typedefs_after(dd, format, st, t, object_type).len(),
    ensures
        is_typedef(dd, format, typedefs_after(dd, format, st, t, object_type)[i], object_type),
{
    let fuel = lemma_registration_total(dd, format, st, t, object_type);
    lemma_typedefs_after(dd, format, fuel, st, t, object_type);
    lemma_added_describe(dd, format, fuel, st, t, object_type);
}

/// A registration adds nothing for what is no struct with a name.
pub proof fn law_only_named_structs_add_types(
    dd: DebugData,
    format: A2lFormat,
    st: Seq<TypedefView>,
    t: TypeInfo,
    object_type: McObjectType,
)
    requires
        !(resolved(dd.types@, t).datatype is Struct) || resolved(dd.types@, t).name is None,
    ensures
        typedefs_after(dd, format, st, t, object_type) == st,
{
    assert(registration(dd, format, 0, st, t, object_type) == Some(st));
    lemma_typedefs_after(dd, format, 0, st, t, object_type);
}

} // verus!
