//! What contracts say of a value is what the value holds, text for text and number for number.
use vstd::prelude::*;

use crate::debuginfo::VarInfo;
use crate::demangle::{name_pairs, texts};
use crate::dwarf::{names_of, opt_texts, scopes, text_map, unit_views, DieAttributes, DwarfUnit};
use crate::name_map::NameMap;
use crate::object_file::{section_views, symbol_views};
use crate::registry::{
    metadata_view, CalSegList, EventList, InstanceList, McCalibrationSegment, McDimType, McEvent,
    McInstance, McMetadata, McTypedef, McTypedefField, McValueType, MetadataRequest, TypedefList,
};
use crate::segments::{definitions, SegmentDefinition};
use crate::text::strings;
use crate::variable_map::instance_views;

verus! {

/// What is known of an instance of a variable is all that it holds.
pub proof fn law_variables_show_what_they_hold(v: VarInfo, i: int)
    ensures
        v@.address == v.address,
        v@.typeref == v.typeref,
        v@.unit_idx == v.unit_idx,
        v.function matches Some(f) ==> v@.function == Some(f@),
        v.function is None ==> v@.function is None,
        v@.namespaces.len() == v.namespaces@.len(),
        0 <= i < v.namespaces@.len() ==> v@.namespaces[i] == v.namespaces@[i]@,
{
}

/// What is known of an entry is all that its attributes tell.
pub proof fn law_entries_show_what_they_hold(a: DieAttributes)
    ensures
        a.name matches Some(s) ==> a@.name == Some(s@),
        a.name is None ==> a@.name is None,
        a.linkage_name matches Some(s) ==> a@.linkage_name == Some(s@),
        a.linkage_name is None ==> a@.linkage_name is None,
        a@.typeref == a.typeref,
        a@.location == a.location,
        a@.specification == a.specification,
        a@.abstract_origin == a.abstract_origin,
{
}

/// A value type is shown as itself; that of a registered type with the text of its identifier.
pub proof fn law_value_types_show_themselves(v: McValueType<String>)
    ensures
        v is Ubyte <==> v@ is Ubyte,
        v is Uword <==> v@ is Uword,
        v is Ulong <==> v@ is Ulong,
        v is Ulonglong <==> v@ is Ulonglong,
        v is Sbyte <==> v@ is Sbyte,
        v is Sword <==> v@ is Sword,
        v is Slong <==> v@ is Slong,
        v is Slonglong <==> v@ is Slonglong,
        v is Float32Ieee <==> v@ is Float32Ieee,
        v is Float64Ieee <==> v@ is Float64Ieee,
        v is Integer <==> v@ is Integer,
        v matches McValueType::Integer { size: a, signed: b } ==> (
        v@ matches McValueType::Integer { size, signed } && size == a && signed == b),
        v matches McValueType::TypeDef(s) ==> v@ == McValueType::TypeDef(s@),
{
}

/// Types with dimensions, fields and registered types show what they hold.
pub proof fn law_types_show_what_they_hold(
    d: McDimType<String>,
    f: McTypedefField<String>,
    t: McTypedef,
    i: int,
)
    ensures
        d@.value_type == d.value_type@,
        d@.x_dim == d.x_dim,
        d@.y_dim == d.y_dim,
        f@.name == f.name@,
        f@.dim_type == f.dim_type@,
        f@.object_type == f.object_type,
        f@.offset == f.offset,
        t@.name == t.name@,
        t@.size == t.size,
        t@.fields.len() == t.fields@.len(),
        0 <= i < t.fields@.len() ==> t@.fields[i] == t.fields@[i]@,
{
}

/// Instances, events and segments show what they hold.
pub proof fn law_objects_show_what_they_hold(
    v: McInstance<String>,
    e: McEvent<String>,
    s: McCalibrationSegment<String>,
    d: SegmentDefinition<String>,
)
    ensures
        v@.name == v.name@,
        v@.dim_type == v.dim_type@,
        v@.object_type == v.object_type,
        v.unit matches Some(u) ==> v@.unit == Some(u@),
        v.unit is None ==> v@.unit is None,
        v@.address == v.address,
        e@.name == e.name@,
        e@.index == e.index,
        e@.id == e.id,
        e@.cycle == e.cycle,
        e.location matches Some((unit_idx, function)) ==> e@.location == Some(
            (unit_idx, function@),
        ),
        e.location is None ==> e@.location is None,
        e@.cfa == e.cfa,
        s@.name == s.name@,
        s@.number == s.number,
        s@.address == s.address,
        s@.size == s.size,
        s@.mem_addr == s.mem_addr,
        d@.name == d.name@,
        d@.unit_idx == d.unit_idx,
        d@.descr_addr == d.descr_addr,
        d@.number == d.number,
{
}

/// Metadata and requests for it show what they hold.
pub proof fn law_metadata_shows_what_it_holds(
    m: McMetadata<String>,
    r: MetadataRequest<String>,
)
    ensures
        m matches McMetadata::Unit(s) ==> m@ == McMetadata::Unit(s@),
        m matches McMetadata::Comment(s) ==> m@ == McMetadata::Comment(s@),
        m matches McMetadata::Min(bits) ==> m@ == McMetadata::<Seq<char>>::Min(bits),
        m matches McMetadata::Max(bits) ==> m@ == McMetadata::<Seq<char>>::Max(bits),
        m is ReadWrite ==> m@ is ReadWrite,
        r matches MetadataRequest::Field { instance, path, data } ==> r@ == (MetadataRequest::Field {
            instance: instance@,
            path: path@,
            data: data@,
        }),
        r matches MetadataRequest::Instance { name, data } ==> r@ == (MetadataRequest::Instance {
            name: name@,
            data: data@,
        }),
{
}

/// Lists show each of their elements in its place.
pub proof fn law_lists_show_their_elements(
    events: EventList,
    segments: CalSegList,
    typedefs: TypedefList,
    instances: InstanceList,
    metadata: Seq<MetadataRequest<String>>,
    defined: Seq<SegmentDefinition<String>>,
    i: int,
)
    ensures
        events@.len() == events.events@.len(),
        0 <= i < events@.len() ==> events@[i] == events.events@[i]@,
        segments@.len() == segments.segments@.len(),
        0 <= i < segments@.len() ==> segments@[i] == segments.segments@[i]@,
        typedefs@.len() == typedefs.typedefs@.len(),
        0 <= i < typedefs@.len() ==> typedefs@[i] == typedefs.typedefs@[i]@,
        instances@.len() == instances.instances@.len(),
        0 <= i < instances@.len() ==> instances@[i] == instances.instances@[i]@,
        metadata_view(metadata).len() == metadata.len(),
        0 <= i < metadata.len() ==> metadata_view(metadata)[i] == metadata[i]@,
        definitions(defined).len() == defined.len(),
        0 <= i < defined.len() ==> definitions(defined)[i] == defined[i]@,
{
}

/// Lists of texts, sections, symbols, scopes and units show each of their elements in its place.
pub proof fn law_texts_show_their_characters(
    v: Seq<String>,
    o: Seq<Option<String>>,
    sections: Seq<(Option<String>, u64, u64)>,
    symbols: Seq<(Option<String>, u64)>,
    context: Seq<(u16, Option<String>)>,
    units: Seq<DwarfUnit>,
    m: Map<usize, String>,
    k: usize,
    i: int,
)
    ensures
        strings(v).len() == v.len(),
        0 <= i < v.len() ==> strings(v)[i] == v[i]@,
        opt_texts(o).len() == o.len(),
        0 <= i < o.len() ==> (o[i] matches Some(s) ==> opt_texts(o)[i] == Some(s@)) && (o[i] is None
            ==> opt_texts(o)[i] is None),
        section_views(sections).len() == sections.len(),
        0 <= i < sections.len() ==> section_views(sections)[i].1 == sections[i].1 && section_views(
            sections,
        )[i].2 == sections[i].2 && (sections[i].0 matches Some(s) ==> section_views(sections)[i].0
            == Some(s@)) && (sections[i].0 is None ==> section_views(sections)[i].0 is None),
        symbol_views(symbols).len() == symbols.len(),
        0 <= i < symbols.len() ==> symbol_views(symbols)[i].1 == symbols[i].1 && (
        symbols[i].0 matches Some(s) ==> symbol_views(symbols)[i].0 == Some(s@)) && (
        symbols[i].0 is None ==> symbol_views(symbols)[i].0 is None),
        scopes(context).len() == context.len(),
        0 <= i < context.len() ==> scopes(context)[i].0 == context[i].0 && (
        context[i].1 matches Some(s) ==> scopes(context)[i].1 == Some(s@)) && (
        context[i].1 is None ==> scopes(context)[i].1 is None),
        unit_views(units).len() == units.len(),
        0 <= i < units.len() ==> unit_views(units)[i].0 == units[i].offset && unit_views(units)[i].1
            == units[i].length && unit_views(units)[i].2 == units[i].entries@,
        text_map(m).contains_key(k) <==> m.contains_key(k),
        m.contains_key(k) ==> text_map(m)[k] == m[k]@,
{
}

/// Names and pairs of names show their texts.
pub proof fn law_names_show_their_texts(
    m: NameMap<String>,
    v: Seq<&String>,
    entries: Seq<(Seq<char>, Seq<VarInfo>)>,
    i: int,
)
    ensures
        name_pairs(m).len() == m.order().len(),
        0 <= i < m.order().len() ==> name_pairs(m)[i].0 == m.order()[i].0 && name_pairs(m)[i].1
            == m.order()[i].1@,
        texts(v).len() == v.len(),
        0 <= i < v.len() ==> texts(v)[i] == v[i]@,
        names_of(entries).len() == entries.len(),
        0 <= i < entries.len() ==> names_of(entries)[i] == entries[i].0,
        instance_views(entries).len() == entries.len(),
        0 <= i < entries.len() ==> instance_views(entries)[i].0 == entries[i].0 && instance_views(
            entries,
        )[i].1.len() == entries[i].1.len(),
{
}

} // verus!
