//! Which variables are registered, under which name and with which address: what holds of every
//! instance that is planned, and which instances are planned at all.
use vstd::prelude::*;

use crate::debuginfo::{DbgDataType, TypeInfo, VarInfo};
use crate::elf_reader::ElfReader;
use crate::filter::{filter_passes, filter_valid, regex_matches, regex_valid};
use crate::registry::{
    lemma_event_at, lemma_event_named, lemma_segment_with, segment_holds, segment_with, A2lFormat,
    McObjectType, Registry, SegmentAddress, TypedefView,
};
use crate::text::decimal;
use crate::text_laws::{
    begins_with, is_head, law_prefixes_come_off, law_texts_are_cut_at_the_first_separator,
    lemma_begins_with,
};
use crate::type_laws::{
    is_number, is_typedef, is_typedef_of, law_added_types_are_structs, law_members_become_fields,
};
use crate::types::{
    can_register, can_register_dims, chain_ends, dim_type, element_type, lemma_registration_keeps,
    lemma_registration_total, lemma_typedefs_after, sound_to, target,
};
use crate::variables::{
    captured, count_in_units, enumerators_text, fits_segment, function_of, instances_of,
    is_internal_name, signed, Planned, Scan,
};

verus! {

/// A measurement of a stack variable keeps the address extension of the variable, however segments
/// are addressed. A measurement at an absolute address has the address extension 1 with segment
/// relative addressing and 0 without it; a parameter always has 0.
pub proof fn law_address_extensions_tell_the_kind_of_address(
    scan: Scan,
    name: Seq<char>,
    infos: Seq<VarInfo>,
    info: VarInfo,
)
    requires
        scan.plan_one(name, infos, info) is Some,
    ensures
        ({
            let instance = (scan.plan_one(name, infos, info)->0).instance;
            let ext = instance.address.addr_ext;
            &&& instance.object_type == McObjectType::Measurement && info.address.0 == 2 ==> ext == 2
            &&& instance.object_type == McObjectType::Measurement && info.address.0 == 0
                && scan.seg_relative ==> ext == 1
            &&& instance.object_type == McObjectType::Measurement && info.address.0 == 0
                && !scan.seg_relative ==> ext == 0
            &&& instance.object_type == McObjectType::Characteristic ==> ext == 0
                && instance.address.event_id is None
            &&& info.address.0 == 0 || info.address.0 == 2
        }),
{
}

/// How segments are addressed changes nothing about an instance but the address extension of
/// a measurement at an absolute address.
pub proof fn law_segment_addressing_concerns_absolute_addresses(
    a: Scan,
    b: Scan,
    name: Seq<char>,
    infos: Seq<VarInfo>,
    info: VarInfo,
)
    requires
        b == (Scan { seg_relative: b.seg_relative, ..a }),
    ensures
        ({
            let p = a.plan_one(name, infos, info);
            let q = b.plan_one(name, infos, info);
            &&& p is Some <==> q is Some
            &&& p is Some ==> {
                let x = (p->0).instance;
                let y = (q->0).instance;
                &&& x.name == y.name
                &&& x.dim_type == y.dim_type
                &&& x.object_type == y.object_type
                &&& x.unit == y.unit
                &&& x.address.addr == y.address.addr
                &&& x.address.event_id == y.address.event_id
                &&& (p->0).type_info == (q->0).type_info
                &&& info.address.0 == 2 || x.object_type == McObjectType::Characteristic
                    ==> x.address == y.address
            }
        }),
{
    assert(a.scope_event(info) == b.scope_event(info));
    assert(a.address(info) == b.address(info));
}

/// The names that never come into question are those that begin with two underscores, with the names
/// of the XCP implementation or with that of a marker; a separator elsewhere does no harm.
pub proof fn law_internal_names_are_known_by_their_beginning(name: Seq<char>)
    ensures
        is_internal_name(name) <==> begins_with(name, "__"@) || begins_with(name, "gXcp"@)
            || begins_with(name, "gA2l"@) || begins_with(name, "calseg__"@) || begins_with(
            name,
            "calblk__"@,
        ) || begins_with(name, "evt__"@) || begins_with(name, "trg__"@) || begins_with(
            name,
            "xcp_meta__"@,
        ),
{
    lemma_begins_with(name, "__"@);
    lemma_begins_with(name, "gXcp"@);
    lemma_begins_with(name, "gA2l"@);
    lemma_begins_with(name, "calseg__"@);
    lemma_begins_with(name, "calblk__"@);
    lemma_begins_with(name, "evt__"@);
    lemma_begins_with(name, "trg__"@);
    lemma_begins_with(name, "xcp_meta__"@);
}

/// A variable that is named `daq__`, an event, a separator and a variable was captured with that event
/// under that name; all behind the first separator belongs to the variable. Other variables were not
/// captured.
pub proof fn law_captured_names_tell_event_and_variable(
    event: Seq<char>,
    var: Seq<char>,
    name: Seq<char>,
)
    requires
        is_head(event),
    ensures
        captured("daq__"@ + (event + "__"@ + var)) == Some((event, var)),
        captured("daq__"@ + event) == Some((event, Seq::<char>::empty())),
        captured(name) is Some <==> begins_with(name, "daq__"@),
{
    let rest = event + "__"@ + var;
    law_texts_are_cut_at_the_first_separator(event, var);
    lemma_begins_with(name, "daq__"@);
    law_prefixes_come_off("daq__"@, rest, name);
    law_prefixes_come_off("daq__"@, event, name);
}

/// The only instance of a variable that is not on the stack is registered under the name of the
/// variable; a captured one under the name of the event, a dot and the name of the variable.
pub proof fn law_single_instances_keep_their_name(
    scan: Scan,
    name: Seq<char>,
    event: Seq<char>,
    var: Seq<char>,
    infos: Seq<VarInfo>,
    info: VarInfo,
)
    requires
        scan.plan_one(name, infos, info) is Some,
        info.address.0 == 0,
        infos.filter(|i: VarInfo| i.unit_idx <= scan.unit_idx_limit).len() <= 1,
    ensures
        !begins_with(name, "daq__"@) ==> (scan.plan_one(name, infos, info)->0).instance.name == name,
        is_head(event) && event.len() > 0 && name == "daq__"@ + (event + "__"@ + var) ==> (scan.plan_one(
            name,
            infos,
            info,
        )->0).instance.name == event + "."@ + var,
{
    law_instances_count_up_to_the_limit(infos, scan.unit_idx_limit, infos.len());
    assert(infos.take(infos.len() as int) =~= infos);
    lemma_begins_with(name, "daq__"@);
    if is_head(event) {
        law_captured_names_tell_event_and_variable(event, var, name);
    }
}

/// One of several instances, and an instance on the stack, is named with its function, or with the
/// name of the variable alone where it is local to none.
pub proof fn law_several_instances_are_named_by_scope(
    scan: Scan,
    name: Seq<char>,
    infos: Seq<VarInfo>,
    info: VarInfo,
)
    requires
        scan.plan_one(name, infos, info) is Some,
        info.address.0 == 2 || infos.filter(
            |i: VarInfo| i.unit_idx <= scan.unit_idx_limit,
        ).len() >= 2,
    ensures
        ({
            let instance = (scan.plan_one(name, infos, info)->0).instance;
            &&& info.function is None ==> instance.name == name
            &&& info.function matches Some(f) ==> (f@.len() > 0 ==> instance.name == f@ + "."@
                + name)
        }),
{
    law_instances_count_up_to_the_limit(infos, scan.unit_idx_limit, infos.len());
    assert(infos.take(infos.len() as int) =~= infos);
}

/// The instances that count are those in units up to the limit.
pub proof fn law_instances_count_up_to_the_limit(
    infos: Seq<VarInfo>,
    unit_idx_limit: usize,
    n: nat,
)
    requires
        n <= infos.len(),
    ensures
        count_in_units(infos, unit_idx_limit, n) == infos.take(n as int).filter(
            |i: VarInfo| i.unit_idx <= unit_idx_limit,
        ).len(),
    decreases n,
{
    reveal(Seq::filter);
    if n > 0 {
        law_instances_count_up_to_the_limit(infos, unit_idx_limit, (n - 1) as nat);
        assert(infos.take(n as int).drop_last() =~= infos.take(n - 1));
        assert(infos.take(n as int).last() == infos[n - 1]);
    }
}

/// An address counts as the signed number of 64 bits that is equal to it modulo the range of 64 bits.
pub proof fn law_addresses_are_signed_numbers(addr: u64)
    ensures
        -0x8000_0000_0000_0000 <= signed(addr) <= 0x7FFF_FFFF_FFFF_FFFF,
        signed(addr) == addr || signed(addr) + 0x1_0000_0000_0000_0000 == addr,
        addr as i64 == signed(addr),
{
    if addr >= 0x8000_0000_0000_0000 {
        assert(addr as i64 == addr - 0x1_0000_0000_0000_0000) by (bit_vector)
            requires
                addr >= 0x8000_0000_0000_0000,
        ;
    }
}

/// A type that variables are registered with: a number, an array, a struct or an enum.
pub open spec fn is_measurable(t: TypeInfo) -> bool {
    is_number(t) || t.datatype is Array || t.datatype is Struct || t.datatype is Enum
}

/// A global variable is registered if and only if its address takes 32 bits and is neither 0 nor all
/// ones: where its name is not an internal one, its unit lies within the limit, nothing is filtered
/// and its type is a number, an array, a struct or an enum. It is registered with the type that it
/// refers to. Outside of all segments it is a measurement at its own address.
pub proof fn law_global_variables_are_registered(
    scan: Scan,
    name: Seq<char>,
    infos: Seq<VarInfo>,
    info: VarInfo,
)
    requires
        !is_internal_name(name),
        !begins_with(name, "daq__"@),
        info.unit_idx <= scan.unit_idx_limit,
        scan.name_filter.len() == 0,
        scan.unit_filter.len() == 0,
        scan.dd.types@.contains_key(info.typeref),
        is_measurable(scan.dd.types@[info.typeref]),
        info.address.0 == 0,
    ensures
        scan.plan_one(name, infos, info) is Some <==> 0 < info.address.1 < 0xFFFF_FFFF,
        scan.plan_one(name, infos, info) matches Some(p) ==> {
            &&& p.type_info == scan.dd.types@[info.typeref]
            &&& p.instance.dim_type == dim_type(scan.dd, scan.format, p.type_info)
            &&& (forall|k: int|
                0 <= k < scan.segments.len() ==> !((#[trigger] scan.segments[k]).mem_addr
                    <= info.address.1 < scan.segments[k].mem_addr + scan.segments[k].size))
                ==> p.instance.object_type == McObjectType::Measurement && p.instance.address.addr
                == info.address.1
        },
{
    lemma_begins_with(name, "daq__"@);
    lemma_segment_with(scan.segments, info.address.1);
    if let Some(k) = segment_with(scan.segments, info.address.1) {
        assert(segment_holds(scan.segments[k], info.address.1));
        assert(scan.segments[k].mem_addr <= info.address.1 < scan.segments[k].mem_addr
            + scan.segments[k].size);
    }
}

/// A variable is left out if its name is an internal one, if it lies in a unit behind the limit, if
/// its type is not known or is a pointer, a union, a bit field, a reference or a function, if a filter
/// keeps it out, or if its address is neither absolute nor on the stack.
pub proof fn law_other_variables_are_left_out(
    scan: Scan,
    name: Seq<char>,
    infos: Seq<VarInfo>,
    info: VarInfo,
)
    requires
        is_internal_name(name) || info.unit_idx > scan.unit_idx_limit || !scan.dd.types@.contains_key(
            info.typeref,
        ) || !is_measurable(scan.dd.types@[info.typeref]) || (scan.name_filter.len() > 0
            && !regex_matches(scan.name_filter, name)) || (scan.unit_filter.len() > 0
            && !regex_matches(scan.unit_filter, scan.dd.unit_label(info.unit_idx as int))) || (
        info.address.0 != 0 && info.address.0 != 2),
    ensures
        scan.plan_one(name, infos, info) is None,
{
}

/// Whether a variable is registered does not depend on a filter that matches it.
pub proof fn law_matching_filters_keep_nothing_out(
    a: Scan,
    b: Scan,
    name: Seq<char>,
    infos: Seq<VarInfo>,
    info: VarInfo,
)
    requires
        b == (Scan { name_filter: b.name_filter, unit_filter: b.unit_filter, ..a }),
        a.name_filter.len() == 0 || regex_matches(a.name_filter, name),
        b.name_filter.len() == 0 || regex_matches(b.name_filter, name),
        a.unit_filter.len() == 0 || regex_matches(
            a.unit_filter,
            a.dd.unit_label(info.unit_idx as int),
        ),
        b.unit_filter.len() == 0 || regex_matches(
            b.unit_filter,
            b.dd.unit_label(info.unit_idx as int),
        ),
    ensures
        a.plan_one(name, infos, info) == b.plan_one(name, infos, info),
{
    assert(a.scope_event(info) == b.scope_event(info));
    assert(a.address(info) == b.address(info));
}

/// An empty filter can be used and lets everything pass; any other one can be used if it is
/// a regular expression, and lets pass what it matches.
pub proof fn law_filters_are_regular_expressions(filter: Seq<char>, text: Seq<char>)
    ensures
        filter.len() == 0 ==> filter_valid(filter) && filter_passes(filter, text),
        filter.len() > 0 ==> (filter_valid(filter) <==> regex_valid(filter)) && (filter_passes(
            filter,
            text,
        ) <==> regex_matches(filter, text)),
{
}

/// A stack variable is registered if and only if an event is triggered in its function and its offset
/// from the frame of that function fits the address format: where its name is not an internal one,
/// its unit lies within the limit, nothing is filtered and its type is a number, an array, a struct or
/// an enum.
pub proof fn law_stack_variables_need_an_event(
    scan: Scan,
    name: Seq<char>,
    infos: Seq<VarInfo>,
    info: VarInfo,
    e: int,
)
    requires
        !is_internal_name(name),
        !begins_with(name, "daq__"@),
        info.unit_idx <= scan.unit_idx_limit,
        scan.name_filter.len() == 0,
        scan.unit_filter.len() == 0,
        scan.dd.types@.contains_key(info.typeref),
        is_measurable(scan.dd.types@[info.typeref]),
        info.address.0 == 2,
        info.function is Some,
    ensures
        ({
            let place = Some((info.unit_idx, (info.function->0)@));
            &&& (forall|j: int|
                0 <= j < scan.events.len() ==> (#[trigger] scan.events[j]).location != place)
                ==> scan.plan_one(name, infos, info) is None
            &&& 0 <= e < scan.events.len() && scan.events[e].location == place && (forall|j: int|
                0 <= j < e ==> (#[trigger] scan.events[j]).location != place) ==> (scan.plan_one(
                name,
                infos,
                info,
            ) is Some <==> 0 <= scan.format.dyn_offset_offset + signed(info.address.1) - 0x8000_0000
                + scan.events[e].cfa <= scan.format.dyn_offset_mask)
        }),
{
    lemma_begins_with(name, "daq__"@);
    lemma_event_at(scan.events, info.unit_idx, (info.function->0)@);
}

/// A captured variable is registered only if its event is.
pub proof fn law_captured_variables_need_their_event(
    scan: Scan,
    event: Seq<char>,
    var: Seq<char>,
    infos: Seq<VarInfo>,
    info: VarInfo,
)
    requires
        is_head(event),
        forall|j: int|
            0 <= j < scan.events.len() ==> (#[trigger] scan.events[j]).name != event
                || scan.events[j].index != 0,
    ensures
        scan.plan_one("daq__"@ + (event + "__"@ + var), infos, info) is None,
{
    law_captured_names_tell_event_and_variable(event, var, event);
    lemma_event_named(scan.events, event, 0);
}

/// A captured variable outside of all functions that trigger an event is measured with the event that
/// it was captured with.
pub proof fn law_captured_variables_are_measured_with_their_event(
    scan: Scan,
    event: Seq<char>,
    var: Seq<char>,
    infos: Seq<VarInfo>,
    info: VarInfo,
    e: int,
)
    requires
        is_head(event),
        scan.plan_one("daq__"@ + (event + "__"@ + var), infos, info) is Some,
        (scan.plan_one("daq__"@ + (event + "__"@ + var), infos, info)->0).instance.object_type
            == McObjectType::Measurement,
        forall|j: int|
            0 <= j < scan.events.len() ==> (#[trigger] scan.events[j]).location != Some(
                (info.unit_idx, function_of(info)),
            ),
        0 <= e < scan.events.len(),
        scan.events[e].name == event && scan.events[e].index == 0,
        forall|j: int|
            0 <= j < e ==> !((#[trigger] scan.events[j]).name == event && scan.events[j].index == 0),
    ensures
        (scan.plan_one(
            "daq__"@ + (event + "__"@ + var),
            infos,
            info,
        )->0).instance.address.event_id == Some(scan.events[e].id),
{
    law_captured_names_tell_event_and_variable(event, var, event);
    lemma_event_named(scan.events, event, 0);
    lemma_event_at(scan.events, info.unit_idx, function_of(info));
}

/// A parameter lies as far behind the address of its segment as behind the start of its reference
/// page, whether that address was given to the segment or is its absolute one.
pub proof fn law_parameters_are_addressed_in_their_segment(
    scan: Scan,
    name: Seq<char>,
    infos: Seq<VarInfo>,
    info: VarInfo,
    k: int,
)
    requires
        scan.plan_one(name, infos, info) is Some,
        info.address.0 == 0,
        fits_segment(scan.segments, info.address.1),
        0 <= k < scan.segments.len(),
        scan.segments[k].mem_addr <= info.address.1 < scan.segments[k].mem_addr
            + scan.segments[k].size,
        forall|j: int|
            0 <= j < k ==> !((#[trigger] scan.segments[j]).mem_addr <= info.address.1
                < scan.segments[j].mem_addr + scan.segments[j].size),
    ensures
        ({
            let instance = (scan.plan_one(name, infos, info)->0).instance;
            let offset = info.address.1 - scan.segments[k].mem_addr;
            &&& instance.object_type == McObjectType::Characteristic
            &&& scan.segments[k].address matches SegmentAddress::Known { addr, .. }
                ==> instance.address.addr == addr + offset
            &&& scan.segments[k].address matches SegmentAddress::Absolute(addr)
                ==> instance.address.addr == addr + offset
            &&& !(scan.segments[k].address is Relative)
        }),
{
    lemma_segment_with(scan.segments, info.address.1);
    let f = segment_with(scan.segments, info.address.1);
    assert(segment_holds(scan.segments[k], info.address.1));
    assert(f is Some);
    assert(segment_holds(scan.segments[f->0], info.address.1));
    if f->0 < k {
        assert(!(scan.segments[f->0].mem_addr <= info.address.1 < scan.segments[f->0].mem_addr
            + scan.segments[f->0].size));
    }
}

/// What is planned for a variable is what is planned for each of its instances, in their order.
pub proof fn law_every_instance_is_planned(
    scan: Scan,
    name: Seq<char>,
    infos: Seq<VarInfo>,
    n: nat,
)
    requires
        n <= infos.len(),
    ensures
        scan.plan_infos(name, infos, n) == infos.take(n as int).filter(
            |i: VarInfo| scan.plan_one(name, infos, i) is Some,
        ).map_values(|i: VarInfo| scan.plan_one(name, infos, i)->0),
    decreases n,
{
    reveal(Seq::filter);
    let is_planned = |i: VarInfo| scan.plan_one(name, infos, i) is Some;
    let planned = |i: VarInfo| scan.plan_one(name, infos, i)->0;
    let all = infos.take(n as int);
    if n > 0 {
        law_every_instance_is_planned(scan, name, infos, (n - 1) as nat);
        assert(all.drop_last() =~= infos.take(n - 1));
        assert(all.last() == infos[n - 1]);
    }
    assert(scan.plan_infos(name, infos, n) =~= all.filter(is_planned).map_values(planned));
}

/// The number of instances that are planned for the first `n` variables.
pub open spec fn planned_total(scan: Scan, n: nat) -> nat
    decreases n,
{
    if n == 0 {
        0
    } else {
        let (name, infos) = scan.dd.vars()[n - 1];
        planned_total(scan, (n - 1) as nat) + infos.filter(
            |i: VarInfo| scan.plan_one(name, infos, i) is Some,
        ).len()
    }
}

/// What is planned for all variables holds what is planned for every instance of each, and nothing
/// else; as often as there are such instances. Variables that come first are planned first.
pub proof fn law_every_variable_is_planned(scan: Scan, n: nat, m: nat, v: int, j: int)
    requires
        m <= n <= scan.dd.vars().len(),
    ensures
        scan.plan(m).is_prefix_of(scan.plan(n)),
        scan.plan(n).len() == planned_total(scan, n),
        0 <= v < n && 0 <= j < scan.dd.vars()[v].1.len() ==> (scan.plan_one(
            scan.dd.vars()[v].0,
            scan.dd.vars()[v].1,
            scan.dd.vars()[v].1[j],
        ) matches Some(p) ==> scan.plan(n).contains(p)),
        forall|p: Planned| #[trigger]
            scan.plan(n).contains(p) ==> exists|a: int, b: int|
                0 <= a < n && 0 <= b < scan.dd.vars()[a].1.len() && Some(p) == scan.plan_one(
                    scan.dd.vars()[a].0,
                    scan.dd.vars()[a].1,
                    #[trigger] scan.dd.vars()[a].1[b],
                ),
    decreases n,
{
    let after = scan.plan(n);
    if n > 0 {
        let k = (n - 1) as nat;
        let (name, infos) = scan.dd.vars()[n - 1];
        let before = scan.plan(k);
        let more = scan.plan_infos(name, infos, infos.len());
        law_every_variable_is_planned(scan, k, if m < n { m } else { k }, v, j);
        law_every_instance_is_planned(scan, name, infos, infos.len());
        assert(infos.take(infos.len() as int) =~= infos);
        if m < n {
            let p = scan.plan(m);
            assert(p =~= after.take(p.len() as int)) by {
                assert(before.take(p.len() as int) == p);
            }
        } else {
            assert(after =~= after.take(after.len() as int));
        }
        if 0 <= v < n && 0 <= j < scan.dd.vars()[v].1.len() {
            if let Some(p) = scan.plan_one(
                scan.dd.vars()[v].0,
                scan.dd.vars()[v].1,
                scan.dd.vars()[v].1[j],
            ) {
                if v < k {
                    let x = choose|x: int| 0 <= x < before.len() && before[x] == p;
                    assert(after[x] == p);
                } else {
                    lemma_planned_instance(scan, name, infos, j, infos.len());
                    let x = choose|x: int| 0 <= x < more.len() && more[x] == p;
                    assert(after[before.len() + x] == p);
                }
            }
        }
        assert forall|p: Planned| #[trigger] after.contains(p) implies exists|a: int, b: int|
            0 <= a < n && 0 <= b < scan.dd.vars()[a].1.len() && Some(p) == scan.plan_one(
                scan.dd.vars()[a].0,
                scan.dd.vars()[a].1,
                #[trigger] scan.dd.vars()[a].1[b],
            ) by {
            let x = choose|x: int| 0 <= x < after.len() && after[x] == p;
            if x < before.len() {
                assert(before[x] == p);
                assert(before.contains(p));
            } else {
                assert(more[x - before.len()] == p);
                let b = lemma_instance_of_plan(
                    scan,
                    name,
                    infos,
                    x - before.len(),
                    infos.len(),
                );
                assert(Some(p) == scan.plan_one(
                    scan.dd.vars()[n - 1].0,
                    scan.dd.vars()[n - 1].1,
                    scan.dd.vars()[n - 1].1[b],
                ));
            }
        }
    } else {
        assert(after =~= after.take(0));
    }
}

proof fn lemma_planned_instance(
    scan: Scan,
    name: Seq<char>,
    infos: Seq<VarInfo>,
    j: int,
    n: nat,
)
    requires
        0 <= j < n <= infos.len(),
        scan.plan_one(name, infos, infos[j]) is Some,
    ensures
        scan.plan_infos(name, infos, n).contains(scan.plan_one(name, infos, infos[j])->0),
    decreases n,
{
    let p = scan.plan_one(name, infos, infos[j])->0;
    let all = scan.plan_infos(name, infos, n);
    if j == n - 1 {
        assert(all[all.len() - 1] == p);
    } else {
        lemma_planned_instance(scan, name, infos, j, (n - 1) as nat);
        let before = scan.plan_infos(name, infos, (n - 1) as nat);
        let x = choose|x: int| 0 <= x < before.len() && before[x] == p;
        assert(all[x] == p);
    }
}

proof fn lemma_instance_of_plan(
    scan: Scan,
    name: Seq<char>,
    infos: Seq<VarInfo>,
    x: int,
    n: nat,
) -> (j: int)
    requires
        n <= infos.len(),
        0 <= x < scan.plan_infos(name, infos, n).len(),
    ensures
        0 <= j < n,
        Some(scan.plan_infos(name, infos, n)[x]) == scan.plan_one(name, infos, infos[j]),
    decreases n,
{
    let before = scan.plan_infos(name, infos, (n - 1) as nat);
    if x < before.len() {
        lemma_instance_of_plan(scan, name, infos, x, (n - 1) as nat)
    } else {
        n - 1
    }
}

/// Without calibration segments all variables can be registered, if the types can.
pub proof fn law_variables_without_segments_can_be_registered(scan: Scan, n: nat)
    requires
        n <= scan.dd.vars().len(),
        scan.segments.len() == 0,
        forall|r: usize| #[trigger]
            scan.dd.types@.contains_key(r) ==> can_register_dims(scan.dd, scan.dd.types@[r]),
    ensures
        scan.fits(n),
{
}

/// The text of enumerators is made of the texts of its parts, with a space between them; a single
/// enumerator is written as its value, a space and its name in quotation marks.
pub proof fn law_enumerator_texts_join(
    a: Seq<(String, i64)>,
    b: Seq<(String, i64)>,
    name: String,
    value: i64,
)
    ensures
        a.len() > 0 && b.len() > 0 ==> enumerators_text(a + b, (a + b).len()) == enumerators_text(
            a,
            a.len(),
        ) + " "@ + enumerators_text(b, b.len()),
        enumerators_text(seq![(name, value)], 1) == decimal(value as int) + seq![' ', '"'] + name@
            + seq!['"'],
{
    if a.len() > 0 && b.len() > 0 {
        lemma_enumerators(a, b, b.len());
    }
    reveal_with_fuel(enumerators_text, 2);
    reveal_strlit(" \"");
    reveal_strlit("\"");
    assert(" \""@ =~= seq![' ', '"']);
    assert("\""@ =~= seq!['"']);
    assert(Seq::<char>::empty() + decimal(value as int) =~= decimal(value as int));
}

proof fn lemma_enumerators_prefix(a: Seq<(String, i64)>, c: Seq<(String, i64)>, n: nat)
    requires
        n <= a.len() <= c.len(),
        forall|i: int| 0 <= i < n ==> #[trigger] a[i] == c[i],
    ensures
        enumerators_text(a, n) == enumerators_text(c, n),
    decreases n,
{
    if n > 0 {
        lemma_enumerators_prefix(a, c, (n - 1) as nat);
        assert(a[n - 1] == c[n - 1]);
    }
}

proof fn lemma_enumerators(a: Seq<(String, i64)>, b: Seq<(String, i64)>, n: nat)
    requires
        a.len() > 0,
        1 <= n <= b.len(),
    ensures
        enumerators_text(a + b, a.len() + n) == enumerators_text(a, a.len()) + " "@
            + enumerators_text(b, n),
    decreases n,
{
    let c = a + b;
    let (name, value) = b[n - 1];
    let tail = decimal(value as int) + " \""@ + name@ + "\""@;
    assert(c[a.len() + n - 1] == b[n - 1]);
    lemma_enumerators_prefix(a, c, a.len());
    let x = enumerators_text(a, a.len());
    let y = enumerators_text(b, (n - 1) as nat);
    if n == 1 {
        assert(enumerators_text(c, a.len() + n) =~= x + " "@ + tail);
        assert(enumerators_text(b, n) =~= tail) by {
            reveal_with_fuel(enumerators_text, 2);
        }
    } else {
        lemma_enumerators(a, b, (n - 1) as nat);
        assert(enumerators_text(c, a.len() + n) =~= (x + " "@ + y) + " "@ + tail);
        assert(enumerators_text(b, n) =~= y + " "@ + tail);
        assert((x + " "@ + y) + " "@ + tail =~= x + " "@ + (y + " "@ + tail));
    }
}

/// A variable of an enum with enumerators carries their texts as its unit; any other one has none.
pub proof fn law_enums_carry_their_texts(
    scan: Scan,
    name: Seq<char>,
    infos: Seq<VarInfo>,
    info: VarInfo,
)
    requires
        scan.plan_one(name, infos, info) is Some,
    ensures
        ({
            let p = scan.plan_one(name, infos, info)->0;
            match p.type_info.datatype {
                DbgDataType::Enum { enumerators, .. } => if enumerators@.len() == 0 {
                    p.instance.unit is None
                } else {
                    p.instance.unit == Some(enumerators_text(enumerators@, enumerators@.len()))
                },
                _ => p.instance.unit is None,
            }
        }),
{
}

/// Every type that comes in with planned instances is that of a struct, with its size and its members.
pub proof fn law_types_of_variables_are_structs(
    scan: Scan,
    st: Seq<TypedefView>,
    plan: Seq<Planned>,
    i: int,
)
    requires
        forall|k: int|
            0 <= k < plan.len() ==> can_register_dims(scan.dd, (#[trigger] plan[k]).type_info),
        st.len() <= i < scan.types_after(st, plan).len(),
    ensures
        ({
            let td = scan.types_after(st, plan)[i];
            is_typedef(scan.dd, scan.format, td, McObjectType::Measurement) || is_typedef(
                scan.dd,
                scan.format,
                td,
                McObjectType::Characteristic,
            )
        }),
    decreases plan.len(),
{
    if plan.len() > 0 {
        let init = plan.drop_last();
        let before = scan.types_after(st, init);
        let t = element_type(plan.last().type_info);
        let object_type = plan.last().instance.object_type;
        assert(can_register_dims(scan.dd, plan[plan.len() - 1].type_info));
        assert forall|k: int| 0 <= k < init.len() implies can_register_dims(
            scan.dd,
            (#[trigger] init[k]).type_info,
        ) by {
            assert(init[k] == plan[k]);
        }
        let fuel = lemma_registration_total(scan.dd, scan.format, before, t, object_type);
        lemma_typedefs_after(scan.dd, scan.format, fuel, before, t, object_type);
        lemma_registration_keeps(scan.dd, scan.format, fuel, before, t, object_type);
        if i < before.len() {
            let after = scan.types_after(st, plan);
            assert(after.take(before.len() as int)[i] == before[i]);
            law_types_of_variables_are_structs(scan, st, init, i);
        } else {
            law_added_types_are_structs(scan.dd, scan.format, before, t, object_type, i);
        }
    }
}

/// Numbers, enums, pointers, unions, bit fields and functions can always be registered, and so can
/// arrays of them with a dimension.
pub proof fn law_plain_types_can_be_registered(scan: Scan, t: TypeInfo)
    requires
        t.datatype matches DbgDataType::Array { dim, .. } ==> dim@.len() > 0,
        !(element_type(t).datatype is Struct),
        !(element_type(t).datatype is TypeRef),
    ensures
        can_register_dims(scan.dd, t),
{
    assert(can_register(scan.dd, element_type(t)));
}

/// What decides about variables is the program, the events and segments of the registry, and what is
/// asked for.
pub proof fn law_scans_are_of_the_registry(
    reader: ElfReader,
    reg: Registry,
    format: A2lFormat,
    seg_relative: bool,
    unit_idx_limit: usize,
    name_filter: Seq<char>,
    unit_filter: Seq<char>,
)
    ensures
        ({
            let scan = reader.scan(
                reg,
                format,
                seg_relative,
                unit_idx_limit,
                name_filter,
                unit_filter,
            );
            &&& scan.dd == reader.debug_data
            &&& scan.format == format
            &&& scan.events == reg.event_list@
            &&& scan.segments == reg.cal_seg_list@
            &&& scan.seg_relative == seg_relative
            &&& scan.unit_idx_limit == unit_idx_limit
            &&& scan.name_filter == name_filter
            &&& scan.unit_filter == unit_filter
        }),
{
}

/// Variables can be registered without segments, if the types can and the event id has its place in an
/// address; not if it has none.
pub proof fn law_variables_can_be_registered_without_segments(
    reader: ElfReader,
    reg: Registry,
    format: A2lFormat,
    unit_idx_limit: usize,
    name_filter: Seq<char>,
    unit_filter: Seq<char>,
)
    requires
        reg.cal_seg_list@.len() == 0,
        forall|r: usize| #[trigger]
            reader.debug_data.types@.contains_key(r) ==> can_register_dims(
                reader.debug_data,
                reader.debug_data.types@[r],
            ),
    ensures
        reader.variables_ok(reg, format, unit_idx_limit, name_filter, unit_filter)
            <==> format.dyn_offset_bits < 64,
{
    let scan = reader.scan(reg, format, false, unit_idx_limit, name_filter, unit_filter);
    law_variables_without_segments_can_be_registered(scan, reader.debug_data.vars().len());
}

/// The instances of a plan are those that were planned, in their order.
pub proof fn law_planned_instances_are_registered(plan: Seq<Planned>, i: int)
    ensures
        instances_of(plan).len() == plan.len(),
        0 <= i < plan.len() ==> instances_of(plan)[i] == plan[i].instance,
{
}

/// A memory address has an A2L address if no segment holds it, or if the first one that does lies at an
/// address and the offset and the sum are not too large.
pub proof fn law_addresses_fit_their_segment(
    scan: Scan,
    mem_addr: u64,
    k: int,
)
    ensures
        (forall|j: int|
            0 <= j < scan.segments.len() ==> !segment_holds(#[trigger] scan.segments[j], mem_addr))
            ==> fits_segment(scan.segments, mem_addr),
        0 <= k < scan.segments.len() && segment_holds(scan.segments[k], mem_addr) && (forall|j: int|
            0 <= j < k ==> !segment_holds(#[trigger] scan.segments[j], mem_addr)) ==> {
            let offset = mem_addr - scan.segments[k].mem_addr;
            fits_segment(scan.segments, mem_addr) <==> offset < 0x1_0000 && match scan.segments[k].address {
                SegmentAddress::Known { addr, .. } => addr + offset < 0x1_0000_0000,
                SegmentAddress::Absolute(addr) => addr + offset < 0x1_0000_0000,
                SegmentAddress::Relative => false,
            }
        },
{
    lemma_segment_with(scan.segments, mem_addr);
}

/// A struct can be registered if its members are no structs or references, and those that are arrays
/// have a dimension and such elements. What lies too far behind its start does not matter.
pub proof fn law_flat_structs_can_be_registered(scan: Scan, t: TypeInfo)
    requires
        t.datatype is Struct,
        forall|i: int|
            0 <= i < t.datatype->Struct_members@.len() && (
            #[trigger] t.datatype->Struct_members@[i]).1.1 < 0x1_0000 ==> {
                let m = t.datatype->Struct_members@[i].1.0;
                &&& m.datatype matches DbgDataType::Array { dim, .. } ==> dim@.len() > 0
                &&& !(element_type(m).datatype is Struct)
                &&& !(element_type(m).datatype is TypeRef)
            },
    ensures
        can_register_dims(scan.dd, t),
{
    assert forall|n: nat| #[trigger] sound_to(scan.dd, t, n) by {
        reveal_with_fuel(sound_to, 2);
    }
}

/// A chain of references ends where a type is no reference or is not known; a reference to a known type
/// ends as that type does.
pub proof fn law_chains_end_with_their_target(types: Map<usize, TypeInfo>, t: TypeInfo)
    ensures
        !(t.datatype is TypeRef) ==> chain_ends(types, t),
        t.datatype is TypeRef && !types.contains_key(t.datatype->TypeRef_0) ==> chain_ends(types, t),
        t.datatype is TypeRef && types.contains_key(t.datatype->TypeRef_0) ==> (chain_ends(types, t)
            <==> chain_ends(types, types[t.datatype->TypeRef_0])),
{
    if !(t.datatype is TypeRef) || !types.contains_key(t.datatype->TypeRef_0) {
        assert(target(types, 0, t) == Some(t));
    } else {
        let u = types[t.datatype->TypeRef_0];
        if chain_ends(types, t) {
            let fuel = choose|fuel: nat| (#[trigger] target(types, fuel, t)) is Some;
            assert(target(types, (fuel - 1) as nat, u) is Some);
        }
        if chain_ends(types, u) {
            let fuel = choose|fuel: nat| (#[trigger] target(types, fuel, u)) is Some;
            assert(target(types, fuel + 1, t) is Some);
        }
    }
}

/// An instance is registered with the type that it refers to, whether it lies in memory or on the stack.
pub proof fn law_instances_have_the_type_they_refer_to(
    scan: Scan,
    name: Seq<char>,
    infos: Seq<VarInfo>,
    info: VarInfo,
)
    requires
        scan.plan_one(name, infos, info) is Some,
    ensures
        ({
            let p = scan.plan_one(name, infos, info)->0;
            let t = scan.dd.types@[info.typeref];
            &&& scan.dd.types@.contains_key(info.typeref)
            &&& p.type_info == t
            &&& is_measurable(t)
            &&& p.instance.dim_type == dim_type(scan.dd, scan.format, t)
        }),
{
}

/// An instance is local to the function that it was found in, and to the empty name where it was found
/// outside of all functions.
pub proof fn law_instances_are_local_to_their_function(info: VarInfo)
    ensures
        info.function matches Some(f) ==> function_of(info) == f@,
        info.function is None ==> function_of(info).len() == 0,
{
}

/// A captured variable whose event is registered is registered exactly where any other variable would
/// be, with the same type, use and address; only its name and its event are its own.
pub proof fn law_captured_variables_are_registered_like_others(
    scan: Scan,
    event: Seq<char>,
    var: Seq<char>,
    plain: Seq<char>,
    infos: Seq<VarInfo>,
    info: VarInfo,
    e: int,
)
    requires
        is_head(event),
        0 <= e < scan.events.len(),
        scan.events[e].name == event && scan.events[e].index == 0,
        !is_internal_name(plain),
        !begins_with(plain, "daq__"@),
        scan.name_filter.len() == 0,
    ensures
        ({
            let p = scan.plan_one("daq__"@ + (event + "__"@ + var), infos, info);
            let q = scan.plan_one(plain, infos, info);
            &&& p is Some <==> q is Some
            &&& p is Some ==> {
                let x = (p->0).instance;
                let y = (q->0).instance;
                &&& x.dim_type == y.dim_type
                &&& x.object_type == y.object_type
                &&& x.unit == y.unit
                &&& x.address.addr == y.address.addr
                &&& x.address.addr_ext == y.address.addr_ext
                &&& (p->0).type_info == (q->0).type_info
            }
        }),
{
    let name = "daq__"@ + (event + "__"@ + var);
    law_captured_names_tell_event_and_variable(event, var, plain);
    lemma_event_named(scan.events, event, 0);
    assert(scan.default_event(name) is Some);
    reveal_strlit("daq__");
    reveal_strlit("__");
    reveal_strlit("gXcp");
    reveal_strlit("gA2l");
    reveal_strlit("calseg__");
    reveal_strlit("calblk__");
    reveal_strlit("evt__");
    reveal_strlit("trg__");
    reveal_strlit("xcp_meta__");
    assert(name[0] == 'd');
    assert(!is_internal_name(name)) by {
        lemma_other_beginning(name, "__"@);
        lemma_other_beginning(name, "gXcp"@);
        lemma_other_beginning(name, "gA2l"@);
        lemma_other_beginning(name, "calseg__"@);
        lemma_other_beginning(name, "calblk__"@);
        lemma_other_beginning(name, "evt__"@);
        lemma_other_beginning(name, "trg__"@);
        lemma_other_beginning(name, "xcp_meta__"@);
    }
}

proof fn lemma_other_beginning(name: Seq<char>, start: Seq<char>)
    requires
        name.len() > 0,
        start.len() > 0,
        name[0] != start[0],
    ensures
        !start.is_prefix_of(name),
{
    if start.is_prefix_of(name) {
        assert(name.take(start.len() as int)[0] == name[0]);
    }
}

/// The types that an instance brings in are for its own use: every field of them is a measurement or
/// a parameter as the instance is.
pub proof fn law_types_come_in_for_the_use_of_their_instance(
    scan: Scan,
    st: Seq<TypedefView>,
    plan: Seq<Planned>,
    p: Planned,
    i: int,
    k: int,
)
    requires
        can_register_dims(scan.dd, p.type_info),
        scan.types_after(st, plan).len() <= i < scan.types_after(st, plan.push(p)).len(),
        0 <= k < scan.types_after(st, plan.push(p))[i].fields.len(),
    ensures
        scan.types_after(st, plan.push(p))[i].fields[k].object_type == p.instance.object_type,
{
    let before = scan.types_after(st, plan);
    let after = scan.types_after(st, plan.push(p));
    assert(plan.push(p).drop_last() =~= plan);
    let object_type = p.instance.object_type;
    law_added_types_are_structs(
        scan.dd,
        scan.format,
        before,
        element_type(p.type_info),
        object_type,
        i,
    );
    let u = choose|u: TypeInfo| #[trigger]
        is_typedef_of(scan.dd, scan.format, after[i], u, object_type);
    if let DbgDataType::Struct { members, .. } = u.datatype {
        law_members_become_fields(
            scan.dd,
            scan.format,
            members@,
            members@.len(),
            object_type,
        );
    }
}

} // verus!
