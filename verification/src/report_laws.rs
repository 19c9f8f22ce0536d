//! What the report on the debug information tells: which lines it has, and what each of them holds.
use vstd::prelude::*;

use crate::debuginfo::{
    numbers_text, type_size, type_text, CfaInfo, DbgDataType, DebugData, TypeInfo, VarInfo,
};
use crate::report::{
    by_start, function_groups, function_line, function_lines, heading, instance_count, is_marker,
    joined, section_lines, unit_seen,
};
use crate::text::{decimal, hex, strings};
use crate::text_laws::{begins_with, lemma_begins_with};
use crate::variable_laws::law_instances_count_up_to_the_limit;

verus! {

/// There is one line for each compilation unit, with its number and its simple name.
pub proof fn law_units_are_listed(dd: DebugData, n: nat, i: int)
    ensures
        dd.unit_lines(n).len() == n,
        0 <= i < n ==> (dd.unit_name(i) matches Some(name) ==> dd.unit_lines(n)[i] == "  Unit "@
            + decimal(i) + ": "@ + name),
        0 <= i < n && dd.unit_name(i) is None ==> dd.unit_lines(n)[i] == "  Unit "@ + decimal(i)
            + ": "@ + "<unnamed>"@,
    decreases n,
{
    if n > 0 {
        law_units_are_listed(dd, (n - 1) as nat, i);
    }
}

/// There is one line for each demangled name, with the mangled and the demangled name.
pub proof fn law_demangled_names_are_listed(dd: DebugData, n: nat, i: int)
    requires
        n <= dd.demangled_names.order().len(),
    ensures
        dd.demangled_lines(n).len() == n,
        0 <= i < n ==> dd.demangled_lines(n)[i] == "  '"@ + dd.demangled_names.order()[i].0
            + "' -> '"@ + dd.demangled_names.order()[i].1@ + "'"@,
    decreases n,
{
    if n > 0 {
        law_demangled_names_are_listed(dd, (n - 1) as nat, i);
    }
}

/// There is one line for each section, with its name, its start, how far that lies behind the start
/// of the section before it, and its end.
pub proof fn law_sections_are_listed(s: Seq<(Seq<char>, (u64, u64))>, n: nat, i: int)
    requires
        n <= s.len(),
    ensures
        section_lines(s, n).len() == n,
        0 <= i < n ==> section_lines(s, n)[i] == "  '"@ + s[i].0 + "': 0x"@ + hex(
            s[i].1.0 as nat,
            8,
            false,
        ) + ", "@ + decimal(
            s[i].1.0 - if i > 0 {
                s[i - 1].1.0 as int
            } else {
                0
            },
        ) + " bytes ("@ + decimal(s[i].1.1 as int) + ")"@,
    decreases n,
{
    if n > 0 {
        law_sections_are_listed(s, (n - 1) as nat, i);
    }
}

/// There is one line for each reference to a known type, with its size and unit.
pub proof fn law_references_are_listed(dd: DebugData, refs: Seq<usize>, n: nat)
    requires
        n <= refs.len(),
    ensures
        dd.type_ref_lines(refs, n) == refs.take(n as int).filter(
            |r: usize| dd.types@.contains_key(r),
        ).map_values(
            |r: usize|
                "  -> type_ref="@ + decimal(r as int) + ", size="@ + decimal(
                    type_size(dd.types@[r]) as int,
                ) + " bytes, unit="@ + decimal(dd.types@[r].unit_idx as int),
        ),
    decreases n,
{
    reveal(Seq::filter);
    let known = |r: usize| dd.types@.contains_key(r);
    let line = |r: usize|
        "  -> type_ref="@ + decimal(r as int) + ", size="@ + decimal(type_size(dd.types@[r]) as int)
            + " bytes, unit="@ + decimal(dd.types@[r].unit_idx as int);
    let all = refs.take(n as int);
    if n > 0 {
        law_references_are_listed(dd, refs, (n - 1) as nat);
        assert(all.drop_last() =~= refs.take(n - 1));
        assert(all.last() == refs[n - 1]);
    }
    assert(dd.type_ref_lines(refs, n) =~= all.filter(known).map_values(line));
}

/// Each name of types has a line with the number of its references, followed by those of the references;
/// the lines of names that come first stand in front.
pub proof fn law_type_names_are_listed(dd: DebugData, n: nat, i: int)
    requires
        0 <= i < n <= dd.typenames.order().len(),
    ensures
        ({
            let (name, refs) = dd.typenames.order()[i];
            let all = dd.type_name_lines(n);
            let before = dd.type_name_lines(i as nat);
            let upto = dd.type_name_lines((i + 1) as nat);
            &&& before.is_prefix_of(upto)
            &&& upto.is_prefix_of(all)
            &&& upto.skip(before.len() as int) == seq![
                "Type name '"@ + name + "': "@ + decimal(refs@.len() as int) + " references"@,
            ] + dd.type_ref_lines(refs@, refs@.len())
        }),
    decreases n,
{
    let (name, refs) = dd.typenames.order()[i];
    let all = dd.type_name_lines(n);
    let before = dd.type_name_lines(i as nat);
    let upto = dd.type_name_lines((i + 1) as nat);
    assert(before =~= upto.take(before.len() as int));
    assert(upto.skip(before.len() as int) =~= seq![
        "Type name '"@ + name + "': "@ + decimal(refs@.len() as int) + " references"@,
    ] + dd.type_ref_lines(refs@, refs@.len()));
    if i + 1 < n {
        law_type_names_are_listed(dd, (n - 1) as nat, i);
        let last = dd.type_name_lines((n - 1) as nat);
        assert(last.take(upto.len() as int) == upto);
        assert(upto =~= all.take(upto.len() as int));
    } else {
        assert(upto =~= all.take(upto.len() as int));
    }
}

/// There is one line for each type, with its reference, name, size, unit and kind.
pub proof fn law_types_are_listed(dd: DebugData, refs: Seq<usize>, n: nat, i: int)
    requires
        n <= refs.len(),
    ensures
        dd.type_lines(refs, n).len() == n,
        0 <= i < n ==> {
            let t = dd.types@[refs[i]];
            let name = match t.name {
                Some(s) => s@,
                None => Seq::empty(),
            };
            dd.type_lines(refs, n)[i] == "TypeRef "@ + decimal(refs[i] as int) + ": name = '"@ + name
                + "', size = "@ + decimal(type_size(t) as int) + " bytes, unit = "@ + decimal(
                t.unit_idx as int,
            ) + ", type="@ + type_text(t)
        },
    decreases n,
{
    reveal_strlit("");
    assert(""@ =~= Seq::<char>::empty());
    if n > 0 {
        law_types_are_listed(dd, refs, (n - 1) as nat, i);
    }
}

/// Namespaces are joined by two colons, in their order.
pub proof fn law_joined_names_extend(names: Seq<Seq<char>>, n: nat)
    requires
        n < names.len(),
    ensures
        joined(names, 0).len() == 0,
        n == 0 ==> joined(names, 1) == names[0],
        n > 0 ==> joined(names, n + 1) == joined(names, n) + seq![':', ':'] + names[n as int],
{
    reveal_strlit("::");
    assert("::"@ =~= seq![':', ':']);
}

/// The markers are the variables whose names begin with that of a segment, a block, an event,
/// a trigger or metadata.
pub proof fn law_markers_are_known_by_their_beginning(name: Seq<char>)
    ensures
        is_marker(name) <==> begins_with(name, "xcp_meta__"@) || begins_with(name, "calblk__"@)
            || begins_with(name, "calseg__"@) || begins_with(name, "evt__"@) || begins_with(
            name,
            "trg__"@,
        ),
{
    lemma_begins_with(name, "xcp_meta__"@);
    lemma_begins_with(name, "calblk__"@);
    lemma_begins_with(name, "calseg__"@);
    lemma_begins_with(name, "evt__"@);
    lemma_begins_with(name, "trg__"@);
}

/// Where an instance lies is told by its unit, its function, its namespaces and its address, with the
/// address extension in front.
pub proof fn law_places_are_told(dd: DebugData, info: VarInfo)
    ensures
        ({
            let unit = match dd.unit_name(info.unit_idx as int) {
                Some(name) => name,
                None => "<unnamed>"@,
            };
            let function = match info.function {
                Some(f) => f@,
                None => "<global>"@,
            };
            dd.place_text(info) == unit + ":'"@ + function + "' "@ + joined(
                strings(info.namespaces@),
                info.namespaces@.len(),
            ) + ": addr="@ + decimal(info.address.0 as int) + ":0x"@ + hex(
                info.address.1 as nat,
                8,
                true,
            )
        }),
{
}

/// There is one line for each marker, in their order: with its place, or with the number of its
/// instances where there is not exactly one.
pub proof fn law_markers_are_listed(dd: DebugData, n: nat)
    requires
        n <= dd.vars().len(),
    ensures
        ({
            let markers = dd.vars().take(n as int).filter(
                |v: (Seq<char>, Seq<VarInfo>)| is_marker(v.0),
            );
            let lines = dd.marker_lines(n);
            &&& lines.len() == markers.len()
            &&& forall|i: int|
                0 <= i < lines.len() ==> #[trigger] lines[i] == if markers[i].1.len() == 1 {
                    markers[i].0 + "':  "@ + dd.place_text(markers[i].1[0])
                } else {
                    decimal(markers[i].1.len() as int) + " instances of '"@ + markers[i].0
                        + "' found, skipped"@
                }
        }),
    decreases n,
{
    reveal(Seq::filter);
    let keep = |v: (Seq<char>, Seq<VarInfo>)| is_marker(v.0);
    if n > 0 {
        law_markers_are_listed(dd, (n - 1) as nat);
        let all = dd.vars().take(n as int);
        assert(all.drop_last() =~= dd.vars().take(n - 1));
        assert(all.last() == dd.vars()[n - 1]);
        let before = dd.marker_lines((n - 1) as nat);
        let lines = dd.marker_lines(n);
        let markers = all.filter(keep);
        assert forall|i: int| 0 <= i < lines.len() implies #[trigger] lines[i] == if markers[i].1.len()
            == 1 {
            markers[i].0 + "':  "@ + dd.place_text(markers[i].1[0])
        } else {
            decimal(markers[i].1.len() as int) + " instances of '"@ + markers[i].0
                + "' found, skipped"@
        } by {
            if i < before.len() {
                assert(lines[i] == before[i]);
            }
        }
    }
}

/// A variable is listed if it has an instance in the units up to the limit and is no internal one;
/// from level 5 on also those whose name begins with two underscores.
pub proof fn law_listed_variables(
    dd: DebugData,
    level: usize,
    unit_idx_limit: usize,
    name: Seq<char>,
    infos: Seq<VarInfo>,
)
    ensures
        dd.is_listed(level, unit_idx_limit, name, infos) <==> infos.filter(
            |i: VarInfo| i.unit_idx <= unit_idx_limit,
        ).len() > 0 && !begins_with(name, "gXcp"@) && !begins_with(name, "gA2l"@) && (level >= 5
            || !begins_with(name, "__"@)),
{
    law_instances_count_up_to_the_limit(infos, unit_idx_limit, infos.len());
    assert(infos.take(infos.len() as int) =~= infos);
    lemma_begins_with(name, "gXcp"@);
    lemma_begins_with(name, "gA2l"@);
    lemma_begins_with(name, "__"@);
}

/// The line of an instance tells its place and, from level 2 on, the name and the size of its type.
pub proof fn law_instance_lines_tell_place_and_type(
    dd: DebugData,
    level: usize,
    start: Seq<char>,
    info: VarInfo,
)
    ensures
        level < 2 || !dd.types@.contains_key(info.typeref) ==> dd.instance_line(level, start, info)
            == start + dd.place_text(info),
        level >= 2 && dd.types@.contains_key(info.typeref) ==> {
            let t = dd.types@[info.typeref];
            let name = match t.name {
                Some(s) => s@,
                None => Seq::empty(),
            };
            dd.instance_line(level, start, info) == start + dd.place_text(info) + ", type='"@ + name
                + "', size="@ + decimal(type_size(t) as int)
        },
{
    reveal_strlit("");
    assert(""@ =~= Seq::<char>::empty());
}

/// There is one line for each instance in the units up to the limit, in their order.
pub proof fn law_instances_are_listed(
    dd: DebugData,
    level: usize,
    unit_idx_limit: usize,
    start: Seq<char>,
    infos: Seq<VarInfo>,
    n: nat,
)
    requires
        n <= infos.len(),
    ensures
        dd.instance_lines(level, unit_idx_limit, start, infos, n) == infos.take(n as int).filter(
            |i: VarInfo| i.unit_idx <= unit_idx_limit,
        ).map_values(|i: VarInfo| dd.instance_line(level, start, i)),
    decreases n,
{
    reveal(Seq::filter);
    let keep = |i: VarInfo| i.unit_idx <= unit_idx_limit;
    let line = |i: VarInfo| dd.instance_line(level, start, i);
    let all = infos.take(n as int);
    if n > 0 {
        law_instances_are_listed(dd, level, unit_idx_limit, start, infos, (n - 1) as nat);
        assert(all.drop_last() =~= infos.take(n - 1));
        assert(all.last() == infos[n - 1]);
    }
    assert(dd.instance_lines(level, unit_idx_limit, start, infos, n) =~= all.filter(keep).map_values(
        line,
    ));
}

/// A single instance is named on its own line; several instances stand under a line with their name
/// and number.
pub proof fn law_variables_are_named_in_the_report(
    dd: DebugData,
    level: usize,
    unit_idx_limit: usize,
    name: Seq<char>,
    infos: Seq<VarInfo>,
)
    ensures
        ({
            let shown = infos.filter(|i: VarInfo| i.unit_idx <= unit_idx_limit);
            let lines = dd.variable_lines_of(level, unit_idx_limit, name, infos);
            &&& shown.len() <= 1 ==> lines == shown.map_values(
                |i: VarInfo| dd.instance_line(level, name + " :  "@, i),
            )
            &&& shown.len() > 1 ==> lines == seq![
                name + " "@ + decimal(shown.len() as int) + ": "@,
            ] + shown.map_values(|i: VarInfo| dd.instance_line(level, " "@, i))
        }),
{
    law_instances_count_up_to_the_limit(infos, unit_idx_limit, infos.len());
    law_instances_are_listed(dd, level, unit_idx_limit, name + " :  "@, infos, infos.len());
    law_instances_are_listed(dd, level, unit_idx_limit, " "@, infos, infos.len());
    assert(infos.take(infos.len() as int) =~= infos);
}

/// The lines of every listed variable are in the report, those of variables that come first in front;
/// a variable that is not listed adds none.
pub proof fn law_variables_are_listed(
    dd: DebugData,
    level: usize,
    unit_idx_limit: usize,
    n: nat,
    v: int,
)
    requires
        0 <= v < n <= dd.vars().len(),
    ensures
        ({
            let all = dd.variable_lines(level, unit_idx_limit, n);
            let before = dd.variable_lines(level, unit_idx_limit, v as nat);
            let upto = dd.variable_lines(level, unit_idx_limit, (v + 1) as nat);
            let (name, infos) = dd.vars()[v];
            &&& before.is_prefix_of(upto)
            &&& upto.is_prefix_of(all)
            &&& dd.is_listed(level, unit_idx_limit, name, infos) ==> upto.skip(before.len() as int)
                == dd.variable_lines_of(level, unit_idx_limit, name, infos)
            &&& !dd.is_listed(level, unit_idx_limit, name, infos) ==> upto == before
        }),
    decreases n,
{
    let all = dd.variable_lines(level, unit_idx_limit, n);
    let before = dd.variable_lines(level, unit_idx_limit, v as nat);
    let upto = dd.variable_lines(level, unit_idx_limit, (v + 1) as nat);
    assert(before =~= upto.take(before.len() as int));
    let (name, infos) = dd.vars()[v];
    if dd.is_listed(level, unit_idx_limit, name, infos) {
        assert(upto.skip(before.len() as int) =~= dd.variable_lines_of(
            level,
            unit_idx_limit,
            name,
            infos,
        ));
    }
    if v + 1 < n {
        law_variables_are_listed(dd, level, unit_idx_limit, (n - 1) as nat, v);
        let last = dd.variable_lines(level, unit_idx_limit, (n - 1) as nat);
        assert(last.take(upto.len() as int) == upto);
        assert(upto =~= all.take(upto.len() as int));
    } else {
        assert(upto =~= all.take(upto.len() as int));
    }
}

/// The line of a function tells its name, its address range and its frame offset, if that is known.
pub proof fn law_functions_are_told(f: CfaInfo)
    ensures
        ({
            let range = "  "@ + f.function@ + " (0x"@ + hex(f.low_pc as nat, 8, false) + "-0x"@ + hex(
                f.high_pc as nat,
                8,
                false,
            ) + ") ["@;
            &&& f.cfa_offset matches Some(offset) ==> function_line(f) == range + ("CFA+"@ + decimal(
                offset as int,
            )) + "]"@
            &&& f.cfa_offset is None ==> function_line(f) == range + "CFA unknown"@ + "]"@
        }),
{
}

/// The functions of a compilation unit are listed in their order, each once.
pub proof fn law_functions_are_listed(v: Seq<CfaInfo>, unit_idx: usize, n: nat)
    requires
        n <= v.len(),
    ensures
        function_lines(v, unit_idx, n) == v.take(n as int).filter(
            |f: CfaInfo| f.unit_idx == unit_idx,
        ).map_values(|f: CfaInfo| function_line(f)),
    decreases n,
{
    reveal(Seq::filter);
    let keep = |f: CfaInfo| f.unit_idx == unit_idx;
    let line = |f: CfaInfo| function_line(f);
    let all = v.take(n as int);
    if n > 0 {
        law_functions_are_listed(v, unit_idx, (n - 1) as nat);
        assert(all.drop_last() =~= v.take(n - 1));
        assert(all.last() == v[n - 1]);
    }
    assert(function_lines(v, unit_idx, n) =~= all.filter(keep).map_values(line));
}

/// The number of functions of compilation units that are the first of their unit, together with all
/// functions of those units.
pub open spec fn group_total(v: Seq<CfaInfo>, n: nat) -> nat
    decreases n,
{
    if n == 0 {
        0
    } else {
        let unit_idx = v[n - 1].unit_idx;
        group_total(v, (n - 1) as nat) + if exists|i: int|
            0 <= i < n - 1 && (#[trigger] v[i]).unit_idx == unit_idx {
            0nat
        } else {
            1 + v.filter(|f: CfaInfo| f.unit_idx == unit_idx).len()
        }
    }
}

/// Every function is listed under its compilation unit, which has a line with the number of its
/// functions; there are no further lines.
pub proof fn law_functions_are_grouped_by_unit(v: Seq<CfaInfo>, n: nat, i: int)
    requires
        n <= v.len(),
    ensures
        function_groups(v, n).len() == group_total(v, n),
        0 <= i < n ==> function_groups(v, n).contains(function_line(v[i])) && function_groups(
            v,
            n,
        ).contains(
            "Compilation Unit "@ + decimal(v[i].unit_idx as int) + ": "@ + decimal(
                v.filter(|f: CfaInfo| f.unit_idx == v[i].unit_idx).len() as int,
            ) + " functions"@,
        ),
    decreases n,
{
    if n > 0 {
        let before = function_groups(v, (n - 1) as nat);
        let after = function_groups(v, n);
        let unit_idx = v[n - 1].unit_idx;
        let lines = function_lines(v, unit_idx, v.len());
        let head = "Compilation Unit "@ + decimal(unit_idx as int) + ": "@ + decimal(
            lines.len() as int,
        ) + " functions"@;
        law_functions_are_listed(v, unit_idx, v.len());
        assert(v.take(v.len() as int) =~= v);
        law_functions_are_grouped_by_unit(v, (n - 1) as nat, i);
        assert forall|line: Seq<char>| #[trigger] before.contains(line) implies after.contains(
            line,
        ) by {
            let x = choose|x: int| 0 <= x < before.len() && before[x] == line;
            assert(after[x] == line);
        }
        if i == n - 1 {
            if unit_seen(v, unit_idx, n - 1) {
                let k = choose|k: int|
                    0 <= k < n - 1 && k < v.len() && (#[trigger] v[k]).unit_idx == unit_idx;
                law_functions_are_grouped_by_unit(v, (n - 1) as nat, k);
                lemma_unit_together(v, (n - 1) as nat, k, n - 1);
            } else {
                assert(after =~= before.push(head) + lines);
                assert(after[before.len() as int] == head);
                lemma_function_line(v, unit_idx, v.len(), n - 1);
                let x = choose|x: int| 0 <= x < lines.len() && lines[x] == function_line(v[n - 1]);
                assert(after[before.len() + 1 + x] == function_line(v[n - 1]));
            }
        }
    }
}

proof fn lemma_function_line(v: Seq<CfaInfo>, unit_idx: usize, n: nat, i: int)
    requires
        0 <= i < n <= v.len(),
        v[i].unit_idx == unit_idx,
    ensures
        function_lines(v, unit_idx, n).contains(function_line(v[i])),
    decreases n,
{
    let all = function_lines(v, unit_idx, n);
    if i == n - 1 {
        assert(all[all.len() - 1] == function_line(v[i]));
    } else {
        lemma_function_line(v, unit_idx, (n - 1) as nat, i);
        let before = function_lines(v, unit_idx, (n - 1) as nat);
        let x = choose|x: int| 0 <= x < before.len() && before[x] == function_line(v[i]);
        assert(all[x] == function_line(v[i]));
    }
}

/// Where one function of a unit is listed, all are.
proof fn lemma_unit_together(v: Seq<CfaInfo>, n: nat, k: int, i: int)
    requires
        0 <= k < n <= v.len(),
        0 <= i < v.len(),
        v[i].unit_idx == v[k].unit_idx,
    ensures
        function_groups(v, n).contains(function_line(v[i])),
    decreases n,
{
    let before = function_groups(v, (n - 1) as nat);
    let after = function_groups(v, n);
    let unit_idx = v[n - 1].unit_idx;
    if k < n - 1 {
        lemma_unit_together(v, (n - 1) as nat, k, i);
        let x = choose|x: int| 0 <= x < before.len() && before[x] == function_line(v[i]);
        assert(after[x] == function_line(v[i]));
    } else if unit_seen(v, unit_idx, n - 1) {
        let m = choose|m: int|
            0 <= m < n - 1 && m < v.len() && (#[trigger] v[m]).unit_idx == unit_idx;
        lemma_unit_together(v, (n - 1) as nat, m, i);
        let x = choose|x: int| 0 <= x < before.len() && before[x] == function_line(v[i]);
        assert(after[x] == function_line(v[i]));
    } else {
        let lines = function_lines(v, unit_idx, v.len());
        lemma_function_line(v, unit_idx, v.len(), i);
        let x = choose|x: int| 0 <= x < lines.len() && lines[x] == function_line(v[i]);
        assert(after[before.len() + 1 + x] == function_line(v[i]));
    }
}

/// The instances that are counted are all instances of all variables.
pub proof fn law_instances_are_counted(vars: Seq<(Seq<char>, Seq<VarInfo>)>, n: nat)
    requires
        n <= vars.len(),
    ensures
        instance_count(vars, n) == vars.take(n as int).fold_left(
            0nat,
            |sum: nat, v: (Seq<char>, Seq<VarInfo>)| sum + v.1.len(),
        ),
    decreases n,
{
    let all = vars.take(n as int);
    let f = |sum: nat, v: (Seq<char>, Seq<VarInfo>)| sum + v.1.len();
    if n > 0 {
        law_instances_are_counted(vars, (n - 1) as nat);
        assert(all.drop_last() =~= vars.take(n - 1));
        assert(all.last() == vars[n - 1]);
    }
    reveal_with_fuel(Seq::fold_left, 2);
}

/// A heading is an empty line, a line of a hundred equals signs and the title.
pub proof fn law_headings_show_their_title(title: Seq<char>, i: int)
    ensures
        heading(title).len() == 3,
        heading(title)[0].len() == 0,
        heading(title)[1].len() == 100,
        0 <= i < 100 ==> heading(title)[1][i] == '=',
        heading(title)[2] == title,
{
    reveal_strlit("");
    reveal_strlit(
        "====================================================================================================",
    );
}

/// The summary counts the units, sections, variables, names and types, and tells the byte order, the
/// EPK string with its address and the metadata section.
pub proof fn law_summary_counts_everything(dd: DebugData)
    ensures
        ({
            let lines = dd.stats_lines();
            &&& lines.len() == 13
            &&& lines.take(3) == heading("DebugData information summary:"@)
            &&& lines[3] == "  Compilation units: "@ + decimal(dd.unit_names@.len() as int)
                + " units"@
            &&& lines[4] == "  Sections: "@ + decimal(dd.sections.order().len() as int)
                + " sections"@
            &&& dd.is_little_endian ==> lines[5] == "  Endianness: Little Endian"@
            &&& !dd.is_little_endian ==> lines[5] == "  Endianness: Big Endian"@
            &&& lines[6] == "  Variables "@ + decimal(
                instance_count(dd.vars(), dd.vars().len()) as int,
            ) + " with "@ + decimal(dd.vars().len() as int) + " unique names"@
            &&& lines[7] == "  Demangled names: "@ + decimal(
                dd.demangled_names.order().len() as int,
            ) + " entries"@
            &&& lines[8] == "  Type names: "@ + decimal(dd.typenames.order().len() as int)
                + " named types"@
            &&& lines[9] == "  Types: "@ + decimal(dd.types@.len() as int) + " total types"@
            &&& lines[10] == "  CFA info: "@ + decimal(dd.cfa_info@.len() as int) + " entries"@
            &&& dd.epk_string matches Some(s) ==> lines[11] == "  EPK string: `"@ + s@
                + "` at address 0x"@ + hex(dd.epk_addr as nat, 8, true)
            &&& dd.epk_string is None ==> lines[11] == "  EPK string: `"@ + "<not found>"@
                + "` at address 0x"@ + hex(dd.epk_addr as nat, 8, true)
            &&& dd.xcp_meta_data matches Some((addr, data)) ==> lines[12]
                == "  XCP metadata section (xcp_meta) found at address 0x"@ + hex(
                addr as nat,
                8,
                true,
            ) + ", "@ + decimal(data@.len() as int) + " bytes"@
            &&& dd.xcp_meta_data is None ==> lines[12]
                == "  XCP metadata section (xcp_meta) not found"@
        }),
{
    assert(dd.stats_lines().take(3) =~= heading("DebugData information summary:"@));
}

/// The lines of a part stand in the lines of the report.
pub open spec fn holds_part(lines: Seq<Seq<char>>, part: Seq<Seq<char>>) -> bool {
    exists|i: int|
        0 <= i && i + part.len() <= lines.len() && #[trigger] lines.subrange(i, i + part.len())
            == part
}

proof fn lemma_holds_part(a: Seq<Seq<char>>, part: Seq<Seq<char>>, b: Seq<Seq<char>>)
    ensures
        holds_part(a + part + b, part),
{
    let lines = a + part + b;
    let i = a.len() as int;
    assert(lines.subrange(i, i + part.len()) =~= part);
}

proof fn lemma_holds_more(a: Seq<Seq<char>>, part: Seq<Seq<char>>, b: Seq<Seq<char>>)
    requires
        holds_part(a, part),
    ensures
        holds_part(a + b, part),
{
    let i = choose|i: int|
        0 <= i && i + part.len() <= a.len() && #[trigger] a.subrange(i, i + part.len()) == part;
    assert((a + b).subrange(i, i + part.len()) =~= part);
}

proof fn lemma_holds_last(a: Seq<Seq<char>>, part: Seq<Seq<char>>)
    ensures
        holds_part(a + part, part),
{
    lemma_holds_part(a, part, Seq::empty());
    assert(a + part + Seq::<Seq<char>>::empty() =~= a + part);
}

proof fn lemma_join_two(a: Seq<Seq<char>>, b: Seq<Seq<char>>, c: Seq<Seq<char>>)
    ensures
        a + b + c == a + (b + c),
{
    assert(a + b + c =~= a + (b + c));
}

proof fn lemma_begins_more(a: Seq<Seq<char>>, part: Seq<Seq<char>>, b: Seq<Seq<char>>)
    requires
        part.is_prefix_of(a),
    ensures
        part.is_prefix_of(a + b),
{
    assert(part =~= (a + b).take(part.len() as int)) by {
        assert(a.take(part.len() as int) == part);
    }
}

/// The number of lines of a part with its heading, if the level asks for it.
pub open spec fn part_len(asked: bool, head: nat, lines: Seq<Seq<char>>) -> nat {
    if asked {
        head + lines.len()
    } else {
        0
    }
}

/// The report begins with the summary. It holds the compilation units, the sections by their starts
/// and the markers; from level 1 on the variables, from 2 on the functions, from 3 on the demangled
/// names, from 4 on the names of types and from 5 on the types; and nothing else.
pub proof fn law_report_grows_with_its_level(
    dd: DebugData,
    level: usize,
    unit_idx_limit: usize,
    refs: Seq<usize>,
)
    ensures
        ({
            let lines = dd.info_lines(level, unit_idx_limit, refs);
            let sections = by_start(dd.sections.order());
            let units = dd.unit_lines(dd.unit_names@.len());
            let ranges = section_lines(sections, sections.len());
            let names = dd.type_name_lines(dd.typenames.order().len());
            let types = dd.type_lines(refs, refs.len());
            let demangled = dd.demangled_lines(dd.demangled_names.order().len());
            let markers = dd.marker_lines(dd.vars().len());
            let variables = dd.variable_lines(level, unit_idx_limit, dd.vars().len());
            let functions = function_groups(dd.cfa_info@, dd.cfa_info@.len());
            &&& dd.stats_lines().is_prefix_of(lines)
            &&& holds_part(
                lines,
                heading("Compilation units in debug_data.unit_names:"@) + units,
            )
            &&& holds_part(lines, heading("Memory Sections in debug_data.sections:"@) + ranges)
            &&& holds_part(lines, heading("A2L Creator variables:"@) + markers)
            &&& level >= 1 ==> holds_part(
                lines,
                heading("Variables:"@) + seq![
                    "  (Skipping system variables '__<name>' and global XCP variables 'gXcp..' and 'gA2l..')"@,
                ] + variables,
            )
            &&& level >= 2 ==> holds_part(
                lines,
                heading("Functions and CFA information by compilation unit:"@) + functions,
            )
            &&& level >= 3 ==> holds_part(
                lines,
                heading(""@) + seq!["Demangled Names:"@] + demangled,
            )
            &&& level >= 4 ==> holds_part(
                lines,
                heading("Type names in debug_data.typenames:"@) + names,
            )
            &&& level >= 5 ==> holds_part(lines, heading("Types in debug_data.types:"@) + types)
            &&& lines.len() == dd.stats_lines().len() + 3 + units.len() + 1 + 3 + ranges.len() + 3
                + markers.len() + part_len(level >= 1, 4, variables) + part_len(
                level >= 2,
                3,
                functions,
            ) + part_len(level >= 3, 4, demangled) + part_len(level >= 4, 3, names) + part_len(
                level >= 5,
                3,
                types,
            )
        }),
{
    let none = Seq::<Seq<char>>::empty();
    let sections = by_start(dd.sections.order());
    let units = dd.unit_lines(dd.unit_names@.len());
    let ranges = section_lines(sections, sections.len());
    let names = dd.type_name_lines(dd.typenames.order().len());
    let types = dd.type_lines(refs, refs.len());
    let demangled = dd.demangled_lines(dd.demangled_names.order().len());
    let markers = dd.marker_lines(dd.vars().len());
    let variables = dd.variable_lines(level, unit_idx_limit, dd.vars().len());
    let functions = function_groups(dd.cfa_info@, dd.cfa_info@.len());
    let names_part = if level >= 4 {
        heading("Type names in debug_data.typenames:"@) + names
    } else {
        none
    };
    let types_part = if level >= 5 {
        heading("Types in debug_data.types:"@) + types
    } else {
        none
    };
    let demangled_part = if level >= 3 {
        heading(""@) + seq!["Demangled Names:"@] + demangled
    } else {
        none
    };
    let variables_part = if level >= 1 {
        heading("Variables:"@) + seq![
            "  (Skipping system variables '__<name>' and global XCP variables 'gXcp..' and 'gA2l..')"@,
        ] + variables
    } else {
        none
    };
    let functions_part = if level >= 2 {
        heading("Functions and CFA information by compilation unit:"@) + functions
    } else {
        none
    };
    let units_part = heading("Compilation units in debug_data.unit_names:"@) + units;
    let ranges_part = heading("Memory Sections in debug_data.sections:"@) + ranges;
    let markers_part = heading("A2L Creator variables:"@) + markers;
    let p0 = dd.stats_lines();
    let p1 = p0 + units_part;
    let p2 = p1 + seq![""@];
    let p3 = p2 + ranges_part;
    let p4 = p3 + names_part;
    let p5 = p4 + types_part;
    let p6 = p5 + demangled_part;
    let p7 = p6 + markers_part;
    let p8 = p7 + variables_part;
    let p9 = p8 + functions_part;
    lemma_join_two(p0, heading("Compilation units in debug_data.unit_names:"@), units);
    lemma_join_two(p2, heading("Memory Sections in debug_data.sections:"@), ranges);
    lemma_join_two(p6, heading("A2L Creator variables:"@), markers);
    assert(dd.info_lines(level, unit_idx_limit, refs) == p9);
    assert(p0 =~= p0.take(p0.len() as int));
    lemma_begins_more(p0, dd.stats_lines(), units_part);
    lemma_begins_more(p1, dd.stats_lines(), seq![""@]);
    lemma_begins_more(p2, dd.stats_lines(), ranges_part);
    lemma_begins_more(p3, dd.stats_lines(), names_part);
    lemma_begins_more(p4, dd.stats_lines(), types_part);
    lemma_begins_more(p5, dd.stats_lines(), demangled_part);
    lemma_begins_more(p6, dd.stats_lines(), markers_part);
    lemma_begins_more(p7, dd.stats_lines(), variables_part);
    lemma_begins_more(p8, dd.stats_lines(), functions_part);
    lemma_holds_last(p0, units_part);
    lemma_holds_more(p1, units_part, seq![""@]);
    lemma_holds_more(p2, units_part, ranges_part);
    lemma_holds_more(p3, units_part, names_part);
    lemma_holds_more(p4, units_part, types_part);
    lemma_holds_more(p5, units_part, demangled_part);
    lemma_holds_more(p6, units_part, markers_part);
    lemma_holds_more(p7, units_part, variables_part);
    lemma_holds_more(p8, units_part, functions_part);
    lemma_holds_last(p2, ranges_part);
    lemma_holds_more(p3, ranges_part, names_part);
    lemma_holds_more(p4, ranges_part, types_part);
    lemma_holds_more(p5, ranges_part, demangled_part);
    lemma_holds_more(p6, ranges_part, markers_part);
    lemma_holds_more(p7, ranges_part, variables_part);
    lemma_holds_more(p8, ranges_part, functions_part);
    lemma_holds_last(p6, markers_part);
    lemma_holds_more(p7, markers_part, variables_part);
    lemma_holds_more(p8, markers_part, functions_part);
    lemma_holds_last(p3, names_part);
    lemma_holds_more(p4, names_part, types_part);
    lemma_holds_more(p5, names_part, demangled_part);
    lemma_holds_more(p6, names_part, markers_part);
    lemma_holds_more(p7, names_part, variables_part);
    lemma_holds_more(p8, names_part, functions_part);
    lemma_holds_last(p4, types_part);
    lemma_holds_more(p5, types_part, demangled_part);
    lemma_holds_more(p6, types_part, markers_part);
    lemma_holds_more(p7, types_part, variables_part);
    lemma_holds_more(p8, types_part, functions_part);
    lemma_holds_last(p5, demangled_part);
    lemma_holds_more(p6, demangled_part, markers_part);
    lemma_holds_more(p7, demangled_part, variables_part);
    lemma_holds_more(p8, demangled_part, functions_part);
    lemma_holds_last(p7, variables_part);
    lemma_holds_more(p8, variables_part, functions_part);
    lemma_holds_last(p8, functions_part);
}

/// The text of a type names its kind: of a struct, a union or an enum also its own name and how many
/// members it has; of an array its dimensions and the text of its elements.
pub proof fn law_types_are_described(t: TypeInfo)
    ensures
        ({
            let name = match t.name {
                Some(s) => s@,
                None => "<anonymous>"@,
            };
            let text = type_text(t);
            &&& t.datatype is Uint8 ==> text == "Uint8"@
            &&& t.datatype is Uint16 ==> text == "Uint16"@
            &&& t.datatype is Uint32 ==> text == "Uint32"@
            &&& t.datatype is Uint64 ==> text == "Uint64"@
            &&& t.datatype is Sint8 ==> text == "Sint8"@
            &&& t.datatype is Sint16 ==> text == "Sint16"@
            &&& t.datatype is Sint32 ==> text == "Sint32"@
            &&& t.datatype is Sint64 ==> text == "Sint64"@
            &&& t.datatype is Float ==> text == "Float"@
            &&& t.datatype is Double ==> text == "Double"@
            &&& t.datatype is Bitfield ==> text == "Bitfield"@
            &&& t.datatype is Pointer ==> text == "Pointer(...)"@
            &&& t.datatype matches DbgDataType::Other(size) ==> text == "Other("@ + decimal(
                size as int,
            ) + ")"@
            &&& t.datatype matches DbgDataType::FuncPtr(size) ==> text == "function pointer("@
                + decimal(size as int) + ")"@
            &&& t.datatype matches DbgDataType::TypeRef(r, _) ==> text == "TypeRef("@ + decimal(
                r as int,
            ) + ")"@
            &&& t.datatype matches DbgDataType::Struct { is_class, members, .. } ==> text == (
            if is_class {
                "Class"@
            } else {
                "Struct"@
            }) + " "@ + name + "("@ + decimal(members@.len() as int) + " "@ + "members"@ + ")"@
            &&& t.datatype matches DbgDataType::Union { members, .. } ==> text == "Union"@ + " "@
                + name + "("@ + decimal(members@.len() as int) + " "@ + "members"@ + ")"@
            &&& t.datatype matches DbgDataType::Enum { enumerators, .. } ==> text == "Enum"@ + " "@
                + name + "("@ + decimal(enumerators@.len() as int) + " "@ + "enumerators"@ + ")"@
            &&& t.datatype matches DbgDataType::Array { dim, arraytype, .. } ==> text == "Array(["@
                + numbers_text(dim@) + "] x "@ + type_text(*arraytype) + ")"@
        }),
{
}

/// Numbers are written one after the other, with a comma and a space between two of them.
pub proof fn law_number_lists_join(a: Seq<u64>, b: Seq<u64>, x: u64)
    ensures
        a.len() > 0 && b.len() > 0 ==> numbers_text(a + b) == numbers_text(a) + seq![',', ' ']
            + numbers_text(b),
        numbers_text(seq![x]) == decimal(x as int),
    decreases b.len(),
{
    reveal_strlit(", ");
    assert(", "@ =~= seq![',', ' ']);
    if a.len() > 0 && b.len() > 0 {
        let c = a + b;
        assert(c.last() == b.last());
        assert(c.drop_last() =~= a + b.drop_last());
        if b.len() == 1 {
            assert(a + b.drop_last() =~= a);
        } else {
            law_number_lists_join(a, b.drop_last(), x);
            let y = numbers_text(a);
            let z = numbers_text(b.drop_last());
            let d = decimal(b.last() as int);
            assert((y + ", "@ + z) + ", "@ + d =~= y + ", "@ + (z + ", "@ + d));
        }
    }
}

} // verus!
