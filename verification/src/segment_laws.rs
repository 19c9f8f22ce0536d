//! Which calibration segments a program has, where their reference pages lie and how long they are.
use vstd::prelude::*;
use vstd::utf8::*;

use crate::debuginfo::{type_size, DebugData, VarInfo};
use crate::name_map::{find_name, lemma_find_name};
use crate::registry::{
    has_typedef, lemma_segment_named, segment_named, A2lFormat, McCalibrationSegment, McObjectType,
    McValueType, SegmentAddress, TypedefView,
};
use crate::segments::{
    by_address, law_segments_are_sorted_by_address, marked, numbered, pages, rank, reference_page,
    segment_count, segment_marker, with_segments, SegmentDefinition,
};
use crate::types::{
    can_register, law_struct_is_registered_with_its_members, lemma_resolved, references_ok, target,
    typedefs_after, typedefs_distinct, value_type,
};

verus! {

/// A variable named `calseg__` and a name marks a segment of that name, one named `calblk__` and a name
/// a block. No other variable is such a marker.
pub proof fn law_markers_name_segments_and_blocks(name: Seq<char>, rest: Seq<char>)
    ensures
        segment_marker("calseg__"@ + rest) == Some((rest, true)),
        segment_marker("calblk__"@ + rest) == Some((rest, false)),
        segment_marker(name) is Some ==> exists|r: Seq<char>|
            name == #[trigger] ("calseg__"@ + r) || name == "calblk__"@ + r,
{
    reveal_strlit("calseg__");
    reveal_strlit("calblk__");
    let a = "calseg__"@ + rest;
    let b = "calblk__"@ + rest;
    assert("calseg__"@ =~= a.take(8));
    assert(a.skip(8) =~= rest);
    assert("calblk__"@ =~= b.take(8));
    assert(b.skip(8) =~= rest);
    assert(b[3] == 'b');
    assert(!"calseg__"@.is_prefix_of(b)) by {
        if "calseg__"@.is_prefix_of(b) {
            assert("calseg__"@[3] == b.take(8)[3]);
        }
    }
    if segment_marker(name) is Some {
        let r = name.skip(8);
        if "calseg__"@.is_prefix_of(name) {
            assert(name =~= "calseg__"@ + r);
        } else {
            assert(name =~= "calblk__"@ + r);
        }
        assert(name == "calseg__"@ + r || name == "calblk__"@ + r);
    }
}

/// There are as many definitions as markers, in the order of the variables; each stands for its
/// marker: its name, the compilation unit and the address of the marker, and whether it is a segment.
/// The address of the EPK segment is 0.
pub proof fn law_markers_become_definitions(vars: Seq<(Seq<char>, Seq<VarInfo>)>, n: nat)
    requires
        n <= vars.len(),
    ensures
        ({
            let markers = vars.take(n as int).filter(
                |v: (Seq<char>, Seq<VarInfo>)| segment_marker(v.0) is Some,
            );
            let all = marked(vars, n);
            &&& all.len() == markers.len()
            &&& forall|i: int|
                0 <= i < all.len() ==> {
                    let d = #[trigger] all[i];
                    let (name, is_segment) = segment_marker(markers[i].0)->0;
                    &&& d.name == name
                    &&& d.unit_idx == markers[i].1[0].unit_idx
                    &&& name != "epk"@ ==> d.descr_addr == markers[i].1[0].address.1
                    &&& name == "epk"@ ==> d.descr_addr == 0
                    &&& d.number is Some <==> is_segment
                }
        }),
    decreases n,
{
    reveal(Seq::filter);
    let is_marker = |v: (Seq<char>, Seq<VarInfo>)| segment_marker(v.0) is Some;
    if n > 0 {
        law_markers_become_definitions(vars, (n - 1) as nat);
        assert(vars.take(n as int).drop_last() =~= vars.take(n - 1));
        assert(vars.take(n as int).last() == vars[n - 1]);
        let before = marked(vars, (n - 1) as nat);
        let all = marked(vars, n);
        let markers = vars.take(n as int).filter(is_marker);
        assert forall|i: int| 0 <= i < all.len() implies {
            let d = #[trigger] all[i];
            let (name, is_segment) = segment_marker(markers[i].0)->0;
            &&& d.name == name
            &&& d.unit_idx == markers[i].1[0].unit_idx
            &&& name != "epk"@ ==> d.descr_addr == markers[i].1[0].address.1
            &&& name == "epk"@ ==> d.descr_addr == 0
            &&& d.number is Some <==> is_segment
        } by {
            if i < before.len() {
                assert(all[i] == before[i]);
            }
        }
    }
}

proof fn lemma_marked_holds(vars: Seq<(Seq<char>, Seq<VarInfo>)>, n: nat, v: int) -> (k: int)
    requires
        0 <= v < n <= vars.len(),
        segment_marker(vars[v].0) is Some,
    ensures
        0 <= k < marked(vars, n).len(),
        marked(vars, n)[k].name == (segment_marker(vars[v].0)->0).0,
        marked(vars, n)[k].unit_idx == vars[v].1[0].unit_idx,
        marked(vars, n)[k].name != "epk"@ ==> marked(vars, n)[k].descr_addr
            == vars[v].1[0].address.1,
        marked(vars, n)[k].number is Some <==> (segment_marker(vars[v].0)->0).1,
    decreases n,
{
    if v == n - 1 {
        marked(vars, n).len() - 1
    } else {
        let k = lemma_marked_holds(vars, (n - 1) as nat, v);
        assert(marked(vars, n)[k] == marked(vars, (n - 1) as nat)[k]);
        k
    }
}

/// A segment marker in the code, that is a variable named `calseg__` and a name, makes a numbered
/// segment of that name with the compilation unit and the address of the marker; a block marker one
/// without a number. There are as many segments and blocks as markers.
pub proof fn law_every_marker_makes_a_segment(dd: DebugData, name: Seq<char>, v: int)
    requires
        0 <= v < dd.vars().len(),
        dd.vars()[v].0 == "calseg__"@ + name || dd.vars()[v].0 == "calblk__"@ + name,
        name != "epk"@,
    ensures
        dd.segments().len() == dd.vars().filter(
            |w: (Seq<char>, Seq<VarInfo>)| segment_marker(w.0) is Some,
        ).len(),
        exists|k: int|
            {
                &&& 0 <= k < dd.segments().len()
                &&& (#[trigger] dd.segments()[k]).name == name
                &&& dd.segments()[k].unit_idx == dd.vars()[v].1[0].unit_idx
                &&& dd.segments()[k].descr_addr == dd.vars()[v].1[0].address.1
                &&& dd.segments()[k].number is Some <==> dd.vars()[v].0 == "calseg__"@ + name
            },
{
    broadcast use vstd::seq_lib::group_to_multiset_ensures;

    let vars = dd.vars();
    let all = marked(vars, vars.len());
    let sorted = by_address(all);
    law_markers_name_segments_and_blocks(vars[v].0, name);
    law_markers_become_definitions(vars, vars.len());
    assert(vars.take(vars.len() as int) =~= vars);
    law_segments_are_sorted_by_address(all, 0);
    assert(sorted.to_multiset().len() == sorted.len());
    assert(all.to_multiset().len() == all.len());
    let m = lemma_marked_holds(vars, vars.len(), v);
    assert(all.contains(all[m]));
    assert(sorted.to_multiset().count(all[m]) > 0);
    let k = choose|k: int| 0 <= k < sorted.len() && sorted[k] == all[m];
    assert(dd.segments()[k].name == name);
    if "calseg__"@ + name == "calblk__"@ + name {
        assert(segment_marker("calseg__"@ + name) == segment_marker("calblk__"@ + name));
    }
}

/// The segments of a program stand in the order of the addresses of their markers, whatever the order
/// of the variables; the EPK segment stands before all others.
pub proof fn law_segments_stand_in_the_order_of_their_markers(dd: DebugData, i: int, j: int)
    requires
        0 <= i < j < dd.segments().len(),
    ensures
        dd.segments()[j].name == "epk"@ ==> dd.segments()[i].name == "epk"@,
        dd.segments()[i].name != "epk"@ && dd.segments()[j].name != "epk"@
            ==> dd.segments()[i].descr_addr <= dd.segments()[j].descr_addr,
{
    let all = marked(dd.vars(), dd.vars().len());
    law_segments_are_sorted_by_address(all, 0);
    let sorted = by_address(all);
    assert(rank(sorted[i]) <= rank(sorted[j]));
}

/// Segments count, blocks do not: the number of a segment is the number of segments that stand
/// before it.
pub proof fn law_segment_numbers_count_segments(
    s: Seq<SegmentDefinition<Seq<char>>>,
    n: nat,
)
    requires
        n <= s.len(),
    ensures
        segment_count(s, n) == s.take(n as int).filter(
            |d: SegmentDefinition<Seq<char>>| d.number is Some,
        ).len(),
        n < s.len() && s[n as int].number is Some && segment_count(s, n) <= 255 ==> numbered(
            s,
        )[n as int].number == Some(segment_count(s, n) as u8),
    decreases n,
{
    reveal(Seq::filter);
    if n > 0 {
        law_segment_numbers_count_segments(s, (n - 1) as nat);
        assert(s.take(n as int).drop_last() =~= s.take(n - 1));
        assert(s.take(n as int).last() == s[n - 1]);
    }
}

/// An instance that can be a reference page in a compilation unit, or in any.
pub open spec fn may_be_page(info: VarInfo, unit_idx: Option<usize>) -> bool {
    info.address.0 == 0 && info.address.1 != 0 && (unit_idx is None || unit_idx == Some(
        info.unit_idx,
    ))
}

proof fn lemma_pages(infos: Seq<VarInfo>, unit_idx: Option<usize>, n: nat)
    requires
        n <= infos.len(),
    ensures
        ({
            let p = pages(infos, unit_idx, n);
            &&& forall|x: int|
                0 <= x < p.len() ==> 0 <= #[trigger] p[x] < n && may_be_page(infos[p[x]], unit_idx)
            &&& forall|x: int, y: int| 0 <= x < y < p.len() ==> #[trigger] p[x] < #[trigger] p[y]
            &&& forall|k: int|
                0 <= k < n && may_be_page(#[trigger] infos[k], unit_idx) ==> p.contains(k)
        }),
    decreases n,
{
    if n > 0 {
        lemma_pages(infos, unit_idx, (n - 1) as nat);
        let before = pages(infos, unit_idx, (n - 1) as nat);
        let p = pages(infos, unit_idx, n);
        assert forall|k: int|
            0 <= k < n && may_be_page(#[trigger] infos[k], unit_idx) implies p.contains(k) by {
            if k < n - 1 {
                let x = choose|x: int| 0 <= x < before.len() && before[x] == k;
                assert(p[x] == k);
            } else {
                assert(p[p.len() - 1] == k);
            }
        }
    }
}

/// The number of pages, as far as it is told by two of them.
proof fn lemma_page_count(infos: Seq<VarInfo>, unit_idx: Option<usize>, i: int, j: int)
    requires
        0 <= i < infos.len(),
        may_be_page(infos[i], unit_idx),
    ensures
        ({
            let p = pages(infos, unit_idx, infos.len());
            &&& p.len() >= 1
            &&& (forall|k: int|
                0 <= k < infos.len() && may_be_page(#[trigger] infos[k], unit_idx) ==> k == i)
                ==> p.len() == 1 && p[0] == i
            &&& 0 <= j < infos.len() && j != i && may_be_page(infos[j], unit_idx) ==> p.len() >= 2
        }),
{
    lemma_pages(infos, unit_idx, infos.len());
    let p = pages(infos, unit_idx, infos.len());
    let x = choose|x: int| 0 <= x < p.len() && p[x] == i;
    assert(may_be_page(infos[p[0]], unit_idx));
    if forall|k: int|
        0 <= k < infos.len() && may_be_page(#[trigger] infos[k], unit_idx) ==> k == i {
        assert(p[0] == i);
        if p.len() > 1 {
            assert(may_be_page(infos[p[1]], unit_idx));
            assert(p[0] < p[1]);
        }
    }
    if 0 <= j < infos.len() && j != i && may_be_page(infos[j], unit_idx) {
        let y = choose|y: int| 0 <= y < p.len() && p[y] == j;
        assert(x != y);
    }
}

/// The reference page of a segment is the only instance of its variable at an absolute address, in
/// whatever compilation unit; where there are several, the only one of these in the unit of the
/// marker; and there is none where that is not unique.
pub proof fn law_reference_page_is_the_unique_instance(
    infos: Seq<VarInfo>,
    unit_idx: usize,
    i: int,
    j: int,
)
    requires
        0 <= i < infos.len(),
        infos[i].address.0 == 0,
        infos[i].address.1 != 0,
    ensures
        (forall|k: int|
            0 <= k < infos.len() && may_be_page(#[trigger] infos[k], None) ==> k == i)
            ==> reference_page(infos, unit_idx) == Some(infos[i]),
        0 <= j < infos.len() && i != j && may_be_page(infos[j], None) && infos[i].unit_idx == unit_idx
            && (forall|k: int|
            0 <= k < infos.len() && may_be_page(#[trigger] infos[k], Some(unit_idx)) ==> k == i)
            ==> reference_page(infos, unit_idx) == Some(infos[i]),
        0 <= j < infos.len() && i != j && may_be_page(infos[j], Some(unit_idx)) && infos[i].unit_idx
            == unit_idx ==> reference_page(infos, unit_idx) is None,
        0 <= j < infos.len() && i != j && may_be_page(infos[j], None) && (forall|k: int|
            0 <= k < infos.len() && may_be_page(#[trigger] infos[k], None) ==> infos[k].unit_idx
                != unit_idx) ==> reference_page(infos, unit_idx) is None,
{
    lemma_page_count(infos, None, i, j);
    lemma_pages(infos, Some(unit_idx), infos.len());
    if infos[i].unit_idx == unit_idx {
        lemma_page_count(infos, Some(unit_idx), i, j);
    }
    let p = pages(infos, Some(unit_idx), infos.len());
    if p.len() > 0 {
        assert(may_be_page(infos[p[0]], Some(unit_idx)));
        assert(may_be_page(infos[p[0]], None));
    }
}

/// Where no instance of the variable lies at an absolute address, there is no reference page.
pub proof fn law_no_page_without_an_absolute_address(infos: Seq<VarInfo>, unit_idx: usize)
    requires
        forall|k: int|
            0 <= k < infos.len() ==> (#[trigger] infos[k]).address.0 != 0 || infos[k].address.1 == 0,
    ensures
        reference_page(infos, unit_idx) is None,
{
    lemma_pages(infos, None, infos.len());
    let p = pages(infos, None, infos.len());
    if p.len() > 0 {
        assert(may_be_page(infos[p[0]], None));
    }
}

/// The reference page of a segment lies where its variable lies, and is as long as the type of that
/// variable; there is none if the variable or its type is not known or has no size.
pub proof fn law_pages_lie_at_their_variable(
    dd: DebugData,
    d: SegmentDefinition<Seq<char>>,
    v: int,
)
    requires
        d.name != "epk"@,
        0 <= v < dd.vars().len(),
        dd.vars()[v].0 == d.name,
        forall|w: int| 0 <= w < v ==> (#[trigger] dd.vars()[w]).0 != d.name,
    ensures
        reference_page(dd.vars()[v].1, d.unit_idx) matches Some(info) ==> {
            &&& !dd.types@.contains_key(info.typeref) ==> dd.segment_area(d) is None
            &&& dd.types@.contains_key(info.typeref) ==> {
                let t = dd.types@[info.typeref];
                &&& type_size(t) == 0 ==> dd.segment_area(d) is None
                &&& type_size(t) > 0 ==> (dd.segment_area(d) matches Some((addr, length)) && addr
                    == info.address.1 && length == type_size(t))
            }
        },
        reference_page(dd.vars()[v].1, d.unit_idx) is None ==> dd.segment_area(d) is None,
{
    lemma_find_name(dd.vars(), d.name);
    let f = find_name(dd.vars(), d.name);
    if f->0 < v {
        assert(dd.vars()[f->0].0 != d.name);
    }
    assert(f == Some(v));
}

/// A segment without a variable of its name has no reference page.
pub proof fn law_no_page_without_a_variable(dd: DebugData, d: SegmentDefinition<Seq<char>>)
    requires
        d.name != "epk"@,
        forall|w: int| 0 <= w < dd.vars().len() ==> (#[trigger] dd.vars()[w]).0 != d.name,
    ensures
        dd.segment_area(d) is None,
{
    lemma_find_name(dd.vars(), d.name);
}

/// The page of the EPK segment is the EPK string: as many bytes as it takes, at the address of its
/// section.
pub proof fn law_epk_page_is_the_epk_string(dd: DebugData, d: SegmentDefinition<Seq<char>>)
    requires
        d.name == "epk"@,
    ensures
        dd.epk_string is None ==> dd.segment_area(d) is None,
        dd.epk_string matches Some(s) ==> (dd.segment_area(d) matches Some((addr, length)) && addr
            == dd.epk_addr && length == encode_utf8(s@).len()),
{
}

/// No other definition than that at `k` has its name.
pub open spec fn is_only_definition(dd: DebugData, k: int) -> bool {
    forall|j: int|
        0 <= j < dd.segments().len() && j != k ==> (#[trigger] dd.segments()[j]).name
            != dd.segments()[k].name
}

proof fn lemma_not_yet(
    dd: DebugData,
    segs: Seq<McCalibrationSegment<Seq<char>>>,
    seg_relative: bool,
    name: Seq<char>,
    n: nat,
)
    requires
        n <= dd.segments().len(),
        forall|j: int| 0 <= j < n ==> (#[trigger] dd.segments()[j]).name != name,
        forall|i: int| 0 <= i < segs.len() ==> (#[trigger] segs[i]).name != name,
    ensures
        forall|i: int|
            0 <= i < with_segments(dd, segs, seg_relative, n).len() ==> (
            #[trigger] with_segments(dd, segs, seg_relative, n)[i]).name != name,
    decreases n,
{
    if n > 0 {
        lemma_not_yet(dd, segs, seg_relative, name, (n - 1) as nat);
        let before = with_segments(dd, segs, seg_relative, (n - 1) as nat);
        let d = dd.segments()[n - 1];
        lemma_segment_named(before, d.name);
        assert(d.name != name);
    }
}

/// What stands in place `p` after some definitions still stands there after others of other names.
proof fn lemma_stays(
    dd: DebugData,
    segs: Seq<McCalibrationSegment<Seq<char>>>,
    seg_relative: bool,
    p: int,
    m: nat,
    n: nat,
)
    requires
        m <= n <= dd.segments().len(),
        0 <= p < with_segments(dd, segs, seg_relative, m).len(),
        forall|j: int|
            m <= j < n ==> (#[trigger] dd.segments()[j]).name != with_segments(
                dd,
                segs,
                seg_relative,
                m,
            )[p].name,
    ensures
        p < with_segments(dd, segs, seg_relative, n).len(),
        with_segments(dd, segs, seg_relative, n)[p] == with_segments(dd, segs, seg_relative, m)[p],
    decreases n,
{
    if m < n {
        lemma_stays(dd, segs, seg_relative, p, m, (n - 1) as nat);
        let before = with_segments(dd, segs, seg_relative, (n - 1) as nat);
        let d = dd.segments()[n - 1];
        lemma_segment_named(before, d.name);
        assert(d.name != before[p].name);
    }
}

/// A segment whose page is known is registered, unless one of its name is: at the address of its page,
/// with the length of its page and its number; to be addressed relative to its start if that is asked
/// for, and else at the address of its page, which has to take 32 bits.
pub proof fn law_new_segments_are_registered(
    dd: DebugData,
    segs: Seq<McCalibrationSegment<Seq<char>>>,
    seg_relative: bool,
    k: int,
)
    requires
        0 <= k < dd.segments().len(),
        is_only_definition(dd, k),
        dd.segment_area(dd.segments()[k]) is Some,
        (dd.segment_area(dd.segments()[k])->0).1 <= 0xFFFF,
        seg_relative || ((dd.segment_area(dd.segments()[k])->0).0 < 0xFFFF_FFFF && k < 255 && (
        dd.segment_area(dd.segments()[k])->0).1 > 0),
        forall|i: int| 0 <= i < segs.len() ==> (#[trigger] segs[i]).name != dd.segments()[k].name,
    ensures
        ({
            let after = with_segments(dd, segs, seg_relative, dd.segments().len());
            let d = dd.segments()[k];
            let (addr, length) = dd.segment_area(d)->0;
            exists|p: int|
                {
                    &&& 0 <= p < after.len()
                    &&& (#[trigger] after[p]).name == d.name
                    &&& after[p].number == d.number
                    &&& after[p].size == length
                    &&& after[p].mem_addr == addr
                    &&& seg_relative ==> after[p].address is Relative
                    &&& !seg_relative ==> (after[p].address matches SegmentAddress::Absolute(a) && a
                        == addr)
                }
        }),
{
    let d = dd.segments()[k];
    let before = with_segments(dd, segs, seg_relative, k as nat);
    let here = with_segments(dd, segs, seg_relative, (k + 1) as nat);
    lemma_not_yet(dd, segs, seg_relative, d.name, k as nat);
    lemma_segment_named(before, d.name);
    let p = before.len() as int;
    assert(here[p].name == d.name);
    lemma_stays(dd, segs, seg_relative, p, (k + 1) as nat, dd.segments().len());
    let after = with_segments(dd, segs, seg_relative, dd.segments().len());
    assert(after[p] == here[p]);
}

/// The length of a registered segment whose reference page is a struct or a class is the byte size
/// that the debug information gives for that struct, the same with which the struct is registered
/// as a type.
pub proof fn law_segments_are_as_long_as_their_struct(
    dd: DebugData,
    format: A2lFormat,
    st: Seq<TypedefView>,
    segs: Seq<McCalibrationSegment<Seq<char>>>,
    seg_relative: bool,
    k: int,
    v: int,
    info: VarInfo,
    object_type: McObjectType,
)
    requires
        0 <= k < dd.segments().len() && k < 255,
        is_only_definition(dd, k),
        dd.segments()[k].name != "epk"@,
        forall|i: int| 0 <= i < segs.len() ==> (#[trigger] segs[i]).name != dd.segments()[k].name,
        0 <= v < dd.vars().len(),
        dd.vars()[v].0 == dd.segments()[k].name,
        forall|w: int| 0 <= w < v ==> (#[trigger] dd.vars()[w]).0 != dd.segments()[k].name,
        reference_page(dd.vars()[v].1, dd.segments()[k].unit_idx) == Some(info),
        info.address.1 < 0xFFFF_FFFF,
        dd.types@.contains_key(info.typeref),
        dd.types@[info.typeref].datatype is Struct,
        0 < dd.types@[info.typeref].datatype->Struct_size <= 0xFFFF,
        dd.types@[info.typeref].name is Some,
        can_register(dd, dd.types@[info.typeref]),
        typedefs_distinct(st),
        references_ok(st),
        !has_typedef(st, format.identifier(dd.a2l_name(dd.types@[info.typeref])->0)),
    ensures
        ({
            let t = dd.types@[info.typeref];
            let size = t.datatype->Struct_size;
            let types = typedefs_after(dd, format, st, t, object_type);
            let after = with_segments(dd, segs, seg_relative, dd.segments().len());
            &&& exists|p: int|
                0 <= p < after.len() && (#[trigger] after[p]).name == dd.segments()[k].name
                    && after[p].size == size && after[p].mem_addr == info.address.1
            &&& st.len() < types.len()
            &&& types[st.len() as int].size == size
            &&& value_type(dd, format, t) == McValueType::TypeDef(types[st.len() as int].name)
        }),
{
    let t = dd.types@[info.typeref];
    assert(target(dd.types@, 0, t) == Some(t));
    lemma_resolved(dd.types@, 0, t);
    law_pages_lie_at_their_variable(dd, dd.segments()[k], v);
    law_new_segments_are_registered(dd, segs, seg_relative, k);
    law_struct_is_registered_with_its_members(dd, format, st, t, object_type);
    let after = with_segments(dd, segs, seg_relative, dd.segments().len());
    let p = choose|p: int|
        {
            let d = dd.segments()[k];
            let (addr, length) = dd.segment_area(d)->0;
            &&& 0 <= p < after.len()
            &&& (#[trigger] after[p]).name == d.name
            &&& after[p].number == d.number
            &&& after[p].size == length
            &&& after[p].mem_addr == addr
            &&& seg_relative ==> after[p].address is Relative
            &&& !seg_relative ==> (after[p].address matches SegmentAddress::Absolute(a) && a
                == addr)
        };
    assert(after[p].size == t.datatype->Struct_size);
}

/// A registered segment that is addressed relative to its start learns where its page lies if the page
/// has its length; any other one stays as it is. Relative are those at the address that belongs to
/// their index, 64 KiB apart from 0x80000000 on, and those that were given no address yet.
pub proof fn law_relative_segments_learn_their_page(
    dd: DebugData,
    segs: Seq<McCalibrationSegment<Seq<char>>>,
    seg_relative: bool,
    p: int,
    k: int,
)
    requires
        0 <= p < segs.len(),
        forall|i: int| 0 <= i < segs.len() && i != p ==> (#[trigger] segs[i]).name != segs[p].name,
        0 <= k < dd.segments().len(),
        dd.segments()[k].name == segs[p].name,
        is_only_definition(dd, k),
        dd.segment_area(dd.segments()[k]) is Some,
    ensures
        ({
            let after = with_segments(dd, segs, seg_relative, dd.segments().len());
            let (addr, length) = dd.segment_area(dd.segments()[k])->0;
            let relative = match segs[p].address {
                SegmentAddress::Known { addr, index } => addr - 0x8000_0000 == index * 0x1_0000,
                SegmentAddress::Relative => true,
                SegmentAddress::Absolute(_) => false,
            };
            &&& p < after.len()
            &&& relative && segs[p].size == length ==> after[p].mem_addr == addr
            &&& !relative || segs[p].size != length ==> after[p].mem_addr == segs[p].mem_addr
        }),
{
    let d = dd.segments()[k];
    assert forall|j: int| 0 <= j < k implies (#[trigger] dd.segments()[j]).name != with_segments(
        dd,
        segs,
        seg_relative,
        0,
    )[p].name by {}
    lemma_stays(dd, segs, seg_relative, p, 0, k as nat);
    let before = with_segments(dd, segs, seg_relative, k as nat);
    let here = with_segments(dd, segs, seg_relative, (k + 1) as nat);
    lemma_name_in_place(dd, segs, seg_relative, p, k as nat);
    lemma_segment_named(before, d.name);
    assert(here[p].name == d.name);
    lemma_stays(dd, segs, seg_relative, p, (k + 1) as nat, dd.segments().len());
}

/// The only segment of a name is still found in its place after definitions of other names.
proof fn lemma_name_in_place(
    dd: DebugData,
    segs: Seq<McCalibrationSegment<Seq<char>>>,
    seg_relative: bool,
    p: int,
    n: nat,
)
    requires
        0 <= p < segs.len(),
        n <= dd.segments().len(),
        forall|i: int| 0 <= i < segs.len() && i != p ==> (#[trigger] segs[i]).name != segs[p].name,
        forall|j: int| 0 <= j < n ==> (#[trigger] dd.segments()[j]).name != segs[p].name,
    ensures
        segment_named(with_segments(dd, segs, seg_relative, n), segs[p].name) == Some(p),
        forall|i: int|
            0 <= i < with_segments(dd, segs, seg_relative, n).len() && i != p ==> (
            #[trigger] with_segments(dd, segs, seg_relative, n)[i]).name != segs[p].name,
    decreases n,
{
    let after = with_segments(dd, segs, seg_relative, n);
    assert forall|j: int| 0 <= j < n implies (#[trigger] dd.segments()[j]).name != with_segments(
        dd,
        segs,
        seg_relative,
        0,
    )[p].name by {}
    lemma_stays(dd, segs, seg_relative, p, 0, n);
    if n > 0 {
        lemma_name_in_place(dd, segs, seg_relative, p, (n - 1) as nat);
        let before = with_segments(dd, segs, seg_relative, (n - 1) as nat);
        let d = dd.segments()[n - 1];
        lemma_segment_named(before, d.name);
        assert(d.name != segs[p].name);
    }
    lemma_segment_named(after, segs[p].name);
}

/// Every segment that comes in is one that the code defines, with the length of its page. None comes
/// in for a definition without a page.
pub proof fn law_new_segments_are_defined_in_the_code(
    dd: DebugData,
    segs: Seq<McCalibrationSegment<Seq<char>>>,
    seg_relative: bool,
    n: nat,
    i: int,
)
    requires
        n <= dd.segments().len(),
        segs.len() <= i < with_segments(dd, segs, seg_relative, n).len(),
        forall|j: int|
            0 <= j < n ==> (dd.segment_area(#[trigger] dd.segments()[j]) matches Some((_, length))
                ==> length <= 0xFFFF),
    ensures
        exists|k: int|
            {
                let s = with_segments(dd, segs, seg_relative, n)[i];
                &&& 0 <= k < n
                &&& (#[trigger] dd.segments()[k]).name == s.name
                &&& dd.segments()[k].number == s.number
                &&& dd.segment_area(dd.segments()[k]) matches Some((_, length)) && s.size == length
                &&& seg_relative <==> s.address is Relative
                &&& !(s.address is Known)
            },
    decreases n,
{
    if n > 0 {
        let before = with_segments(dd, segs, seg_relative, (n - 1) as nat);
        let after = with_segments(dd, segs, seg_relative, n);
        let d = dd.segments()[n - 1];
        lemma_segment_named(before, d.name);
        if i < before.len() {
            law_new_segments_are_defined_in_the_code(dd, segs, seg_relative, (n - 1) as nat, i);
            let k = choose|k: int|
                {
                    let s = before[i];
                    &&& 0 <= k < n - 1
                    &&& (#[trigger] dd.segments()[k]).name == s.name
                    &&& dd.segments()[k].number == s.number
                    &&& dd.segment_area(dd.segments()[k]) matches Some((_, length)) && s.size
                        == length
                    &&& seg_relative <==> s.address is Relative
                    &&& !(s.address is Known)
                };
            assert(after[i].name == before[i].name && after[i].size == before[i].size
                && after[i].number == before[i].number && after[i].address == before[i].address);
            assert(dd.segments()[k].name == after[i].name);
        } else {
            assert(dd.segments()[n - 1].name == after[i].name);
        }
    }
}

/// A program without markers has no segments, and nothing that could not be registered.
pub proof fn law_no_segments_without_markers(dd: DebugData)
    requires
        forall|v: int| 0 <= v < dd.vars().len() ==> segment_marker((#[trigger] dd.vars()[v]).0) is None,
    ensures
        dd.segments().len() == 0,
        dd.markers_ok(),
        dd.areas_ok(),
{
    lemma_nothing_marked(dd.vars(), dd.vars().len());
}

proof fn lemma_nothing_marked(vars: Seq<(Seq<char>, Seq<VarInfo>)>, n: nat)
    requires
        n <= vars.len(),
        forall|v: int| 0 <= v < n ==> segment_marker((#[trigger] vars[v]).0) is None,
    ensures
        marked(vars, n).len() == 0,
    decreases n,
{
    if n > 0 {
        lemma_nothing_marked(vars, (n - 1) as nat);
        assert(segment_marker(vars[n - 1].0) is None);
    }
}

/// Markers with one instance each, up to as many segments as there are numbers for, can be registered.
pub proof fn law_few_markers_can_be_registered(dd: DebugData)
    requires
        dd.vars().len() <= 255,
        forall|v: int|
            0 <= v < dd.vars().len() && segment_marker((#[trigger] dd.vars()[v]).0) is Some
                ==> dd.vars()[v].1.len() == 1,
    ensures
        dd.markers_ok(),
{
    lemma_marked_len(dd.vars(), dd.vars().len());
    let all = marked(dd.vars(), dd.vars().len());
    lemma_count_bound(all, all.len());
}

proof fn lemma_marked_len(vars: Seq<(Seq<char>, Seq<VarInfo>)>, n: nat)
    requires
        n <= vars.len(),
    ensures
        marked(vars, n).len() <= n,
    decreases n,
{
    if n > 0 {
        lemma_marked_len(vars, (n - 1) as nat);
    }
}

proof fn lemma_count_bound(s: Seq<SegmentDefinition<Seq<char>>>, n: nat)
    ensures
        segment_count(s, n) <= n,
    decreases n,
{
    if n > 0 {
        lemma_count_bound(s, (n - 1) as nat);
    }
}

/// Without relative addressing a segment is left out if its page lies behind the range of 32 bits, if it
/// is empty, or if more than 254 definitions stand before it.
pub proof fn law_segments_out_of_range_are_left_out(
    dd: DebugData,
    segs: Seq<McCalibrationSegment<Seq<char>>>,
    k: int,
    i: int,
)
    requires
        0 <= k < dd.segments().len(),
        is_only_definition(dd, k),
        dd.segment_area(dd.segments()[k]) is None || (dd.segment_area(dd.segments()[k])->0).0
            >= 0xFFFF_FFFF || (dd.segment_area(dd.segments()[k])->0).1 == 0 || k >= 255,
        forall|j: int| 0 <= j < segs.len() ==> (#[trigger] segs[j]).name != dd.segments()[k].name,
        0 <= i < with_segments(dd, segs, false, dd.segments().len()).len(),
    ensures
        with_segments(dd, segs, false, dd.segments().len())[i].name != dd.segments()[k].name,
{
    let name = dd.segments()[k].name;
    lemma_left_out(dd, segs, name, k, dd.segments().len());
}

proof fn lemma_left_out(
    dd: DebugData,
    segs: Seq<McCalibrationSegment<Seq<char>>>,
    name: Seq<char>,
    k: int,
    n: nat,
)
    requires
        0 <= k < dd.segments().len(),
        n <= dd.segments().len(),
        name == dd.segments()[k].name,
        is_only_definition(dd, k),
        dd.segment_area(dd.segments()[k]) is None || (dd.segment_area(dd.segments()[k])->0).0
            >= 0xFFFF_FFFF || (dd.segment_area(dd.segments()[k])->0).1 == 0 || k >= 255,
        forall|j: int| 0 <= j < segs.len() ==> (#[trigger] segs[j]).name != name,
    ensures
        forall|i: int|
            0 <= i < with_segments(dd, segs, false, n).len() ==> (#[trigger] with_segments(
                dd,
                segs,
                false,
                n,
            )[i]).name != name,
    decreases n,
{
    if n > 0 {
        lemma_left_out(dd, segs, name, k, (n - 1) as nat);
        let before = with_segments(dd, segs, false, (n - 1) as nat);
        let d = dd.segments()[n - 1];
        lemma_segment_named(before, d.name);
        if n - 1 != k {
            assert(d.name != name);
        }
    }
}

/// The segments of a program are numbered in the order in which they stand, from 0 on and without
/// counting blocks.
pub proof fn law_segments_of_a_program_are_numbered_in_order(dd: DebugData, i: int)
    requires
        0 <= i < dd.segments().len(),
        dd.vars().len() <= 255,
    ensures
        dd.segments()[i].number matches Some(number) ==> number == dd.segments().take(i).filter(
            |d: SegmentDefinition<Seq<char>>| d.number is Some,
        ).len(),
{
    let all = marked(dd.vars(), dd.vars().len());
    let sorted = by_address(all);
    lemma_marked_len(dd.vars(), dd.vars().len());
    lemma_sorted_len(all);
    lemma_count_bound(sorted, i as nat);
    law_segment_numbers_count_segments(sorted, i as nat);
    law_segment_numbers_count_segments(dd.segments(), i as nat);
    lemma_same_count(sorted, dd.segments(), i as nat);
}

proof fn lemma_sorted_len(s: Seq<SegmentDefinition<Seq<char>>>)
    ensures
        by_address(s).len() == s.len(),
{
    broadcast use vstd::seq_lib::group_to_multiset_ensures;

    law_segments_are_sorted_by_address(s, 0);
    assert(by_address(s).to_multiset().len() == by_address(s).len());
    assert(s.to_multiset().len() == s.len());
}

proof fn lemma_same_count(
    a: Seq<SegmentDefinition<Seq<char>>>,
    b: Seq<SegmentDefinition<Seq<char>>>,
    n: nat,
)
    requires
        n <= a.len() == b.len(),
        forall|i: int| 0 <= i < n ==> ((#[trigger] a[i]).number is Some <==> b[i].number is Some),
    ensures
        segment_count(a, n) == segment_count(b, n),
    decreases n,
{
    if n > 0 {
        lemma_same_count(a, b, (n - 1) as nat);
        assert(a[n - 1].number is Some <==> b[n - 1].number is Some);
    }
}

/// Reference pages can be registered if no type and no EPK string takes more than 16 bits to count its
/// bytes; and where they can, none of them does.
pub proof fn law_short_pages_can_be_registered(dd: DebugData, k: int)
    ensures
        (forall|r: usize| #[trigger]
            dd.types@.contains_key(r) ==> type_size(dd.types@[r]) < 0x1_0000) && (
        dd.epk_string matches Some(s) ==> encode_utf8(s@).len() < 0x1_0000) ==> dd.areas_ok(),
        dd.areas_ok() && 0 <= k < dd.segments().len() ==> (dd.segment_area(
            dd.segments()[k],
        ) matches Some((_, length)) ==> length < 0x1_0000),
        dd.markers_ok() && 0 <= k < dd.vars().len() && segment_marker(dd.vars()[k].0) is Some
            ==> dd.vars()[k].1.len() == 1,
{
}

} // verus!
