//! Which ids events get, and where they are triggered.
use vstd::prelude::*;

use crate::debuginfo::{CfaInfo, DebugData};
use crate::events::{
    cfa_of, descriptor_address, law_locations_keep_events, lemma_events_grow, lemma_events_start,
    lemma_free_id, lemma_located_name,
};
use crate::name_map::lookup;
use crate::registry::{event_named, id_taken, lemma_event_named, McEvent};
use crate::text::{behind_sep, stripped};
use crate::text_laws::{
    begins_with, is_head, law_prefixes_come_off, law_texts_are_cut_at_the_first_separator,
};

verus! {

/// A variable is a trigger marker for an event.
pub open spec fn triggers(dd: DebugData, k: int, name: Seq<char>) -> bool {
    &&& stripped(dd.vars()[k].0, "trg__"@) matches Some(rest)
    &&& behind_sep(rest) == name
    &&& dd.vars()[k].1.len() > 0
}

/// A variable named `trg__`, a tag, a separator and an event is a trigger marker for that event.
pub proof fn law_trigger_markers_name_their_event(
    dd: DebugData,
    k: int,
    tag: Seq<char>,
    name: Seq<char>,
)
    requires
        is_head(tag),
        dd.vars()[k].0 == "trg__"@ + (tag + "__"@ + name),
        dd.vars()[k].1.len() > 0,
    ensures
        triggers(dd, k, name),
{
    law_prefixes_come_off("trg__"@, tag + "__"@ + name, dd.vars()[k].0);
    law_texts_are_cut_at_the_first_separator(tag, name);
}

/// An entry on frames is for a function of a compilation unit.
pub open spec fn frames(c: CfaInfo, unit_idx: usize, function: Seq<char>) -> bool {
    c.unit_idx == unit_idx && c.function@ == function
}

/// The frame offset of a function is that of the first entry for its unit and name; 0 if there is none
/// or it is not known.
pub proof fn law_first_frame_entry_counts(
    cfa_info: Seq<CfaInfo>,
    unit_idx: usize,
    function: Seq<char>,
    c: int,
)
    ensures
        0 <= c < cfa_info.len() && frames(cfa_info[c], unit_idx, function) && (forall|j: int|
            0 <= j < c ==> !frames(#[trigger] cfa_info[j], unit_idx, function)) ==> (
        cfa_info[c].cfa_offset matches Some(offset) ==> (i32::MIN <= offset <= i32::MAX ==> cfa_of(
            cfa_info,
            unit_idx,
            function,
        ) == offset)) && (cfa_info[c].cfa_offset is None ==> cfa_of(cfa_info, unit_idx, function)
            == 0),
        (forall|j: int|
            0 <= j < cfa_info.len() ==> !frames(#[trigger] cfa_info[j], unit_idx, function))
            ==> cfa_of(cfa_info, unit_idx, function) == 0,
    decreases cfa_info.len(),
{
    if cfa_info.len() > 0 && !frames(cfa_info[0], unit_idx, function) {
        let rest = cfa_info.skip(1);
        law_first_frame_entry_counts(rest, unit_idx, function, c - 1);
        if 0 <= c < cfa_info.len() && frames(cfa_info[c], unit_idx, function) && (forall|j: int|
            0 <= j < c ==> !frames(#[trigger] cfa_info[j], unit_idx, function)) {
            assert(rest[c - 1] == cfa_info[c]);
            assert forall|j: int| 0 <= j < c - 1 implies !frames(
                #[trigger] rest[j],
                unit_idx,
                function,
            ) by {
                assert(rest[j] == cfa_info[j + 1]);
            }
        }
        if forall|j: int|
            0 <= j < cfa_info.len() ==> !frames(#[trigger] cfa_info[j], unit_idx, function) {
            assert forall|j: int| 0 <= j < rest.len() implies !frames(
                #[trigger] rest[j],
                unit_idx,
                function,
            ) by {
                assert(rest[j] == cfa_info[j + 1]);
            }
        }
    }
}

proof fn lemma_location_stays(
    dd: DebugData,
    events: Seq<McEvent<Seq<char>>>,
    name: Seq<char>,
    m: nat,
    n: nat,
)
    requires
        m <= n <= dd.vars().len(),
        event_named(events, name, 0) is Some,
        forall|j: int| m <= j < n ==> !triggers(dd, j, name),
    ensures
        dd.located_events(events, n)[event_named(events, name, 0)->0] == dd.located_events(
            events,
            m,
        )[event_named(events, name, 0)->0],
    decreases n,
{
    if m < n {
        lemma_location_stays(dd, events, name, m, (n - 1) as nat);
        assert(!triggers(dd, n - 1, name));
        let before = dd.located_events(events, (n - 1) as nat);
        lemma_located_name(dd, events, (n - 1) as nat, name);
        if let Some(rest) = stripped(dd.vars()[n - 1].0, "trg__"@) {
            lemma_event_named(before, behind_sep(rest), 0);
            lemma_event_named(before, name, 0);
        }
    }
}

/// After the locations were registered, an event has as its location the compilation unit and the
/// function of the first instance of its trigger marker, and as its frame offset that of the first
/// frame entry for this unit and function. Of several trigger markers for an event the last one
/// counts.
pub proof fn law_events_are_located_at_their_marker(
    dd: DebugData,
    events: Seq<McEvent<Seq<char>>>,
    name: Seq<char>,
    e: int,
    k: int,
    c: int,
)
    requires
        0 <= e < events.len(),
        events[e].name == name && events[e].index == 0,
        forall|j: int|
            0 <= j < e ==> !((#[trigger] events[j]).name == name && events[j].index == 0),
        0 <= k < dd.vars().len(),
        triggers(dd, k, name),
        forall|j: int| k < j < dd.vars().len() ==> !triggers(dd, j, name),
    ensures
        ({
            let after = dd.located_events(events, dd.vars().len());
            let marker = dd.vars()[k].1[0];
            let function = match marker.function {
                Some(f) => f@,
                None => Seq::empty(),
            };
            &&& after.len() == events.len()
            &&& after[e].name == name
            &&& after[e].id == events[e].id
            &&& after[e].location == Some((marker.unit_idx, function))
            &&& 0 <= c < dd.cfa_info@.len() && frames(dd.cfa_info@[c], marker.unit_idx, function) && (
            forall|j: int|
                0 <= j < c ==> !frames(#[trigger] dd.cfa_info@[j], marker.unit_idx, function))
                ==> (dd.cfa_info@[c].cfa_offset matches Some(offset) ==> (i32::MIN <= offset
                <= i32::MAX ==> after[e].cfa == offset)) && (dd.cfa_info@[c].cfa_offset is None
                ==> after[e].cfa == 0)
            &&& (forall|j: int|
                0 <= j < dd.cfa_info@.len() ==> !frames(
                    #[trigger] dd.cfa_info@[j],
                    marker.unit_idx,
                    function,
                )) ==> after[e].cfa == 0
        }),
{
    let n = dd.vars().len();
    let marker = dd.vars()[k].1[0];
    let function = match marker.function {
        Some(f) => f@,
        None => Seq::empty(),
    };
    lemma_event_named(events, name, 0);
    let found = event_named(events, name, 0);
    if let Some(i) = found {
        if i < e {
            assert(!(events[i].name == name && events[i].index == 0));
        }
    }
    assert(found == Some(e));
    lemma_located_name(dd, events, k as nat, name);
    law_locations_keep_events(dd, events, k as nat);
    law_locations_keep_events(dd, events, n);
    let here = dd.located_events(events, (k + 1) as nat);
    assert(here[e].location == Some((marker.unit_idx, function)));
    lemma_location_stays(dd, events, name, (k + 1) as nat, n);
    law_first_frame_entry_counts(dd.cfa_info@, marker.unit_idx, function, c);
}

/// An event without a trigger marker keeps what is known of its location.
pub proof fn law_events_without_a_marker_stay(
    dd: DebugData,
    events: Seq<McEvent<Seq<char>>>,
    e: int,
)
    requires
        0 <= e < events.len(),
        events[e].index != 0 || (forall|j: int|
            0 <= j < dd.vars().len() ==> !triggers(dd, j, events[e].name)),
    ensures
        dd.located_events(events, dd.vars().len())[e] == events[e],
{
    lemma_untriggered(dd, events, e, dd.vars().len());
}

proof fn lemma_untriggered(dd: DebugData, events: Seq<McEvent<Seq<char>>>, e: int, n: nat)
    requires
        0 <= e < events.len(),
        n <= dd.vars().len(),
        events[e].index != 0 || (forall|j: int| 0 <= j < n ==> !triggers(dd, j, events[e].name)),
    ensures
        dd.located_events(events, n)[e] == events[e],
    decreases n,
{
    if n > 0 {
        lemma_untriggered(dd, events, e, (n - 1) as nat);
        let before = dd.located_events(events, (n - 1) as nat);
        law_locations_keep_events(dd, events, (n - 1) as nat);
        if let Some(rest) = stripped(dd.vars()[n - 1].0, "trg__"@) {
            lemma_event_named(before, behind_sep(rest), 0);
            if events[e].index == 0 {
                assert(!triggers(dd, n - 1, events[e].name));
            }
        }
    }
}

/// Event descriptors lie in the section `xcp_evts`. Without that section they lie between the two
/// symbols for its start and stop, if the start comes first; the end is that of the section, or else
/// the symbol for its stop.
pub proof fn law_event_descriptors_lie_in_their_section(dd: DebugData)
    ensures
        lookup(dd.sections.order(), "xcp_evts"@) matches Some((start, end))
            ==> dd.event_section_start() == start && dd.event_section_end() == Some(end),
        lookup(dd.sections.order(), "xcp_evts"@) is None ==> {
            let start = lookup(dd.symbol_addresses.order(), "__start_xcp_evts"@);
            let stop = lookup(dd.symbol_addresses.order(), "__stop_xcp_evts"@);
            &&& dd.event_section_end() == stop
            &&& start is Some && stop is Some && start->0 < stop->0 ==> dd.event_section_start()
                == start->0
            &&& start is None || stop is None || start->0 >= stop->0 ==> dd.event_section_start()
                == 0
        },
{
}

/// An address lies among the event descriptors.
pub open spec fn in_event_section(dd: DebugData, addr: u64) -> bool {
    &&& 0 < dd.event_section_start() <= addr
    &&& dd.event_section_end() matches Some(end) ==> addr < end
}

/// A new event comes in behind the others, under the name in its marker, without a cycle time or
/// a location. Its id is the position of its descriptor, of 16 bytes each, unless an event has that id
/// or the descriptor lies elsewhere: it is then the highest id that no event has.
pub proof fn law_new_events_take_their_id(
    dd: DebugData,
    events: Seq<McEvent<Seq<char>>>,
    k: nat,
    name: Seq<char>,
    id: u16,
)
    requires
        k < dd.vars().len(),
        dd.event_ids_suffice(events),
        dd.vars()[k as int].0 == "evt__"@ + name,
        dd.vars()[k as int].1.len() > 0,
        dd.events_after(events, k) is Some,
        event_named((dd.events_after(events, k)->0).0, name, 0) is None,
    ensures
        ({
            let before = (dd.events_after(events, k)->0).0;
            let e = dd.registered_events(events)[before.len() as int];
            let addr = descriptor_address(dd.vars()[k as int].1);
            &&& before.len() < dd.registered_events(events).len()
            &&& before.is_prefix_of(dd.registered_events(events))
            &&& e.name == name && e.index == 0 && e.cycle == 0 && e.location is None && e.cfa == 0
            &&& !id_taken(before, e.id)
            &&& in_event_section(dd, addr) && addr - dd.event_section_start() < 0x10_0000 && 16 * id
                <= addr - dd.event_section_start() < 16 * id + 16 && !id_taken(before, id) ==> e.id
                == id
            &&& !in_event_section(dd, addr) || (16 * id <= addr - dd.event_section_start() < 16 * id
                + 16 && id_taken(before, id)) ==> (forall|higher: u16|
                higher > e.id ==> #[trigger] id_taken(before, higher))
        }),
{
    let n = dd.vars().len();
    let (before, next) = dd.events_after(events, k)->0;
    law_prefixes_come_off("evt__"@, name, dd.vars()[k as int].0);
    lemma_events_start(dd, events, k + 1, n);
    let (after, _) = dd.events_after(events, k + 1)->0;
    lemma_free_id(before, next);
    lemma_events_grow(dd, events, k);
    lemma_prefix_stays(dd, events, k + 1, n);
    let all = dd.registered_events(events);
    assert(after == before.push(after.last()));
    let e = after.last();
    assert(after == all.take(after.len() as int));
    assert(all[before.len() as int] == after[before.len() as int]);
    assert(before =~= all.take(before.len() as int)) by {
        assert(before =~= after.take(before.len() as int));
    }
    assert(e.name == name);
    let addr = descriptor_address(dd.vars()[k as int].1);
    let start = dd.event_section_start();
    if in_event_section(dd, addr) && 16 * id <= addr - start < 16 * id + 16 {
        assert((addr - start) / 16 == id);
        assert(((addr - start) / 16) as u16 == id);
    }
    if !in_event_section(dd, addr) || (16 * id <= addr - start < 16 * id + 16 && id_taken(
        before,
        id,
    )) {
        assert forall|higher: u16| higher > e.id implies #[trigger] id_taken(before, higher) by {
            if higher > next {
                assert(id_taken(before, higher));
            }
        }
    }
}

proof fn lemma_prefix_stays(dd: DebugData, events: Seq<McEvent<Seq<char>>>, m: nat, n: nat)
    requires
        m <= n,
        dd.events_after(events, n) is Some,
        dd.events_after(events, m) is Some,
    ensures
        (dd.events_after(events, m)->0).0.is_prefix_of((dd.events_after(events, n)->0).0),
    decreases n,
{
    let a = (dd.events_after(events, m)->0).0;
    let b = (dd.events_after(events, n)->0).0;
    if m < n {
        lemma_events_start(dd, events, (n - 1) as nat, n);
        lemma_prefix_stays(dd, events, m, (n - 1) as nat);
        let c = (dd.events_after(events, (n - 1) as nat)->0).0;
        assert(c.take(a.len() as int) == a);
        assert(b == c || b == c.push(b.last()));
        assert(b.take(a.len() as int) =~= c.take(a.len() as int));
    } else {
        assert(a =~= b.take(a.len() as int));
    }
}

/// A variable that is no event marker brings in nothing, and neither does the marker of an event that
/// is there.
pub proof fn law_other_variables_bring_in_no_event(
    dd: DebugData,
    events: Seq<McEvent<Seq<char>>>,
    k: nat,
)
    requires
        k < dd.vars().len(),
        dd.events_after(events, k) is Some,
        !begins_with(dd.vars()[k as int].0, "evt__"@) || dd.vars()[k as int].1.len() == 0 || exists|
            name: Seq<char>,
        |
            dd.vars()[k as int].0 == #[trigger] ("evt__"@ + name) && event_named(
                (dd.events_after(events, k)->0).0,
                name,
                0,
            ) is Some,
    ensures
        dd.events_after(events, k + 1) == dd.events_after(events, k),
{
    let text = dd.vars()[k as int].0;
    law_prefixes_come_off("evt__"@, text, text);
    if exists|name: Seq<char>|
        text == #[trigger] ("evt__"@ + name) && event_named(
            (dd.events_after(events, k)->0).0,
            name,
            0,
        ) is Some {
        let name = choose|name: Seq<char>|
            text == #[trigger] ("evt__"@ + name) && event_named(
                (dd.events_after(events, k)->0).0,
                name,
                0,
            ) is Some;
        law_prefixes_come_off("evt__"@, name, text);
    }
}

/// The event markers are the variables whose name begins with `evt__`.
pub proof fn law_event_markers_are_counted(dd: DebugData, n: nat)
    requires
        n <= dd.vars().len(),
    ensures
        dd.event_markers(n) == dd.vars().take(n as int).filter(
            |v: (Seq<char>, Seq<crate::debuginfo::VarInfo>)| begins_with(v.0, "evt__"@),
        ).len(),
    decreases n,
{
    reveal(Seq::filter);
    if n > 0 {
        law_event_markers_are_counted(dd, (n - 1) as nat);
        let all = dd.vars().take(n as int);
        assert(all.drop_last() =~= dd.vars().take(n - 1));
        assert(all.last() == dd.vars()[n - 1]);
        law_prefixes_come_off("evt__"@, all.last().0, all.last().0);
    }
}

} // verus!
