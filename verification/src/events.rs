//! Registration of events and of the places in the code where they are triggered.
use vstd::prelude::*;

use crate::debuginfo::{CfaInfo, DebugData, VarInfo};
use crate::elf_reader::ElfReader;
use crate::registry::{
    event_named, id_taken, lemma_event_named, EventList, McEvent, Registry, RegistryError,
};
use crate::text::{behind_sep, cut_at_sep, same_text, strip_prefix, stripped};
use crate::variable_map::{variable_at, variable_count};
use crate::variables::{function_name, function_of};

verus! {

/// The lowest address other than 0 among the first `n` instances.
pub open spec fn lowest_address(infos: Seq<VarInfo>, n: nat) -> Option<u64>
    decreases n,
{
    if n == 0 {
        None
    } else {
        let addr = infos[n - 1].address.1;
        match lowest_address(infos, (n - 1) as nat) {
            Some(low) => Some(
                if addr != 0 && addr < low {
                    addr
                } else {
                    low
                },
            ),
            None => if addr != 0 {
                Some(addr)
            } else {
                None
            },
        }
    }
}

/// The address of the event descriptor that counts. Every place in the code that creates an event
/// has a descriptor; the target takes the first one, which has the lowest address.
pub open spec fn descriptor_address(infos: Seq<VarInfo>) -> u64 {
    match lowest_address(infos, infos.len()) {
        Some(addr) => addr,
        None => infos[0].address.1,
    }
}

/// The position of an event descriptor in the section of the descriptors; each takes 16 bytes.
pub open spec fn descriptor_id(start: u64, end: Option<u64>, addr: u64) -> Option<u16> {
    if start > 0 && addr >= start && (end matches Some(e) ==> addr < e) {
        Some(((addr - start) / 16) as u16)
    } else {
        None
    }
}

/// The highest id up to `next` that no event has.
pub open spec fn free_id(events: Seq<McEvent<Seq<char>>>, next: u16) -> Option<u16>
    decreases next,
{
    if !id_taken(events, next) {
        Some(next)
    } else if next == 0 {
        None
    } else {
        free_id(events, (next - 1) as u16)
    }
}

/// The id below an id, or 0.
pub open spec fn id_below(id: u16) -> u16 {
    if id == 0 {
        0
    } else {
        (id - 1) as u16
    }
}

/// An event as it is found in the code.
pub open spec fn new_event(name: Seq<char>, id: u16) -> McEvent<Seq<char>> {
    McEvent { name, index: 0, id, cycle: 0, location: None, cfa: 0 }
}

impl DebugData {
    /// The id of an event with a descriptor at an address, if the descriptor tells it and no other
    /// event has it.
    pub open spec fn event_id(&self, events: Seq<McEvent<Seq<char>>>, addr: u64) -> Option<u16> {
        match descriptor_id(self.event_section_start(), self.event_section_end(), addr) {
            Some(id) => if id_taken(events, id) {
                None
            } else {
                Some(id)
            },
            None => None,
        }
    }

    /// The events and the next placeholder id after a variable was looked at. A marker
    /// `evt__<name>` brings the event in, unless it is there; without an id from its descriptor it
    /// takes the next placeholder that is free. Nothing if there is none.
    pub open spec fn event_step(
        &self,
        st: (Seq<McEvent<Seq<char>>>, u16),
        name: Seq<char>,
        infos: Seq<VarInfo>,
    ) -> Option<(Seq<McEvent<Seq<char>>>, u16)> {
        match stripped(name, "evt__"@) {
            Some(evt_name) => if infos.len() == 0 || event_named(st.0, evt_name, 0) is Some {
                Some(st)
            } else {
                match self.event_id(st.0, descriptor_address(infos)) {
                    Some(id) => Some((st.0.push(new_event(evt_name, id)), st.1)),
                    None => match free_id(st.0, st.1) {
                        Some(id) => Some((st.0.push(new_event(evt_name, id)), id_below(id))),
                        None => None,
                    },
                }
            },
            None => Some(st),
        }
    }

    /// The events and the next placeholder id after the first `n` variables were looked at.
    /// Placeholders count down from the highest id, away from the ids of descriptors.
    pub open spec fn events_after(&self, events: Seq<McEvent<Seq<char>>>, n: nat) -> Option<
        (Seq<McEvent<Seq<char>>>, u16),
    >
        decreases n,
    {
        if n == 0 {
            Some((events, 0xFFFF))
        } else {
            match self.events_after(events, (n - 1) as nat) {
                Some(st) => self.event_step(st, self.vars()[n - 1].0, self.vars()[n - 1].1),
                None => None,
            }
        }
    }

    /// The events after those of the program were registered.
    pub open spec fn registered_events(&self, events: Seq<McEvent<Seq<char>>>) -> Seq<
        McEvent<Seq<char>>,
    > {
        match self.events_after(events, self.vars().len()) {
            Some((after, _)) => after,
            None => events,
        }
    }

    /// There are enough ids for all events.
    pub open spec fn event_ids_suffice(&self, events: Seq<McEvent<Seq<char>>>) -> bool {
        self.events_after(events, self.vars().len()) is Some
    }

    /// The number of event markers among the first `n` variables.
    pub open spec fn event_markers(&self, n: nat) -> nat
        decreases n,
    {
        if n == 0 {
            0
        } else {
            self.event_markers((n - 1) as nat) + if stripped(
                self.vars()[n - 1].0,
                "evt__"@,
            ) is Some {
                1nat
            } else {
                0nat
            }
        }
    }
}

/// If all variables can be looked at, the first of them can.
pub proof fn lemma_events_start(dd: DebugData, events: Seq<McEvent<Seq<char>>>, k: nat, n: nat)
    requires
        dd.events_after(events, n) is Some,
        k <= n,
    ensures
        dd.events_after(events, k) is Some,
    decreases n,
{
    if k < n {
        lemma_events_start(dd, events, k, (n - 1) as nat);
    }
}

/// A free id that is found is free, and no higher one up to `next` is; where none is found, all are
/// taken.
pub proof fn lemma_free_id(events: Seq<McEvent<Seq<char>>>, next: u16)
    ensures
        match free_id(events, next) {
            Some(id) => id <= next && !id_taken(events, id) && forall|k: u16|
                id < k <= next ==> #[trigger] id_taken(events, k),
            None => forall|k: u16| k <= next ==> #[trigger] id_taken(events, k),
        },
    decreases next,
{
    if id_taken(events, next) && next > 0 {
        lemma_free_id(events, (next - 1) as u16);
    }
}

/// The address of the event descriptor that counts.
fn find_descriptor_address(infos: &Vec<VarInfo>) -> (addr: u64)
    requires
        infos@.len() > 0,
    ensures
        addr == descriptor_address(infos@),
{
    let n: usize = infos.len();
    let mut low: Option<u64> = None;
    for j in 0..n
        invariant
            n == infos@.len(),
            low == lowest_address(infos@, j as nat),
    {
        let addr: u64 = infos[j].address.1;
        if addr != 0 {
            low = match low {
                Some(l) => if addr < l {
                    Some(addr)
                } else {
                    Some(l)
                },
                None => Some(addr),
            };
        }
    }
    match low {
        Some(addr) => addr,
        None => infos[0].address.1,
    }
}

/// The highest id up to `next` that no event has.
fn find_free_id(events: &EventList, next: u16) -> (r: Option<u16>)
    ensures
        r == free_id(events@, next),
{
    let mut id: u16 = next;
    while events.find_event_id(id).is_some()
        invariant
            free_id(events@, id) == free_id(events@, next),
        decreases id,
    {
        if id == 0 {
            return None;
        }
        id = id - 1;
    }
    Some(id)
}

impl ElfReader {
    /// Adds the events that are created in the code to a list; false if there are not enough ids.
    fn add_events(&self, event_list: &mut EventList) -> (r: bool)
        ensures
            r == self.debug_data.event_ids_suffice(old(event_list)@),
            r ==> final(event_list)@ == self.debug_data.registered_events(old(event_list)@),
    {
        let ghost events = event_list@;
        let ghost vars = self.debug_data.vars();
        let section_addr: u64 = self.debug_data.get_event_section_addr();
        let section_end: Option<u64> = self.debug_data.get_event_section_end();
        let mut next_undefined_event_id: u16 = 0xFFFF;
        let n: usize = variable_count(&self.debug_data.variables);
        let mut i: usize = 0;
        while i < n
            invariant
                n == vars.len(),
                vars == self.debug_data.vars(),
                i <= n,
                events == old(event_list)@,
                section_addr == self.debug_data.event_section_start(),
                section_end == self.debug_data.event_section_end(),
                self.debug_data.events_after(events, i as nat) == Some(
                    (event_list@, next_undefined_event_id),
                ),
            decreases n - i,
        {
            let (name, infos) = match variable_at(&self.debug_data.variables, i) {
                Some(entry) => entry,
                None => {
                    return false;
                },
            };
            assert(vars[i as int] == (name@, infos@));
            i = i + 1;
            let evt_name = match strip_prefix(name.as_str(), "evt__") {
                Some(s) => s,
                None => {
                    continue;
                },
            };
            if infos.len() == 0 || event_list.find_event(evt_name, 0).is_some() {
                continue;
            }
            let addr: u64 = find_descriptor_address(infos);
            let mut event_id: Option<u16> = None;
            let inside = match section_end {
                Some(end) => addr < end,
                None => true,
            };
            if section_addr > 0 && addr >= section_addr && inside {
                let id: u16 = #[verifier::truncate] (((addr - section_addr) / 16) as u16);
                if event_list.find_event_id(id).is_none() {
                    event_id = Some(id);
                }
            }
            match event_id {
                Some(id) => {
                    let added = event_list.add_event(McEvent::new(evt_name, 0, id, 0));
                    assert(added is Ok);
                },
                None => {
                    proof {
                        lemma_free_id(event_list@, next_undefined_event_id);
                    }
                    let id: u16 = match find_free_id(event_list, next_undefined_event_id) {
                        Some(id) => id,
                        None => {
                            proof {
                                if self.debug_data.event_ids_suffice(events) {
                                    lemma_events_start(self.debug_data, events, i as nat, n as nat);
                                }
                            }
                            return false;
                        },
                    };
                    next_undefined_event_id = if id == 0 {
                        0
                    } else {
                        id - 1
                    };
                    let added = event_list.add_event(McEvent::new(evt_name, 0, id, 0));
                    assert(added is Ok);
                },
            }
        }
        true
    }

    /// Registers the events that are created in the code, found by the naming convention
    /// `evt__<name>` of their markers. An event that is registered already stays as it is.
    pub fn register_events(&self, reg: &mut Registry) -> (r: Result<(), RegistryError>)
        requires
            self.debug_data.event_ids_suffice(old(reg).event_list@),
        ensures
            r is Ok,
            final(reg).event_list@ == self.debug_data.registered_events(old(reg).event_list@),
            final(reg).cal_seg_list == old(reg).cal_seg_list,
            final(reg).typedef_list == old(reg).typedef_list,
            final(reg).instance_list == old(reg).instance_list,
            final(reg).version == old(reg).version,
            final(reg).metadata == old(reg).metadata,
    {
        let enough = self.add_events(&mut reg.event_list);
        assert(enough);
        Ok(())
    }

    /// Whether there are enough ids for the events that are created in the code.
    pub fn check_events(&self, reg: &Registry) -> (r: bool)
        ensures
            r == self.debug_data.event_ids_suffice(reg.event_list@),
    {
        let mut event_list = reg.event_list.copy();
        self.add_events(&mut event_list)
    }
}

/// If events have all ids, there are at least as many events as ids.
proof fn lemma_all_ids_taken(events: Seq<McEvent<Seq<char>>>)
    requires
        forall|id: u16| #[trigger] id_taken(events, id),
    ensures
        events.len() >= 0x1_0000,
{
    let ids = events.map_values(|e: McEvent<Seq<char>>| e.id as int);
    let all = vstd::set_lib::set_int_range(0, 0x1_0000);
    assert forall|k: int| all.contains(k) implies ids.to_set().contains(k) by {
        assert(id_taken(events, k as u16));
        let i = choose|i: int| 0 <= i < events.len() && (#[trigger] events[i]).id == k as u16;
        assert(ids[i] == k);
    }
    vstd::set_lib::lemma_int_range(0, 0x1_0000);
    ids.lemma_cardinality_of_set();
    vstd::set_lib::lemma_len_subset(all, ids.to_set());
}

/// No two events have the same id.
pub open spec fn event_ids_distinct(events: Seq<McEvent<Seq<char>>>) -> bool {
    forall|i: int, j: int|
        0 <= i < j < events.len() ==> (#[trigger] events[i]).id != (#[trigger] events[j]).id
}

/// No two events have the same name and index.
pub open spec fn event_names_distinct(events: Seq<McEvent<Seq<char>>>) -> bool {
    forall|i: int, j: int|
        0 <= i < j < events.len() ==> (#[trigger] events[i]).name != (#[trigger] events[j]).name
            || events[i].index != events[j].index
}

/// Of the placeholder ids, every one above the next is taken, and no more events came in than there
/// are markers.
pub proof fn lemma_events_grow(dd: DebugData, events: Seq<McEvent<Seq<char>>>, n: nat)
    requires
        dd.events_after(events, n) is Some,
    ensures
        ({
            let (after, next) = dd.events_after(events, n)->0;
            &&& after.len() <= events.len() + dd.event_markers(n)
            &&& forall|k: u16| next < k ==> #[trigger] id_taken(after, k)
        }),
    decreases n,
{
    if n > 0 {
        lemma_events_grow(dd, events, (n - 1) as nat);
        let (before, next) = dd.events_after(events, (n - 1) as nat)->0;
        let (after, next2) = dd.events_after(events, n)->0;
        lemma_free_id(before, next);
        assert forall|k: u16| next2 < k implies #[trigger] id_taken(after, k) by {
            if after != before {
                let added = after.last();
                assert(after =~= before.push(added));
                if id_taken(before, k) {
                    let i = choose|i: int| 0 <= i < before.len() && (#[trigger] before[i]).id == k;
                    assert(after[i].id == k);
                } else {
                    assert(after[before.len() as int].id == k);
                }
            }
        }
    }
}

/// There are enough ids as long as no more events come together than there are ids.
pub proof fn law_event_ids_suffice(dd: DebugData, events: Seq<McEvent<Seq<char>>>)
    requires
        events.len() + dd.event_markers(dd.vars().len()) <= 0x1_0000,
    ensures
        dd.event_ids_suffice(events),
{
    lemma_ids_suffice(dd, events, dd.vars().len());
}

proof fn lemma_ids_suffice(dd: DebugData, events: Seq<McEvent<Seq<char>>>, n: nat)
    requires
        events.len() + dd.event_markers(n) <= 0x1_0000,
    ensures
        dd.events_after(events, n) is Some,
    decreases n,
{
    if n > 0 {
        lemma_ids_suffice(dd, events, (n - 1) as nat);
        lemma_events_grow(dd, events, (n - 1) as nat);
        let (before, next) = dd.events_after(events, (n - 1) as nat)->0;
        if dd.events_after(events, n) is None {
            lemma_free_id(before, next);
            assert forall|k: u16| #[trigger] id_taken(before, k) by {}
            lemma_all_ids_taken(before);
        }
    }
}

/// An event is as it is found in the code, under the name of an event marker among the first `n`
/// variables.
pub open spec fn is_created(dd: DebugData, n: nat, event: McEvent<Seq<char>>) -> bool {
    &&& event == new_event(event.name, event.id)
    &&& exists|i: int|
        0 <= i < n && (#[trigger] dd.vars()[i]).1.len() > 0 && stripped(dd.vars()[i].0, "evt__"@)
            == Some(event.name)
}

/// What holds after the first `n` variables were looked at.
proof fn lemma_events_consistent(dd: DebugData, events: Seq<McEvent<Seq<char>>>, n: nat)
    requires
        dd.events_after(events, n) is Some,
        n <= dd.vars().len(),
    ensures
        ({
            let (after, next) = dd.events_after(events, n)->0;
            &&& events.is_prefix_of(after)
            &&& event_ids_distinct(events) ==> event_ids_distinct(after)
            &&& event_names_distinct(events) ==> event_names_distinct(after)
            &&& forall|k: int|
                events.len() <= k < after.len() ==> is_created(dd, n, #[trigger] after[k])
            &&& forall|i: int|
                0 <= i < n && (#[trigger] dd.vars()[i]).1.len() > 0 && stripped(
                    dd.vars()[i].0,
                    "evt__"@,
                ) is Some ==> event_named(after, stripped(dd.vars()[i].0, "evt__"@)->0, 0) is Some
        }),
    decreases n,
{
    if n > 0 {
        lemma_events_consistent(dd, events, (n - 1) as nat);
        let (before, next) = dd.events_after(events, (n - 1) as nat)->0;
        let (after, next2) = dd.events_after(events, n)->0;
        lemma_free_id(before, next);
        if after != before {
            let added = after.last();
            assert(after =~= before.push(added));
            assert(events =~= after.take(events.len() as int));
            lemma_event_named(before, added.name, 0);
            lemma_event_named(after, added.name, 0);
            assert(after[before.len() as int] == added);
            assert(stripped(dd.vars()[n - 1].0, "evt__"@) == Some(added.name));
            assert forall|k: int| events.len() <= k < after.len() implies is_created(
                dd,
                n,
                #[trigger] after[k],
            ) by {
                if k < before.len() {
                    assert(is_created(dd, (n - 1) as nat, before[k]));
                }
            }
            assert forall|i: int| 0 <= i < before.len() implies #[trigger] after[i] == before[i] by {}
            assert forall|i: int, j: int|
                event_ids_distinct(events) && 0 <= i < j < after.len() implies (
            #[trigger] after[i]).id != (#[trigger] after[j]).id by {
                assert(!id_taken(before, added.id));
                assert(after[i] == before[i]);
            }
            assert forall|i: int|
                0 <= i < n && (#[trigger] dd.vars()[i]).1.len() > 0 && stripped(
                    dd.vars()[i].0,
                    "evt__"@,
                ) is Some implies event_named(
                after,
                stripped(dd.vars()[i].0, "evt__"@)->0,
                0,
            ) is Some by {
                let name = stripped(dd.vars()[i].0, "evt__"@)->0;
                lemma_event_named(before, name, 0);
                lemma_event_named(after, name, 0);
                if i < n - 1 {
                    let k = event_named(before, name, 0)->0;
                    assert(after[k] == before[k]);
                }
            }
        } else {
            assert(events =~= after.take(events.len() as int));
            assert forall|k: int| events.len() <= k < after.len() implies is_created(
                dd,
                n,
                #[trigger] after[k],
            ) by {
                assert(is_created(dd, (n - 1) as nat, before[k]));
            }
        }
    } else {
        assert(events =~= events.take(events.len() as int));
    }
}

/// Registering events leaves the registered ones as they are, in front; ids stay distinct, also
/// those of placeholders, and so do names. Every event that is created in the code is registered,
/// and no other comes in.
pub proof fn law_events_stay_distinct(dd: DebugData, events: Seq<McEvent<Seq<char>>>)
    requires
        dd.event_ids_suffice(events),
    ensures
        events.is_prefix_of(dd.registered_events(events)),
        event_ids_distinct(events) ==> event_ids_distinct(dd.registered_events(events)),
        event_names_distinct(events) ==> event_names_distinct(dd.registered_events(events)),
        forall|k: int|
            events.len() <= k < dd.registered_events(events).len() ==> is_created(
                dd,
                dd.vars().len(),
                #[trigger] dd.registered_events(events)[k],
            ),
        forall|i: int|
            0 <= i < dd.vars().len() && (#[trigger] dd.vars()[i]).1.len() > 0 && stripped(
                dd.vars()[i].0,
                "evt__"@,
            ) is Some ==> event_named(
                dd.registered_events(events),
                stripped(dd.vars()[i].0, "evt__"@)->0,
                0,
            ) is Some,
{
    lemma_events_consistent(dd, events, dd.vars().len());
}

/// Registering the events of a program a second time changes nothing.
pub proof fn law_registering_events_again_changes_nothing(
    dd: DebugData,
    events: Seq<McEvent<Seq<char>>>,
)
    requires
        dd.event_ids_suffice(events),
    ensures
        ({
            let once = dd.registered_events(events);
            &&& dd.event_ids_suffice(once)
            &&& dd.registered_events(once) == once
        }),
{
    lemma_events_consistent(dd, events, dd.vars().len());
    lemma_nothing_new(dd, dd.registered_events(events), dd.vars().len());
}

proof fn lemma_nothing_new(dd: DebugData, events: Seq<McEvent<Seq<char>>>, n: nat)
    requires
        n <= dd.vars().len(),
        forall|i: int|
            0 <= i < n && (#[trigger] dd.vars()[i]).1.len() > 0 && stripped(
                dd.vars()[i].0,
                "evt__"@,
            ) is Some ==> event_named(events, stripped(dd.vars()[i].0, "evt__"@)->0, 0) is Some,
    ensures
        dd.events_after(events, n) == Some((events, 0xFFFFu16)),
    decreases n,
{
    if n > 0 {
        lemma_nothing_new(dd, events, (n - 1) as nat);
        assert(dd.vars()[n - 1] == dd.vars()[n - 1]);
    }
}

/// The offset of the canonical frame address in a function: that of the first entry for it, 0 if
/// there is none or it is not known.
pub open spec fn cfa_of(cfa_info: Seq<CfaInfo>, unit_idx: usize, function: Seq<char>) -> i32
    decreases cfa_info.len(),
{
    if cfa_info.len() == 0 {
        0
    } else if cfa_info[0].unit_idx == unit_idx && cfa_info[0].function@ == function {
        match cfa_info[0].cfa_offset {
            Some(offset) => offset as i32,
            None => 0,
        }
    } else {
        cfa_of(cfa_info.skip(1), unit_idx, function)
    }
}

impl DebugData {
    /// The events after a variable was looked at: a marker `trg__<tag>__<name>` tells in which unit
    /// and function the event of that name is triggered, and how its frame lies there. All behind
    /// the tag is the name of the event.
    pub open spec fn location_step(
        &self,
        events: Seq<McEvent<Seq<char>>>,
        name: Seq<char>,
        infos: Seq<VarInfo>,
    ) -> Seq<McEvent<Seq<char>>> {
        match stripped(name, "trg__"@) {
            Some(rest) => if infos.len() == 0 {
                events
            } else {
                let unit_idx = infos[0].unit_idx;
                let function = function_of(infos[0]);
                match event_named(events, behind_sep(rest), 0) {
                    Some(i) => events.update(
                        i,
                        McEvent {
                            location: Some((unit_idx, function)),
                            cfa: cfa_of(self.cfa_info@, unit_idx, function),
                            ..events[i]
                        },
                    ),
                    None => events,
                }
            },
            None => events,
        }
    }

    /// The events with their trigger locations after the first `n` variables were looked at.
    pub open spec fn located_events(&self, events: Seq<McEvent<Seq<char>>>, n: nat) -> Seq<
        McEvent<Seq<char>>,
    >
        decreases n,
    {
        if n == 0 {
            events
        } else {
            self.location_step(
                self.located_events(events, (n - 1) as nat),
                self.vars()[n - 1].0,
                self.vars()[n - 1].1,
            )
        }
    }
}

/// Registering trigger locations changes nothing of an event but its location and frame offset.
pub proof fn law_locations_keep_events(dd: DebugData, events: Seq<McEvent<Seq<char>>>, n: nat)
    ensures
        dd.located_events(events, n).len() == events.len(),
        forall|i: int|
            0 <= i < events.len() ==> (#[trigger] dd.located_events(events, n)[i]) == (McEvent {
                location: dd.located_events(events, n)[i].location,
                cfa: dd.located_events(events, n)[i].cfa,
                ..events[i]
            }),
    decreases n,
{
    if n > 0 {
        law_locations_keep_events(dd, events, (n - 1) as nat);
        let before = dd.located_events(events, (n - 1) as nat);
        if let Some(rest) = stripped(dd.vars()[n - 1].0, "trg__"@) {
            lemma_event_named(before, behind_sep(rest), 0);
        }
        assert forall|i: int| 0 <= i < events.len() implies (#[trigger] dd.located_events(
            events,
            n,
        )[i]) == (McEvent {
            location: dd.located_events(events, n)[i].location,
            cfa: dd.located_events(events, n)[i].cfa,
            ..events[i]
        }) by {
            assert(before[i].name == events[i].name);
        }
    }
}

/// An event that a trigger marker names is found under that name, and has a trigger location, after
/// the locations were registered.
pub proof fn law_triggered_events_have_a_location(
    dd: DebugData,
    events: Seq<McEvent<Seq<char>>>,
    n: nat,
    k: int,
)
    requires
        0 <= k < n <= dd.vars().len(),
        dd.vars()[k].1.len() > 0,
        stripped(dd.vars()[k].0, "trg__"@) is Some,
        event_named(events, behind_sep(stripped(dd.vars()[k].0, "trg__"@)->0), 0) is Some,
    ensures
        ({
            let name = behind_sep(stripped(dd.vars()[k].0, "trg__"@)->0);
            let after = dd.located_events(events, n);
            &&& event_named(after, name, 0) == event_named(events, name, 0)
            &&& after[event_named(after, name, 0)->0].location is Some
        }),
    decreases n,
{
    let name = behind_sep(stripped(dd.vars()[k].0, "trg__"@)->0);
    let before = dd.located_events(events, (n - 1) as nat);
    let after = dd.located_events(events, n);
    lemma_located_name(dd, events, (n - 1) as nat, name);
    lemma_located_name(dd, events, n, name);
    lemma_event_named(events, name, 0);
    law_locations_keep_events(dd, events, (n - 1) as nat);
    if k < n - 1 {
        law_triggered_events_have_a_location(dd, events, (n - 1) as nat, k);
        if let Some(rest) = stripped(dd.vars()[n - 1].0, "trg__"@) {
            lemma_event_named(before, behind_sep(rest), 0);
        }
    }
}

/// Registering trigger locations does not change where events are found.
pub proof fn lemma_located_name(
    dd: DebugData,
    events: Seq<McEvent<Seq<char>>>,
    n: nat,
    name: Seq<char>,
)
    ensures
        event_named(dd.located_events(events, n), name, 0) == event_named(events, name, 0),
{
    let after = dd.located_events(events, n);
    law_locations_keep_events(dd, events, n);
    lemma_event_named(events, name, 0);
    lemma_event_named(after, name, 0);
    assert forall|i: int| 0 <= i < events.len() implies (#[trigger] after[i]).name == events[i].name
        && after[i].index == events[i].index by {}
    if let Some(i) = event_named(events, name, 0) {
        assert(after[i].name == name);
    }
    if let Some(j) = event_named(after, name, 0) {
        assert(events[j].name == name);
    }
}

impl ElfReader {
    /// The offset of the canonical frame address in a function.
    fn find_cfa(&self, unit_idx: usize, function: &str) -> (cfa: i32)
        ensures
            cfa == cfa_of(self.debug_data.cfa_info@, unit_idx, function@),
    {
        let ghost all = self.debug_data.cfa_info@;
        let n: usize = self.debug_data.cfa_info.len();
        let mut i: usize = 0;
        assert(all.skip(0) =~= all);
        while i < n
            invariant
                n == all.len(),
                all == self.debug_data.cfa_info@,
                i <= n,
                cfa_of(all, unit_idx, function@) == cfa_of(
                    all.skip(i as int),
                    unit_idx,
                    function@,
                ),
            decreases n - i,
        {
            assert(all.skip(i as int).skip(1) =~= all.skip(i + 1));
            let info = &self.debug_data.cfa_info[i];
            if info.unit_idx == unit_idx && same_text(info.function.as_str(), function) {
                return match info.cfa_offset {
                    Some(offset) => #[verifier::truncate] (offset as i32),
                    None => 0,
                };
            }
            i = i + 1;
        }
        0
    }

    /// Registers where events are triggered in the code, found by the naming convention
    /// `trg__<tag>__<name>` of the trigger markers. Of several markers of one name the first one
    /// counts; the locations are used to resolve stack variables.
    pub fn register_event_locations(&self, reg: &mut Registry) -> (r: Result<(), RegistryError>)
        ensures
            r is Ok,
            final(reg).event_list@ == self.debug_data.located_events(
                old(reg).event_list@,
                self.debug_data.vars().len(),
            ),
            final(reg).cal_seg_list == old(reg).cal_seg_list,
            final(reg).typedef_list == old(reg).typedef_list,
            final(reg).instance_list == old(reg).instance_list,
            final(reg).version == old(reg).version,
            final(reg).metadata == old(reg).metadata,
    {
        let ghost events = reg.event_list@;
        let ghost vars = self.debug_data.vars();
        let n: usize = variable_count(&self.debug_data.variables);
        let mut i: usize = 0;
        while i < n
            invariant
                n == vars.len(),
                vars == self.debug_data.vars(),
                i <= n,
                reg.event_list@ == self.debug_data.located_events(events, i as nat),
                reg.cal_seg_list == old(reg).cal_seg_list,
                reg.typedef_list == old(reg).typedef_list,
                reg.instance_list == old(reg).instance_list,
                reg.version == old(reg).version,
                reg.metadata == old(reg).metadata,
            decreases n - i,
        {
            let (name, infos) = match variable_at(&self.debug_data.variables, i) {
                Some(entry) => entry,
                None => {
                    return Ok(());
                },
            };
            assert(vars[i as int] == (name@, infos@));
            i = i + 1;
            let rest = match strip_prefix(name.as_str(), "trg__") {
                Some(s) => s,
                None => {
                    continue;
                },
            };
            if infos.len() == 0 {
                continue;
            }
            let (_, evt_name) = cut_at_sep(rest);
            let unit_idx: usize = infos[0].unit_idx;
            let function = function_name(&infos[0]);
            let cfa: i32 = self.find_cfa(unit_idx, function);
            match reg.event_list.set_event_location(evt_name, unit_idx, function, cfa) {
                Ok(()) => {},
                Err(_) => {},
            }
        }
        Ok(())
    }
}

/// Of several descriptors of an event the one with the lowest address counts; those without an
/// address do not, unless none has one.
pub proof fn law_first_descriptor_counts(infos: Seq<VarInfo>)
    requires
        infos.len() > 0,
    ensures
        exists|i: int|
            0 <= i < infos.len() && (#[trigger] infos[i]).address.1 == descriptor_address(infos),
        descriptor_address(infos) != 0 ==> forall|i: int|
            0 <= i < infos.len() && (#[trigger] infos[i]).address.1 != 0 ==> descriptor_address(infos)
                <= infos[i].address.1,
        descriptor_address(infos) == 0 ==> forall|i: int|
            0 <= i < infos.len() ==> (#[trigger] infos[i]).address.1 == 0,
{
    lemma_lowest_address(infos, infos.len());
    if lowest_address(infos, infos.len()) is None {
        assert(infos[0].address.1 == descriptor_address(infos));
    }
}

proof fn lemma_lowest_address(infos: Seq<VarInfo>, n: nat)
    requires
        n <= infos.len(),
    ensures
        match lowest_address(infos, n) {
            Some(low) => low != 0 && (exists|i: int|
                0 <= i < n && (#[trigger] infos[i]).address.1 == low) && forall|i: int|
                0 <= i < n && (#[trigger] infos[i]).address.1 != 0 ==> low <= infos[i].address.1,
            None => forall|i: int| 0 <= i < n ==> (#[trigger] infos[i]).address.1 == 0,
        },
    decreases n,
{
    if n > 0 {
        lemma_lowest_address(infos, (n - 1) as nat);
        assert(infos[n - 1].address.1 == infos[n - 1].address.1);
    }
}

} // verus!
