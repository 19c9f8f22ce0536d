//! The registry of measurement and calibration objects, as plain values: what is registered so far
//! and what a registration adds. Names stand for themselves here; the types are generic in the
//! kind of text they hold, `String` in code and `Seq<char>` in contracts.
use vstd::prelude::*;

use crate::name_map::{lookup, NameMap};
use crate::text::same_text;

verus! {

/// Why something was not registered.
#[derive(Debug, Clone, Copy, PartialEq, Eq, Structural)]
pub enum RegistryError {
    /// An entry of that name or number is there already.
    Duplicate,
    /// There is no entry of that name.
    NotFound,
}

/// What an object is used for.
#[derive(Debug, Clone, Copy, PartialEq, Eq, Structural)]
pub enum McObjectType {
    Measurement,
    Characteristic,
}

/// The type of a value.
#[derive(Debug, PartialEq)]
pub enum McValueType<S> {
    Ubyte,
    Uword,
    Ulong,
    Ulonglong,
    Sbyte,
    Sword,
    Slong,
    Slonglong,
    Float32Ieee,
    Float64Ieee,
    /// The integer type of a size in bytes.
    Integer { size: u64, signed: bool },
    /// A registered type, by its identifier.
    TypeDef(S),
}

/// A value type with the dimensions of an array; a scalar has the dimensions 1 and 1.
#[derive(Debug, PartialEq)]
pub struct McDimType<S> {
    pub value_type: McValueType<S>,
    pub x_dim: u16,
    pub y_dim: u16,
}

/// A field of a registered type.
#[derive(Debug, PartialEq)]
pub struct McTypedefField<S> {
    pub name: S,
    pub dim_type: McDimType<S>,
    pub object_type: McObjectType,
    pub offset: u16,
}

/// A registered type.
#[derive(Debug, PartialEq)]
pub struct McTypedef {
    pub name: String,
    pub size: u64,
    pub fields: Vec<McTypedefField<String>>,
}

/// What a registered type holds.
pub struct TypedefView {
    pub name: Seq<char>,
    pub size: u64,
    pub fields: Seq<McTypedefField<Seq<char>>>,
}

/// An A2L address.
#[derive(Debug, Clone, Copy, PartialEq, Eq, Structural)]
pub struct McAddress {
    /// The event that the address belongs to.
    pub event_id: Option<u16>,
    pub addr: u32,
    pub addr_ext: u8,
}

/// An instance of a measurement or calibration object.
#[derive(Debug, PartialEq)]
pub struct McInstance<S> {
    pub name: S,
    pub dim_type: McDimType<S>,
    pub object_type: McObjectType,
    /// The physical unit, or the texts of an enumeration.
    pub unit: Option<S>,
    pub address: McAddress,
}

/// An event.
#[derive(Debug, PartialEq)]
pub struct McEvent<S> {
    pub name: S,
    pub index: u16,
    pub id: u16,
    /// Cycle time in nanoseconds, 0 if it is not known.
    pub cycle: u32,
    /// Compilation unit and function of the trigger.
    pub location: Option<(usize, S)>,
    /// Offset of the canonical frame address at the trigger.
    pub cfa: i32,
}

/// The addressing of a calibration segment.
#[derive(Debug, Clone, Copy, PartialEq, Eq, Structural)]
pub enum SegmentAddress {
    /// The address and the index that the segment was given.
    Known { addr: u32, index: u16 },
    /// A new segment that is to be addressed relative to its own start; it was given no address yet.
    Relative,
    /// A new segment at an absolute address.
    Absolute(u32),
}

/// A calibration segment.
#[derive(Debug, PartialEq)]
pub struct McCalibrationSegment<S> {
    pub name: S,
    /// The segment number; blocks have none.
    pub number: Option<u8>,
    pub address: SegmentAddress,
    pub size: u32,
    /// Where the reference page lies in memory.
    pub mem_addr: u64,
}

/// A property of an object. The limits are the bits of a floating point number.
#[derive(Debug, PartialEq)]
pub enum McMetadata<S> {
    Unit(S),
    Comment(S),
    Min(u64),
    Max(u64),
    ReadWrite,
}

/// A property for an object that is registered already.
#[derive(Debug, PartialEq)]
pub enum MetadataRequest<S> {
    /// For the field at a dotted path in the type of an instance.
    Field { instance: S, path: S, data: McMetadata<S> },
    /// For an instance.
    Instance { name: S, data: McMetadata<S> },
}

impl View for McValueType<String> {
    type V = McValueType<Seq<char>>;

    open spec fn view(&self) -> McValueType<Seq<char>> {
        match *self {
            McValueType::Ubyte => McValueType::Ubyte,
            McValueType::Uword => McValueType::Uword,
            McValueType::Ulong => McValueType::Ulong,
            McValueType::Ulonglong => McValueType::Ulonglong,
            McValueType::Sbyte => McValueType::Sbyte,
            McValueType::Sword => McValueType::Sword,
            McValueType::Slong => McValueType::Slong,
            McValueType::Slonglong => McValueType::Slonglong,
            McValueType::Float32Ieee => McValueType::Float32Ieee,
            McValueType::Float64Ieee => McValueType::Float64Ieee,
            McValueType::Integer { size, signed } => McValueType::Integer { size, signed },
            McValueType::TypeDef(s) => McValueType::TypeDef(s@),
        }
    }
}

impl View for McDimType<String> {
    type V = McDimType<Seq<char>>;

    open spec fn view(&self) -> McDimType<Seq<char>> {
        McDimType { value_type: self.value_type@, x_dim: self.x_dim, y_dim: self.y_dim }
    }
}

impl View for McTypedefField<String> {
    type V = McTypedefField<Seq<char>>;

    open spec fn view(&self) -> McTypedefField<Seq<char>> {
        McTypedefField {
            name: self.name@,
            dim_type: self.dim_type@,
            object_type: self.object_type,
            offset: self.offset,
        }
    }
}

impl View for McTypedef {
    type V = TypedefView;

    open spec fn view(&self) -> TypedefView {
        TypedefView {
            name: self.name@,
            size: self.size,
            fields: self.fields@.map_values(|f: McTypedefField<String>| f@),
        }
    }
}

impl View for McInstance<String> {
    type V = McInstance<Seq<char>>;

    open spec fn view(&self) -> McInstance<Seq<char>> {
        McInstance {
            name: self.name@,
            dim_type: self.dim_type@,
            object_type: self.object_type,
            unit: match self.unit {
                Some(u) => Some(u@),
                None => None,
            },
            address: self.address,
        }
    }
}

impl View for McEvent<String> {
    type V = McEvent<Seq<char>>;

    open spec fn view(&self) -> McEvent<Seq<char>> {
        McEvent {
            name: self.name@,
            index: self.index,
            id: self.id,
            cycle: self.cycle,
            location: match self.location {
                Some((unit_idx, function)) => Some((unit_idx, function@)),
                None => None,
            },
            cfa: self.cfa,
        }
    }
}

impl View for McCalibrationSegment<String> {
    type V = McCalibrationSegment<Seq<char>>;

    open spec fn view(&self) -> McCalibrationSegment<Seq<char>> {
        McCalibrationSegment {
            name: self.name@,
            number: self.number,
            address: self.address,
            size: self.size,
            mem_addr: self.mem_addr,
        }
    }
}

impl View for McMetadata<String> {
    type V = McMetadata<Seq<char>>;

    open spec fn view(&self) -> McMetadata<Seq<char>> {
        match *self {
            McMetadata::Unit(s) => McMetadata::Unit(s@),
            McMetadata::Comment(s) => McMetadata::Comment(s@),
            McMetadata::Min(bits) => McMetadata::Min(bits),
            McMetadata::Max(bits) => McMetadata::Max(bits),
            McMetadata::ReadWrite => McMetadata::ReadWrite,
        }
    }
}

impl View for MetadataRequest<String> {
    type V = MetadataRequest<Seq<char>>;

    open spec fn view(&self) -> MetadataRequest<Seq<char>> {
        match *self {
            MetadataRequest::Field { instance, path, data } => MetadataRequest::Field {
                instance: instance@,
                path: path@,
                data: data@,
            },
            MetadataRequest::Instance { name, data } => MetadataRequest::Instance {
                name: name@,
                data: data@,
            },
        }
    }
}

impl McEvent<String> {
    /// An event without a trigger location.
    pub fn new(name: &str, index: u16, id: u16, cycle: u32) -> (e: Self)
        ensures
            e@ == (McEvent { name: name@, index, id, cycle, location: None, cfa: 0 }),
    {
        McEvent { name: name.to_owned(), index, id, cycle, location: None, cfa: 0 }
    }

    /// The event id.
    pub fn get_id(&self) -> (id: u16)
        ensures
            id == self.id,
    {
        self.id
    }
}

/// The first event that has the name and the index.
pub open spec fn event_named(events: Seq<McEvent<Seq<char>>>, name: Seq<char>, index: u16) -> Option<
    int,
>
    decreases events.len(),
{
    if events.len() == 0 {
        None
    } else {
        match event_named(events.drop_last(), name, index) {
            Some(i) => Some(i),
            None => if events.last().name == name && events.last().index == index {
                Some(events.len() - 1)
            } else {
                None
            },
        }
    }
}

/// An event has the id.
pub open spec fn id_taken(events: Seq<McEvent<Seq<char>>>, id: u16) -> bool {
    exists|i: int| 0 <= i < events.len() && (#[trigger] events[i]).id == id
}

/// The first event that is triggered in a function of a compilation unit.
pub open spec fn event_at(
    events: Seq<McEvent<Seq<char>>>,
    unit_idx: usize,
    function: Seq<char>,
) -> Option<int>
    decreases events.len(),
{
    if events.len() == 0 {
        None
    } else {
        match event_at(events.drop_last(), unit_idx, function) {
            Some(i) => Some(i),
            None => if events.last().location == Some((unit_idx, function)) {
                Some(events.len() - 1)
            } else {
                None
            },
        }
    }
}

/// An event that is found stands in the list and has the name and index; none before it has them,
/// and where none is found none has them.
pub proof fn lemma_event_named(events: Seq<McEvent<Seq<char>>>, name: Seq<char>, index: u16)
    ensures
        match event_named(events, name, index) {
            Some(i) => 0 <= i < events.len() && events[i].name == name && events[i].index == index
                && forall|j: int|
                0 <= j < i ==> !((#[trigger] events[j]).name == name && events[j].index == index),
            None => forall|j: int|
                0 <= j < events.len() ==> !((#[trigger] events[j]).name == name && events[j].index
                    == index),
        },
    decreases events.len(),
{
    if events.len() > 0 {
        let init = events.drop_last();
        lemma_event_named(init, name, index);
        assert forall|j: int| 0 <= j < init.len() implies init[j] == #[trigger] events[j] by {}
    }
}

/// An event that is found by its trigger location stands in the list and has that location.
pub proof fn lemma_event_at(events: Seq<McEvent<Seq<char>>>, unit_idx: usize, function: Seq<char>)
    ensures
        match event_at(events, unit_idx, function) {
            Some(i) => 0 <= i < events.len() && events[i].location == Some((unit_idx, function))
                && forall|j: int|
                0 <= j < i ==> (#[trigger] events[j]).location != Some((unit_idx, function)),
            None => forall|j: int|
                0 <= j < events.len() ==> (#[trigger] events[j]).location != Some(
                    (unit_idx, function),
                ),
        },
    decreases events.len(),
{
    if events.len() > 0 {
        let init = events.drop_last();
        lemma_event_at(init, unit_idx, function);
        assert forall|j: int| 0 <= j < init.len() implies init[j] == #[trigger] events[j] by {}
    }
}

/// An event that comes in is found under its name and index, and changes nothing for others.
pub proof fn law_added_event_is_found(
    events: Seq<McEvent<Seq<char>>>,
    event: McEvent<Seq<char>>,
    name: Seq<char>,
    index: u16,
)
    requires
        event_named(events, event.name, event.index) is None,
    ensures
        event_named(events.push(event), event.name, event.index) == Some(events.len() as int),
        name != event.name || index != event.index ==> event_named(events.push(event), name, index)
            == event_named(events, name, index),
        id_taken(events.push(event), event.id),
{
    assert(events.push(event).drop_last() =~= events);
    assert(events.push(event)[events.len() as int].id == event.id);
}

/// The registered events.
pub struct EventList {
    pub events: Vec<McEvent<String>>,
}

impl View for EventList {
    type V = Seq<McEvent<Seq<char>>>;

    open spec fn view(&self) -> Seq<McEvent<Seq<char>>> {
        self.events@.map_values(|e: McEvent<String>| e@)
    }
}

impl EventList {
    /// A list of the same events.
    pub fn copy(&self) -> (r: Self)
        ensures
            r@ == self@,
    {
        let mut events: Vec<McEvent<String>> = Vec::new();
        let n: usize = self.events.len();
        for i in 0..n
            invariant
                n == self.events@.len(),
                events@.len() == i,
                forall|k: int| 0 <= k < i ==> (#[trigger] events@[k])@ == self.events@[k]@,
        {
            let e = &self.events[i];
            events.push(
                McEvent {
                    name: e.name.clone(),
                    index: e.index,
                    id: e.id,
                    cycle: e.cycle,
                    location: match &e.location {
                        Some((unit_idx, function)) => Some((*unit_idx, function.clone())),
                        None => None,
                    },
                    cfa: e.cfa,
                },
            );
            assert(events@[i as int]@ == self.events@[i as int]@);
        }
        let r = EventList { events };
        assert(r@ =~= self@);
        r
    }

    /// The position of the first event that has the name and the index.
    fn position(&self, name: &str, index: u16) -> (r: Option<usize>)
        ensures
            match r {
                Some(i) => event_named(self@, name@, index) == Some(i as int),
                None => event_named(self@, name@, index) is None,
            },
            r matches Some(i) ==> i < self@.len(),
    {
        let n: usize = self.events.len();
        let mut i: usize = 0;
        while i < n
            invariant
                n == self.events.len(),
                i <= n,
                event_named(self@.take(i as int), name@, index) is None,
            decreases n - i,
        {
            proof {
                assert(self@.take(i + 1).drop_last() =~= self@.take(i as int));
                assert(self@.take(i + 1).last() == self.events@[i as int]@);
            }
            if same_text(self.events[i].name.as_str(), name) && self.events[i].index == index {
                proof {
                    lemma_event_named(self@, name@, index);
                    lemma_event_named(self@.take(i as int), name@, index);
                    assert(self@[i as int] == self.events@[i as int]@);
                    assert forall|j: int| 0 <= j < i implies self@.take(i as int)[j]
                        == #[trigger] self@[j] by {}
                }
                return Some(i);
            }
            i = i + 1;
        }
        assert(self@.take(n as int) =~= self@);
        None
    }

    /// The event of a name and index.
    pub fn find_event(&self, name: &str, index: u16) -> (r: Option<&McEvent<String>>)
        ensures
            r is Some <==> event_named(self@, name@, index) is Some,
            r matches Some(e) ==> e@ == self@[event_named(self@, name@, index)->0],
    {
        match self.position(name, index) {
            Some(i) => Some(&self.events[i]),
            None => None,
        }
    }

    /// The first event that has the id.
    pub fn find_event_id(&self, id: u16) -> (r: Option<&McEvent<String>>)
        ensures
            r is Some <==> id_taken(self@, id),
            r matches Some(e) ==> exists|i: int|
                0 <= i < self@.len() && (#[trigger] self@[i]) == e@ && e.id == id && forall|j: int|
                    0 <= j < i ==> (#[trigger] self@[j]).id != id,
    {
        let n: usize = self.events.len();
        for i in 0..n
            invariant
                n == self.events.len(),
                forall|j: int| 0 <= j < i ==> (#[trigger] self@[j]).id != id,
        {
            assert(self@[i as int] == self.events@[i as int]@);
            if self.events[i].id == id {
                return Some(&self.events[i]);
            }
        }
        None
    }

    /// The first event that is triggered in a function of a compilation unit.
    pub fn find_event_by_location(&self, unit_idx: usize, function: &str) -> (r: Option<
        &McEvent<String>,
    >)
        ensures
            r is Some <==> event_at(self@, unit_idx, function@) is Some,
            r matches Some(e) ==> e@ == self@[event_at(self@, unit_idx, function@)->0],
    {
        let n: usize = self.events.len();
        let mut i: usize = 0;
        while i < n
            invariant
                n == self.events.len(),
                i <= n,
                event_at(self@.take(i as int), unit_idx, function@) is None,
            decreases n - i,
        {
            proof {
                assert(self@.take(i + 1).drop_last() =~= self@.take(i as int));
                assert(self@.take(i + 1).last() == self.events@[i as int]@);
                assert(self@[i as int] == self.events@[i as int]@);
            }
            if let Some((u, f)) = &self.events[i].location {
                if *u == unit_idx && same_text(f.as_str(), function) {
                    proof {
                        lemma_event_at(self@, unit_idx, function@);
                        lemma_event_at(self@.take(i as int), unit_idx, function@);
                        assert forall|j: int| 0 <= j < i implies self@.take(i as int)[j]
                            == #[trigger] self@[j] by {}
                    }
                    return Some(&self.events[i]);
                }
            }
            i = i + 1;
        }
        assert(self@.take(n as int) =~= self@);
        None
    }

    /// Adds an event, unless one of its name and index or of its id is there.
    pub fn add_event(&mut self, event: McEvent<String>) -> (r: Result<(), RegistryError>)
        ensures
            r is Err <==> event_named(old(self)@, event.name@, event.index) is Some || id_taken(
                old(self)@,
                event.id,
            ),
            r matches Err(e) ==> e == RegistryError::Duplicate && final(self)@ == old(self)@,
            r is Ok ==> final(self)@ == old(self)@.push(event@),
    {
        if self.position(event.name.as_str(), event.index).is_some() || self.find_event_id(
            event.id,
        ).is_some() {
            return Err(RegistryError::Duplicate);
        }
        let ghost before = self@;
        let ghost added = event@;
        self.events.push(event);
        assert(self@ =~= before.push(added));
        Ok(())
    }

    /// Sets the trigger location of the event of a name with index 0.
    pub fn set_event_location(&mut self, name: &str, unit_idx: usize, function: &str, cfa: i32) -> (r:
        Result<(), RegistryError>)
        ensures
            match event_named(old(self)@, name@, 0) {
                Some(i) => {
                    &&& r is Ok
                    &&& final(self)@ == old(self)@.update(
                        i,
                        (McEvent {
                            location: Some((unit_idx, function@)),
                            cfa,
                            ..old(self)@[i]
                        }),
                    )
                },
                None => r == Err::<(), RegistryError>(RegistryError::NotFound) && final(self)@ == old(
                    self,
                )@,
            },
    {
        match self.position(name, 0) {
            Some(i) => {
                let ghost before = self@;
                let e = McEvent {
                    name: self.events[i].name.clone(),
                    index: self.events[i].index,
                    id: self.events[i].id,
                    cycle: self.events[i].cycle,
                    location: Some((unit_idx, function.to_owned())),
                    cfa,
                };
                let ghost updated = e@;
                assert(before[i as int] == self.events@[i as int]@);
                self.events.set(i, e);
                assert(self@ =~= before.update(i as int, updated));
                Ok(())
            },
            None => Err(RegistryError::NotFound),
        }
    }
}

/// The first segment of a name.
pub open spec fn segment_named(
    segments: Seq<McCalibrationSegment<Seq<char>>>,
    name: Seq<char>,
) -> Option<int>
    decreases segments.len(),
{
    if segments.len() == 0 {
        None
    } else {
        match segment_named(segments.drop_last(), name) {
            Some(i) => Some(i),
            None => if segments.last().name == name {
                Some(segments.len() - 1)
            } else {
                None
            },
        }
    }
}

/// The memory address lies on the reference page of the segment.
pub open spec fn segment_holds(s: McCalibrationSegment<Seq<char>>, mem_addr: u64) -> bool {
    s.mem_addr <= mem_addr < s.mem_addr + s.size
}

/// The first segment whose reference page holds a memory address.
pub open spec fn segment_with(segments: Seq<McCalibrationSegment<Seq<char>>>, mem_addr: u64) -> Option<
    int,
>
    decreases segments.len(),
{
    if segments.len() == 0 {
        None
    } else {
        match segment_with(segments.drop_last(), mem_addr) {
            Some(i) => Some(i),
            None => if segment_holds(segments.last(), mem_addr) {
                Some(segments.len() - 1)
            } else {
                None
            },
        }
    }
}

/// A segment that is found by name stands in the list and has the name, and none before it has.
pub proof fn lemma_segment_named(segments: Seq<McCalibrationSegment<Seq<char>>>, name: Seq<char>)
    ensures
        match segment_named(segments, name) {
            Some(i) => 0 <= i < segments.len() && segments[i].name == name && forall|j: int|
                0 <= j < i ==> (#[trigger] segments[j]).name != name,
            None => forall|j: int| 0 <= j < segments.len() ==> (#[trigger] segments[j]).name != name,
        },
    decreases segments.len(),
{
    if segments.len() > 0 {
        let init = segments.drop_last();
        lemma_segment_named(init, name);
        assert forall|j: int| 0 <= j < init.len() implies init[j] == #[trigger] segments[j] by {}
    }
}

/// A segment that is found by address stands in the list and holds the address, and none before it
/// does.
pub proof fn lemma_segment_with(segments: Seq<McCalibrationSegment<Seq<char>>>, mem_addr: u64)
    ensures
        match segment_with(segments, mem_addr) {
            Some(i) => 0 <= i < segments.len() && segment_holds(segments[i], mem_addr) && forall|
                j: int,
            |
                0 <= j < i ==> !segment_holds(#[trigger] segments[j], mem_addr),
            None => forall|j: int|
                0 <= j < segments.len() ==> !segment_holds(#[trigger] segments[j], mem_addr),
        },
    decreases segments.len(),
{
    if segments.len() > 0 {
        let init = segments.drop_last();
        lemma_segment_with(init, mem_addr);
        assert forall|j: int| 0 <= j < init.len() implies init[j] == #[trigger] segments[j] by {}
    }
}

/// The registered calibration segments.
pub struct CalSegList {
    pub segments: Vec<McCalibrationSegment<String>>,
}

impl View for CalSegList {
    type V = Seq<McCalibrationSegment<Seq<char>>>;

    open spec fn view(&self) -> Seq<McCalibrationSegment<Seq<char>>> {
        self.segments@.map_values(|s: McCalibrationSegment<String>| s@)
    }
}

impl CalSegList {
    /// The position of the first segment of a name.
    pub fn position(&self, name: &str) -> (r: Option<usize>)
        ensures
            match r {
                Some(i) => segment_named(self@, name@) == Some(i as int) && i < self@.len(),
                None => segment_named(self@, name@) is None,
            },
    {
        let n: usize = self.segments.len();
        let mut i: usize = 0;
        while i < n
            invariant
                n == self.segments.len(),
                i <= n,
                segment_named(self@.take(i as int), name@) is None,
            decreases n - i,
        {
            proof {
                assert(self@.take(i + 1).drop_last() =~= self@.take(i as int));
                assert(self@.take(i + 1).last() == self.segments@[i as int]@);
            }
            if same_text(self.segments[i].name.as_str(), name) {
                proof {
                    lemma_segment_named(self@, name@);
                    lemma_segment_named(self@.take(i as int), name@);
                    assert(self@[i as int] == self.segments@[i as int]@);
                    assert forall|j: int| 0 <= j < i implies self@.take(i as int)[j]
                        == #[trigger] self@[j] by {}
                }
                return Some(i);
            }
            i = i + 1;
        }
        assert(self@.take(n as int) =~= self@);
        None
    }

    /// The first segment of a name.
    pub fn find_cal_seg(&self, name: &str) -> (r: Option<&McCalibrationSegment<String>>)
        ensures
            r is Some <==> segment_named(self@, name@) is Some,
            r matches Some(s) ==> s@ == self@[segment_named(self@, name@)->0],
    {
        match self.position(name) {
            Some(i) => Some(&self.segments[i]),
            None => None,
        }
    }

    /// The first segment whose reference page holds a memory address.
    pub fn find_cal_seg_by_mem_address(&self, mem_addr: u64) -> (r: Option<
        &McCalibrationSegment<String>,
    >)
        ensures
            r is Some <==> segment_with(self@, mem_addr) is Some,
            r matches Some(s) ==> s@ == self@[segment_with(self@, mem_addr)->0],
    {
        let n: usize = self.segments.len();
        let mut i: usize = 0;
        while i < n
            invariant
                n == self.segments.len(),
                i <= n,
                segment_with(self@.take(i as int), mem_addr) is None,
            decreases n - i,
        {
            proof {
                assert(self@.take(i + 1).drop_last() =~= self@.take(i as int));
                assert(self@.take(i + 1).last() == self.segments@[i as int]@);
            }
            let s = &self.segments[i];
            if s.mem_addr <= mem_addr && mem_addr - s.mem_addr < s.size as u64 {
                proof {
                    lemma_segment_with(self@, mem_addr);
                    lemma_segment_with(self@.take(i as int), mem_addr);
                    assert(self@[i as int] == self.segments@[i as int]@);
                    assert forall|j: int| 0 <= j < i implies self@.take(i as int)[j]
                        == #[trigger] self@[j] by {}
                }
                return Some(&self.segments[i]);
            }
            i = i + 1;
        }
        assert(self@.take(n as int) =~= self@);
        None
    }

    /// Adds a segment at the end.
    pub fn add_cal_seg(&mut self, segment: McCalibrationSegment<String>)
        ensures
            final(self)@ == old(self)@.push(segment@),
    {
        let ghost before = self@;
        let ghost added = segment@;
        self.segments.push(segment);
        assert(self@ =~= before.push(added));
    }

    /// Sets where the reference page of a segment lies in memory.
    pub fn set_mem_addr(&mut self, i: usize, mem_addr: u64)
        requires
            i < old(self)@.len(),
        ensures
            final(self)@ == old(self)@.update(
                i as int,
                (McCalibrationSegment { mem_addr, ..old(self)@[i as int] }),
            ),
    {
        let ghost before = self@;
        let s = McCalibrationSegment {
            name: self.segments[i].name.clone(),
            number: self.segments[i].number,
            address: self.segments[i].address,
            size: self.segments[i].size,
            mem_addr,
        };
        let ghost updated = s@;
        assert(before[i as int] == self.segments@[i as int]@);
        self.segments.set(i, s);
        assert(self@ =~= before.update(i as int, updated));
    }
}

/// How the registry writes the names of types and the addresses of stack variables.
pub struct A2lFormat {
    /// The identifiers of those type names that are not identifiers themselves.
    pub identifiers: NameMap<String>,
    /// What is added to the offset of a stack variable.
    pub dyn_offset_offset: u32,
    /// The bits of an address that hold the offset.
    pub dyn_offset_mask: u32,
    /// How far the event id is shifted in an address.
    pub dyn_offset_bits: u32,
}

impl A2lFormat {
    /// The identifier of a type name.
    pub open spec fn identifier(&self, name: Seq<char>) -> Seq<char> {
        match lookup(self.identifiers.order(), name) {
            Some(id) => id@,
            None => name,
        }
    }

    /// The identifier of a type name.
    pub fn make_identifier<'a>(&'a self, name: &'a str) -> (id: &'a str)
        ensures
            id@ == self.identifier(name@),
    {
        match self.identifiers.get(name) {
            Some(id) => id.as_str(),
            None => name,
        }
    }
}

/// A type of the identifier is registered.
pub open spec fn has_typedef(typedefs: Seq<TypedefView>, name: Seq<char>) -> bool {
    exists|i: int| 0 <= i < typedefs.len() && (#[trigger] typedefs[i]).name == name
}

/// The registered types.
pub struct TypedefList {
    pub typedefs: Vec<McTypedef>,
}

impl View for TypedefList {
    type V = Seq<TypedefView>;

    open spec fn view(&self) -> Seq<TypedefView> {
        self.typedefs@.map_values(|t: McTypedef| t@)
    }
}

impl TypedefList {
    /// The number of registered types.
    pub fn len(&self) -> (n: usize)
        ensures
            n == self@.len(),
    {
        self.typedefs.len()
    }

    /// The first registered type of an identifier.
    pub fn find_typedef(&self, name: &str) -> (r: Option<&McTypedef>)
        ensures
            r is Some <==> has_typedef(self@, name@),
            r matches Some(t) ==> exists|i: int|
                0 <= i < self@.len() && (#[trigger] self@[i]) == t@ && t@.name == name@ && forall|
                    j: int,
                |
                    0 <= j < i ==> (#[trigger] self@[j]).name != name@,
    {
        let n: usize = self.typedefs.len();
        for i in 0..n
            invariant
                n == self.typedefs.len(),
                forall|j: int| 0 <= j < i ==> (#[trigger] self@[j]).name != name@,
        {
            assert(self@[i as int] == self.typedefs@[i as int]@);
            if same_text(self.typedefs[i].name.as_str(), name) {
                return Some(&self.typedefs[i]);
            }
        }
        None
    }

    /// Adds a type without fields at the end, unless one of its identifier is there; gives its
    /// position.
    pub fn add_typedef(&mut self, name: &str, size: u64) -> (r: Result<usize, RegistryError>)
        ensures
            r is Err <==> has_typedef(old(self)@, name@),
            r matches Err(e) ==> e == RegistryError::Duplicate && final(self)@ == old(self)@,
            r matches Ok(i) ==> i == old(self)@.len() && final(self)@ == old(self)@.push(
                (TypedefView { name: name@, size, fields: Seq::empty() }),
            ),
    {
        if self.find_typedef(name).is_some() {
            return Err(RegistryError::Duplicate);
        }
        let ghost before = self@;
        let i: usize = self.typedefs.len();
        let t = McTypedef { name: name.to_owned(), size, fields: Vec::new() };
        proof {
            assert(t@.fields =~= Seq::<McTypedefField<Seq<char>>>::empty());
        }
        let ghost added = t@;
        self.typedefs.push(t);
        assert(self@ =~= before.push(added));
        Ok(i)
    }

    /// Adds a field at the end of the type at a position.
    pub fn add_typedef_field(&mut self, i: usize, field: McTypedefField<String>)
        requires
            i < old(self)@.len(),
        ensures
            final(self)@ == old(self)@.update(
                i as int,
                (TypedefView {
                    fields: old(self)@[i as int].fields.push(field@),
                    ..old(self)@[i as int]
                }),
            ),
    {
        let ghost before = self@;
        let ghost added = field@;
        assert(before[i as int] == self.typedefs@[i as int]@);
        self.typedefs[i].fields.push(field);
        proof {
            let t = self.typedefs@[i as int];
            assert(t@.fields =~= before[i as int].fields.push(added));
            assert(self@ =~= before.update(
                i as int,
                TypedefView {
                    fields: before[i as int].fields.push(added),
                    ..before[i as int]
                },
            ));
        }
    }
}

/// The registered instances, in the order in which they came.
pub struct InstanceList {
    pub instances: Vec<McInstance<String>>,
}

impl View for InstanceList {
    type V = Seq<McInstance<Seq<char>>>;

    open spec fn view(&self) -> Seq<McInstance<Seq<char>>> {
        self.instances@.map_values(|i: McInstance<String>| i@)
    }
}

impl InstanceList {
    /// Adds an instance at the end.
    pub fn add_instance(&mut self, instance: McInstance<String>)
        ensures
            final(self)@ == old(self)@.push(instance@),
    {
        let ghost before = self@;
        let ghost added = instance@;
        self.instances.push(instance);
        assert(self@ =~= before.push(added));
    }
}

/// Everything that is registered.
pub struct Registry {
    /// EPK version string and its address.
    pub version: Option<(String, u32)>,
    pub event_list: EventList,
    pub cal_seg_list: CalSegList,
    pub typedef_list: TypedefList,
    pub instance_list: InstanceList,
    /// Properties for registered objects, in the order in which they came.
    pub metadata: Vec<MetadataRequest<String>>,
}

/// The properties in a registry.
pub open spec fn metadata_view(v: Seq<MetadataRequest<String>>) -> Seq<MetadataRequest<Seq<char>>> {
    v.map_values(|m: MetadataRequest<String>| m@)
}

impl Registry {
    /// A registry in which nothing is registered.
    pub fn new() -> (r: Self)
        ensures
            r.version is None,
            r.event_list@.len() == 0,
            r.cal_seg_list@.len() == 0,
            r.typedef_list@.len() == 0,
            r.instance_list@.len() == 0,
            r.metadata@.len() == 0,
    {
        Registry {
            version: None,
            event_list: EventList { events: Vec::new() },
            cal_seg_list: CalSegList { segments: Vec::new() },
            typedef_list: TypedefList { typedefs: Vec::new() },
            instance_list: InstanceList { instances: Vec::new() },
            metadata: Vec::new(),
        }
    }
}

} // verus!
