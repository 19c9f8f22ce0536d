//! Registration of variables: for every instance of a variable, whether it is registered, and under
//! which name, with which address, event and type.
use vstd::prelude::*;
use vstd::string::*;

use crate::debuginfo::{DbgDataType, DebugData, TypeInfo, VarInfo};
use crate::elf_reader::ElfReader;
use crate::filter::{check_filter, filter_passes, filter_valid, passes};
use crate::registry::{
    event_at, event_named, lemma_event_at, lemma_segment_with, segment_holds, segment_with,
    A2lFormat, McAddress, McCalibrationSegment, McEvent, McInstance, McObjectType, Registry,
    SegmentAddress, TypedefView,
};
use crate::text::{
    after_sep, before_sep, behind_sep, cut_at_sep, decimal, decimal_i64,
    law_cutting_at_a_separator_loses_nothing, starts_with, strip_prefix, stripped,
};
use crate::types::{
    can_register_dims, can_register_refs, dim_type, element_type, law_types_stay_consistent,
    lemma_registration_total, lemma_typedefs_after, references_ok, refers, typedefs_after,
    typedefs_distinct,
};
use crate::variable_map::{variable_at, variable_count};

verus! {

/// Why no variables were registered.
#[derive(Debug)]
pub enum VariableError {
    /// The filter on variable names is no regular expression.
    InvalidNameFilter(regex::Error),
    /// The filter on compilation units is no regular expression.
    InvalidUnitFilter(regex::Error),
}

/// Everything that decides which instances are registered, and how.
pub struct Scan {
    pub dd: DebugData,
    pub format: A2lFormat,
    pub events: Seq<McEvent<Seq<char>>>,
    pub segments: Seq<McCalibrationSegment<Seq<char>>>,
    pub seg_relative: bool,
    pub unit_idx_limit: usize,
    pub name_filter: Seq<char>,
    pub unit_filter: Seq<char>,
}

/// An instance to be registered, and its type.
pub struct Planned {
    pub instance: McInstance<Seq<char>>,
    pub type_info: TypeInfo,
}

/// Names of the standard library and the compiler, of the XCP implementation, and markers.
pub open spec fn is_internal_name(name: Seq<char>) -> bool {
    ||| "__"@.is_prefix_of(name)
    ||| "gXcp"@.is_prefix_of(name)
    ||| "gA2l"@.is_prefix_of(name)
    ||| "calseg__"@.is_prefix_of(name)
    ||| "calblk__"@.is_prefix_of(name)
    ||| "evt__"@.is_prefix_of(name)
    ||| "trg__"@.is_prefix_of(name)
    ||| "xcp_meta__"@.is_prefix_of(name)
}

/// The event and the variable in the name `daq__<event>__<variable>` of a captured variable. All
/// behind the event is the name of the variable.
pub open spec fn captured(name: Seq<char>) -> Option<(Seq<char>, Seq<char>)> {
    match stripped(name, "daq__"@) {
        Some(rest) => Some((before_sep(rest), behind_sep(rest))),
        None => None,
    }
}

/// A name behind the scope it belongs to, if there is one.
pub open spec fn scoped(scope: Seq<char>, name: Seq<char>) -> Seq<char> {
    if scope.len() > 0 {
        scope + "."@ + name
    } else {
        name
    }
}

/// The function that an instance is local to; empty if there is none.
pub open spec fn function_of(info: VarInfo) -> Seq<char> {
    match info.function {
        Some(f) => f@,
        None => Seq::empty(),
    }
}

/// The number of instances in compilation units up to a limit, among the first `n`.
pub open spec fn count_in_units(infos: Seq<VarInfo>, unit_idx_limit: usize, n: nat) -> nat
    decreases n,
{
    if n == 0 {
        0
    } else {
        count_in_units(infos, unit_idx_limit, (n - 1) as nat) + if infos[n - 1].unit_idx
            <= unit_idx_limit {
            1nat
        } else {
            0nat
        }
    }
}

/// An address as a signed number.
pub open spec fn signed(addr: u64) -> int {
    if addr < 0x8000_0000_0000_0000 {
        addr as int
    } else {
        addr - 0x1_0000_0000_0000_0000
    }
}

/// The address at which a segment lies in the A2L address space, if it was given one.
pub open spec fn segment_address(s: McCalibrationSegment<Seq<char>>) -> Option<u32> {
    match s.address {
        SegmentAddress::Known { addr, .. } => Some(addr),
        SegmentAddress::Absolute(addr) => Some(addr),
        SegmentAddress::Relative => None,
    }
}

/// A memory address that lies in a segment has an A2L address: the segment was given one, the
/// offset takes 16 bits and the sum 32 bits.
pub open spec fn fits_segment(
    segments: Seq<McCalibrationSegment<Seq<char>>>,
    mem_addr: u64,
) -> bool {
    segment_with(segments, mem_addr) matches Some(k) ==> {
        let offset = mem_addr - segments[k].mem_addr;
        &&& offset <= 0xFFFF
        &&& segment_address(segments[k]) matches Some(addr) && addr + offset <= 0xFFFF_FFFF
    }
}

/// Types of variables that are registered: numbers, arrays, structs and enumerations.
pub open spec fn is_supported(t: TypeInfo) -> bool {
    match t.datatype {
        DbgDataType::Uint8
        | DbgDataType::Uint16
        | DbgDataType::Uint32
        | DbgDataType::Uint64
        | DbgDataType::Sint8
        | DbgDataType::Sint16
        | DbgDataType::Sint32
        | DbgDataType::Sint64
        | DbgDataType::Float
        | DbgDataType::Double
        | DbgDataType::Array { .. }
        | DbgDataType::Struct { .. }
        | DbgDataType::Enum { .. } => true,
        _ => false,
    }
}

/// The unit of a variable: the texts of an enumeration, nothing for any other type.
pub open spec fn unit_of(t: TypeInfo) -> Option<Seq<char>> {
    match t.datatype {
        DbgDataType::Enum { enumerators, .. } => if enumerators@.len() > 0 {
            Some(enumerators_text(enumerators@, enumerators@.len()))
        } else {
            None
        },
        _ => None,
    }
}

impl Scan {
    /// The id of the event a variable was captured with, 0 for a variable that was not captured;
    /// nothing if the event is not registered.
    pub open spec fn default_event(&self, name: Seq<char>) -> Option<u16> {
        match captured(name) {
            Some((event, _)) => match event_named(self.events, event, 0) {
                Some(i) => Some(self.events[i].id),
                None => None,
            },
            None => Some(0u16),
        }
    }

    /// The name of the only instance of a variable.
    pub open spec fn default_name(&self, name: Seq<char>) -> Seq<char> {
        match captured(name) {
            Some((event, var)) => scoped(event, var),
            None => name,
        }
    }

    /// The variables of a name come into question, whatever the filters.
    pub open spec fn considers(&self, name: Seq<char>) -> bool {
        !is_internal_name(name) && self.default_event(name) is Some
    }

    /// The event that is triggered in the function of an instance.
    pub open spec fn scope_event(&self, info: VarInfo) -> Option<int> {
        event_at(self.events, info.unit_idx, function_of(info))
    }

    /// The offset of a stack variable from the frame of the function that triggers an event.
    pub open spec fn frame_offset(&self, info: VarInfo, event: int) -> int {
        signed(info.address.1) - 0x8000_0000 + self.events[event].cfa
    }

    /// The address of a stack variable: its offset and the id of the event.
    pub open spec fn dyn_address(&self, offset: int, event: int) -> u64 {
        (((offset + self.format.dyn_offset_offset) as u64) & (self.format.dyn_offset_mask as u64)) | ((
        self.events[event].id as u64) << self.format.dyn_offset_bits)
    }

    /// The memory address of an instance. An absolute address takes 32 bits and is neither 0 nor
    /// all ones; the offset of a stack variable needs an event and has to fit the address format.
    pub open spec fn address(&self, info: VarInfo) -> Option<u64> {
        if info.address.0 == 0 {
            if info.address.1 == 0 || info.address.1 >= 0xFFFF_FFFF {
                None
            } else {
                Some(info.address.1)
            }
        } else if info.address.0 == 2 {
            match self.scope_event(info) {
                Some(e) => {
                    let offset = self.frame_offset(info, e);
                    if 0 <= offset + self.format.dyn_offset_offset
                        <= self.format.dyn_offset_mask {
                        Some(self.dyn_address(offset, e))
                    } else {
                        None
                    }
                },
                None => None,
            }
        } else {
            None
        }
    }

    /// The name under which an instance is registered: stack variables, and variables with several
    /// instances, are named with the function they are local to.
    pub open spec fn instance_name(&self, name: Seq<char>, infos: Seq<VarInfo>, info: VarInfo) -> Seq<
        char,
    > {
        if info.address.0 != 0 || count_in_units(infos, self.unit_idx_limit, infos.len()) > 1 {
            scoped(function_of(info), name)
        } else {
            self.default_name(name)
        }
    }

    /// The event of an instance: the one that is triggered in its function, or else the one that it
    /// was captured with, or else 0.
    pub open spec fn event_id(&self, name: Seq<char>, info: VarInfo) -> u16 {
        match self.scope_event(info) {
            Some(e) => self.events[e].id,
            None => self.default_event(name)->0,
        }
    }

    /// What an instance at a memory address is used for, and its A2L address: in a calibration
    /// segment a parameter in that segment, elsewhere a measurement with its event.
    pub open spec fn placement(&self, name: Seq<char>, info: VarInfo, mem_addr: u64) -> (
        McObjectType,
        McAddress,
    ) {
        match segment_with(self.segments, mem_addr) {
            Some(k) => (
                McObjectType::Characteristic,
                McAddress {
                    event_id: None,
                    addr: (segment_address(self.segments[k])->0 + (mem_addr
                        - self.segments[k].mem_addr)) as u32,
                    addr_ext: 0,
                },
            ),
            None => (
                McObjectType::Measurement,
                McAddress {
                    event_id: Some(self.event_id(name, info)),
                    addr: mem_addr as u32,
                    addr_ext: if self.seg_relative && info.address.0 == 0 {
                        1
                    } else {
                        info.address.0
                    },
                },
            ),
        }
    }

    /// The filters let an instance pass.
    pub open spec fn passes_filters(&self, name: Seq<char>, info: VarInfo) -> bool {
        filter_passes(self.name_filter, name) && filter_passes(
            self.unit_filter,
            self.dd.unit_label(info.unit_idx as int),
        )
    }

    /// What is registered for an instance, if anything.
    pub open spec fn plan_one(&self, name: Seq<char>, infos: Seq<VarInfo>, info: VarInfo) -> Option<
        Planned,
    > {
        if !self.considers(name) || info.unit_idx > self.unit_idx_limit || !self.passes_filters(
            name,
            info,
        ) {
            None
        } else if !self.dd.types@.contains_key(info.typeref) || !is_supported(
            self.dd.types@[info.typeref],
        ) {
            None
        } else {
            let t = self.dd.types@[info.typeref];
            match self.address(info) {
                Some(mem_addr) => {
                    let (object_type, address) = self.placement(name, info, mem_addr);
                    Some(
                        Planned {
                            instance: McInstance {
                                name: self.instance_name(name, infos, info),
                                dim_type: dim_type(self.dd, self.format, t),
                                object_type,
                                unit: unit_of(t),
                                address,
                            },
                            type_info: t,
                        },
                    )
                },
                None => None,
            }
        }
    }

    /// What is registered for the first `j` instances of a variable.
    pub open spec fn plan_infos(&self, name: Seq<char>, infos: Seq<VarInfo>, j: nat) -> Seq<Planned>
        decreases j,
    {
        if j == 0 {
            Seq::empty()
        } else {
            let before = self.plan_infos(name, infos, (j - 1) as nat);
            match self.plan_one(name, infos, infos[j - 1]) {
                Some(p) => before.push(p),
                None => before,
            }
        }
    }

    /// What is registered for the first `n` variables.
    pub open spec fn plan(&self, n: nat) -> Seq<Planned>
        decreases n,
    {
        if n == 0 {
            Seq::empty()
        } else {
            let (name, infos) = self.dd.vars()[n - 1];
            self.plan((n - 1) as nat) + self.plan_infos(name, infos, infos.len())
        }
    }

    /// The registered types after the types of planned instances came to them.
    pub open spec fn types_after(&self, st: Seq<TypedefView>, plan: Seq<Planned>) -> Seq<TypedefView>
        decreases plan.len(),
    {
        if plan.len() == 0 {
            st
        } else {
            typedefs_after(
                self.dd,
                self.format,
                self.types_after(st, plan.drop_last()),
                element_type(plan.last().type_info),
                plan.last().instance.object_type,
            )
        }
    }

    /// An instance can be registered: unless it is left out, it has an A2L address if it lies in a
    /// calibration segment, and its type can be registered if it is a supported one.
    pub open spec fn info_fits(&self, name: Seq<char>, info: VarInfo) -> bool {
        self.considers(name) && info.unit_idx <= self.unit_idx_limit && self.passes_filters(
            name,
            info,
        ) ==> (self.address(info) matches Some(mem_addr) ==> {
            &&& fits_segment(self.segments, mem_addr)
            &&& self.dd.types@.contains_key(info.typeref) && is_supported(
                self.dd.types@[info.typeref],
            ) ==> can_register_dims(self.dd, self.dd.types@[info.typeref])
        })
    }

    /// The first `n` instances of a variable can be registered.
    pub open spec fn infos_fit(&self, name: Seq<char>, infos: Seq<VarInfo>, n: nat) -> bool {
        forall|j: int| 0 <= j < n ==> self.info_fits(name, #[trigger] infos[j])
    }

    /// The instances of the first `n` variables can be registered.
    pub open spec fn fits(&self, n: nat) -> bool {
        forall|i: int|
            0 <= i < n ==> self.infos_fit(
                (#[trigger] self.dd.vars()[i]).0,
                self.dd.vars()[i].1,
                self.dd.vars()[i].1.len(),
            )
    }
}

/// The instances of a plan.
pub open spec fn instances_of(plan: Seq<Planned>) -> Seq<McInstance<Seq<char>>> {
    plan.map_values(|p: Planned| p.instance)
}

/// The first `n` enumerators as `value "NAME" value "NAME" ...`.
pub open spec fn enumerators_text(enumerators: Seq<(String, i64)>, n: nat) -> Seq<char>
    decreases n,
{
    if n == 0 {
        Seq::empty()
    } else {
        let before = enumerators_text(enumerators, (n - 1) as nat);
        let (name, value) = enumerators[n - 1];
        (if n == 1 {
            before
        } else {
            before + " "@
        }) + decimal(value as int) + " \""@ + name@ + "\""@
    }
}

/// Converts enumerators to the text format of a conversion table: `value "NAME" value "NAME" ...`.
pub fn enumerators_to_unit_string(enumerators: &[(String, i64)]) -> (r: Option<String>)
    ensures
        r is None <==> enumerators@.len() == 0,
        r matches Some(s) ==> s@ == enumerators_text(enumerators@, enumerators@.len()),
{
    let n: usize = enumerators.len();
    if n == 0 {
        return None;
    }
    let mut s = String::new();
    for i in 0..n
        invariant
            n == enumerators@.len(),
            s@ == enumerators_text(enumerators@, i as nat),
    {
        if i > 0 {
            s.append(" ");
        }
        let d = decimal_i64(enumerators[i].1);
        s.append(d.as_str());
        s.append(" \"");
        s.append(enumerators[i].0.as_str());
        s.append("\"");
        assert(s@ =~= enumerators_text(enumerators@, (i + 1) as nat));
    }
    Some(s)
}

/// Registering the types of one plan and then of another registers those of both.
proof fn lemma_types_after_both(scan: Scan, st: Seq<TypedefView>, a: Seq<Planned>, b: Seq<Planned>)
    ensures
        scan.types_after(scan.types_after(st, a), b) == scan.types_after(st, a + b),
    decreases b.len(),
{
    if b.len() == 0 {
        assert(a + b =~= a);
    } else {
        lemma_types_after_both(scan, st, a, b.drop_last());
        assert((a + b).drop_last() =~= a + b.drop_last());
        assert((a + b).last() == b.last());
    }
}

/// Whether a name belongs to the standard library, the compiler or the XCP implementation, or is a
/// marker.
fn internal_name(name: &str) -> (r: bool)
    ensures
        r == is_internal_name(name@),
{
    starts_with(name, "__") || starts_with(name, "gXcp") || starts_with(name, "gA2l")
        || starts_with(name, "calseg__") || starts_with(name, "calblk__") || starts_with(
        name,
        "evt__",
    ) || starts_with(name, "trg__") || starts_with(name, "xcp_meta__")
}

/// A name behind the scope it belongs to, if there is one.
fn make_scoped(scope: &str, name: &str) -> (r: String)
    ensures
        r@ == scoped(scope@, name@),
{
    if scope.unicode_len() > 0 {
        let mut s = scope.to_owned();
        s.append(".");
        s.append(name);
        s
    } else {
        name.to_owned()
    }
}

/// The function that an instance is local to; empty if there is none.
pub(crate) fn function_name(info: &VarInfo) -> (r: &str)
    ensures
        r@ == function_of(*info),
{
    match &info.function {
        Some(f) => f.as_str(),
        None => {
            proof {
                reveal_strlit("");
                assert(""@ =~= Seq::<char>::empty());
            }
            ""
        },
    }
}

/// The memory address of an instance.
fn encode_address(reg: &Registry, format: &A2lFormat, info: &VarInfo, Ghost(scan): Ghost<Scan>) -> (r:
    Option<u64>)
    requires
        scan.events == reg.event_list@,
        scan.format == *format,
        format.dyn_offset_bits < 64,
    ensures
        r == scan.address(*info),
{
    let addr: u64 = info.address.1;
    if info.address.0 == 0 {
        if addr == 0 || addr >= 0xFFFF_FFFF {
            None
        } else {
            Some(addr)
        }
    } else if info.address.0 == 2 {
        match reg.event_list.find_event_by_location(info.unit_idx, function_name(info)) {
            Some(event) => {
                let signed_addr: i128 = if addr < 0x8000_0000_0000_0000 {
                    addr as i128
                } else {
                    addr as i128 - 0x1_0000_0000_0000_0000
                };
                let offset: i128 = signed_addr - 0x8000_0000 + event.cfa as i128;
                let shifted: i128 = offset + format.dyn_offset_offset as i128;
                if 0 <= shifted && shifted <= format.dyn_offset_mask as i128 {
                    Some(
                        ((shifted as u64) & (format.dyn_offset_mask as u64)) | ((event.id as u64)
                            << format.dyn_offset_bits),
                    )
                } else {
                    None
                }
            },
            None => None,
        }
    } else {
        None
    }
}

/// Whether a memory address that lies in a segment has an A2L address.
fn check_segment(reg: &Registry, mem_addr: u64) -> (r: bool)
    ensures
        r == fits_segment(reg.cal_seg_list@, mem_addr),
{
    match reg.cal_seg_list.find_cal_seg_by_mem_address(mem_addr) {
        Some(seg) => {
            proof {
                lemma_segment_with(reg.cal_seg_list@, mem_addr);
            }
            let offset: u64 = mem_addr - seg.mem_addr;
            let seg_addr: u64 = match seg.address {
                SegmentAddress::Known { addr, .. } => addr as u64,
                SegmentAddress::Absolute(addr) => addr as u64,
                SegmentAddress::Relative => {
                    return false;
                },
            };
            offset <= 0xFFFF && seg_addr + offset <= 0xFFFF_FFFF
        },
        None => true,
    }
}

/// What an instance at a memory address is used for, and its A2L address.
fn place(
    reg: &Registry,
    seg_relative: bool,
    default_event: u16,
    info: &VarInfo,
    mem_addr: u64,
    Ghost(scan): Ghost<Scan>,
    Ghost(name): Ghost<Seq<char>>,
) -> (r: (McObjectType, McAddress))
    requires
        scan.events == reg.event_list@,
        scan.segments == reg.cal_seg_list@,
        scan.seg_relative == seg_relative,
        scan.default_event(name) == Some(default_event),
        fits_segment(scan.segments, mem_addr),
    ensures
        r == scan.placement(name, *info, mem_addr),
{
    match reg.cal_seg_list.find_cal_seg_by_mem_address(mem_addr) {
        Some(seg) => {
            proof {
                lemma_segment_with(scan.segments, mem_addr);
            }
            let seg_addr: u32 = match seg.address {
                SegmentAddress::Known { addr, .. } => addr,
                SegmentAddress::Absolute(addr) => addr,
                SegmentAddress::Relative => 0,
            };
            let offset: u32 = (mem_addr - seg.mem_addr) as u32;
            (
                McObjectType::Characteristic,
                McAddress { event_id: None, addr: seg_addr + offset, addr_ext: 0 },
            )
        },
        None => {
            let event_id: u16 = match reg.event_list.find_event_by_location(
                info.unit_idx,
                function_name(info),
            ) {
                Some(event) => event.id,
                None => default_event,
            };
            let addr_ext: u8 = if seg_relative && info.address.0 == 0 {
                1
            } else {
                info.address.0
            };
            (
                McObjectType::Measurement,
                McAddress {
                    event_id: Some(event_id),
                    addr: #[verifier::truncate] (mem_addr as u32),
                    addr_ext,
                },
            )
        },
    }
}

/// Whether variables of a type are registered.
fn supported(t: &TypeInfo) -> (r: bool)
    ensures
        r == is_supported(*t),
{
    match &t.datatype {
        DbgDataType::Uint8
        | DbgDataType::Uint16
        | DbgDataType::Uint32
        | DbgDataType::Uint64
        | DbgDataType::Sint8
        | DbgDataType::Sint16
        | DbgDataType::Sint32
        | DbgDataType::Sint64
        | DbgDataType::Float
        | DbgDataType::Double
        | DbgDataType::Array { .. }
        | DbgDataType::Struct { .. }
        | DbgDataType::Enum { .. } => true,
        _ => false,
    }
}

/// The unit of a variable.
fn make_unit(t: &TypeInfo) -> (r: Option<String>)
    ensures
        crate::debuginfo::opt_text(r) == unit_of(*t),
{
    match &t.datatype {
        DbgDataType::Enum { enumerators, .. } => enumerators_to_unit_string(enumerators.as_slice()),
        _ => None,
    }
}

impl ElfReader {
    /// Everything that decides which variables are registered in a registry.
    pub open spec fn scan(
        &self,
        reg: Registry,
        format: A2lFormat,
        seg_relative: bool,
        unit_idx_limit: usize,
        name_filter: Seq<char>,
        unit_filter: Seq<char>,
    ) -> Scan {
        Scan {
            dd: self.debug_data,
            format,
            events: reg.event_list@,
            segments: reg.cal_seg_list@,
            seg_relative,
            unit_idx_limit,
            name_filter,
            unit_filter,
        }
    }

    /// The variables of the program can be registered: the event id has its place in the address of
    /// a stack variable, and every instance that the filters let pass can be registered.
    pub open spec fn variables_ok(
        &self,
        reg: Registry,
        format: A2lFormat,
        unit_idx_limit: usize,
        name_filter: Seq<char>,
        unit_filter: Seq<char>,
    ) -> bool {
        &&& format.dyn_offset_bits < 64
        &&& filter_valid(name_filter) && filter_valid(unit_filter) ==> self.scan(
            reg,
            format,
            false,
            unit_idx_limit,
            name_filter,
            unit_filter,
        ).fits(self.debug_data.vars().len())
    }

    /// Registers the instances of a variable.
    fn register_instances(
        &self,
        reg: &mut Registry,
        format: &A2lFormat,
        seg_relative: bool,
        unit_idx_limit: usize,
        unit_filter: &str,
        name: &str,
        infos: &Vec<VarInfo>,
        Ghost(scan): Ghost<Scan>,
    )
        requires
            format.dyn_offset_bits < 64,
            scan == self.scan(
                *old(reg),
                *format,
                seg_relative,
                unit_idx_limit,
                scan.name_filter,
                unit_filter@,
            ),
            filter_valid(unit_filter@),
            !is_internal_name(name@),
            filter_passes(scan.name_filter, name@),
            scan.infos_fit(name@, infos@, infos@.len()),
        ensures
            ({
                let plan = scan.plan_infos(name@, infos@, infos@.len());
                &&& final(reg).instance_list@ == old(reg).instance_list@ + instances_of(plan)
                &&& final(reg).typedef_list@ == scan.types_after(old(reg).typedef_list@, plan)
                &&& final(reg).event_list == old(reg).event_list
                &&& final(reg).cal_seg_list == old(reg).cal_seg_list
                &&& final(reg).version == old(reg).version
                &&& final(reg).metadata == old(reg).metadata
            }),
    {
        broadcast use vstd::std_specs::hash::group_hash_axioms;

        let n: usize = infos.len();
        let mut default_event: u16 = 0;
        let mut default_name = name.to_owned();
        if let Some(rest) = strip_prefix(name, "daq__") {
            let (event_name, var_name) = cut_at_sep(rest);
            match reg.event_list.find_event(event_name, 0) {
                Some(event) => {
                    default_event = event.id;
                    default_name = make_scoped(event_name, var_name);
                },
                None => {
                    proof {
                        lemma_plan_nothing(scan, name@, infos@, infos@.len());
                        assert(reg.instance_list@ =~= reg.instance_list@ + instances_of(
                            Seq::<Planned>::empty(),
                        ));
                    }
                    return;
                },
            }
        }
        let mut count: usize = 0;
        for j in 0..n
            invariant
                n == infos@.len(),
                count == count_in_units(infos@, unit_idx_limit, j as nat),
                count <= j,
        {
            if infos[j].unit_idx <= unit_idx_limit {
                count = count + 1;
            }
        }
        let ghost instances = reg.instance_list@;
        let ghost typedefs = reg.typedef_list@;
        assert(reg.instance_list@ =~= instances + instances_of(Seq::<Planned>::empty()));
        let mut j: usize = 0;
        while j < n
            invariant
                n == infos@.len(),
                j <= n,
                format.dyn_offset_bits < 64,
                scan == self.scan(
                    *old(reg),
                    *format,
                    seg_relative,
                    unit_idx_limit,
                    scan.name_filter,
                    unit_filter@,
                ),
                filter_valid(unit_filter@),
                filter_passes(scan.name_filter, name@),
                scan.considers(name@),
                scan.default_event(name@) == Some(default_event),
                scan.default_name(name@) == default_name@,
                count == count_in_units(infos@, unit_idx_limit, n as nat),
                scan.infos_fit(name@, infos@, infos@.len()),
                reg.instance_list@ == instances + instances_of(
                    scan.plan_infos(name@, infos@, j as nat),
                ),
                reg.typedef_list@ == scan.types_after(
                    typedefs,
                    scan.plan_infos(name@, infos@, j as nat),
                ),
                reg.event_list == old(reg).event_list,
                reg.cal_seg_list == old(reg).cal_seg_list,
                reg.version == old(reg).version,
                reg.metadata == old(reg).metadata,
            decreases n - j,
        {
            let info = &infos[j];
            let ghost before = scan.plan_infos(name@, infos@, j as nat);
            assert(scan.info_fits(name@, infos@[j as int]));
            j = j + 1;
            if info.unit_idx > unit_idx_limit {
                continue;
            }
            let label = self.debug_data.make_unit_label(info.unit_idx);
            if !passes(unit_filter, label.as_str()) {
                continue;
            }
            let mem_addr: u64 = match encode_address(reg, format, info, Ghost(scan)) {
                Some(a) => a,
                None => {
                    continue;
                },
            };
            let t = match self.debug_data.types.get(&info.typeref) {
                Some(t) => t,
                None => {
                    continue;
                },
            };
            if !supported(t) {
                continue;
            }
            let (object_type, address) = place(
                reg,
                seg_relative,
                default_event,
                info,
                mem_addr,
                Ghost(scan),
                Ghost(name@),
            );
            let a2l_name = if info.address.0 != 0 || count > 1 {
                make_scoped(function_name(info), name)
            } else {
                default_name.clone()
            };
            let ghost st = reg.typedef_list@;
            let ghost fuel = lemma_registration_total(
                self.debug_data,
                *format,
                st,
                element_type(*t),
                object_type,
            );
            let dim_type = self.get_dim_type(
                &mut reg.typedef_list,
                format,
                t,
                object_type,
                Ghost(fuel),
            );
            let unit = make_unit(t);
            let instance = McInstance { name: a2l_name, dim_type, object_type, unit, address };
            let ghost p = Planned { instance: instance@, type_info: *t };
            reg.instance_list.add_instance(instance);
            proof {
                lemma_typedefs_after(
                    self.debug_data,
                    *format,
                    fuel,
                    st,
                    element_type(*t),
                    object_type,
                );
                assert(scan.plan_one(name@, infos@, *info) == Some(p));
                assert(before.push(p).drop_last() =~= before);
                assert(reg.instance_list@ =~= instances + instances_of(before.push(p)));
            }
        }
    }

    /// Whether the variables of the program can be registered.
    pub fn check_variables(
        &self,
        reg: &Registry,
        format: &A2lFormat,
        unit_idx_limit: usize,
        name_filter: &str,
        unit_filter: &str,
    ) -> (r: bool)
        ensures
            r == self.variables_ok(*reg, *format, unit_idx_limit, name_filter@, unit_filter@),
    {
        broadcast use vstd::std_specs::hash::group_hash_axioms;

        if format.dyn_offset_bits >= 64 {
            return false;
        }
        if check_filter(name_filter).is_err() || check_filter(unit_filter).is_err() {
            return true;
        }
        let ghost scan = self.scan(
            *reg,
            *format,
            false,
            unit_idx_limit,
            name_filter@,
            unit_filter@,
        );
        let ghost vars = self.debug_data.vars();
        let n: usize = variable_count(&self.debug_data.variables);
        let mut todo: Vec<usize> = Vec::new();
        let mut i: usize = 0;
        while i < n
            invariant
                n == vars.len(),
                vars == self.debug_data.vars(),
                i <= n,
                format.dyn_offset_bits < 64,
                filter_valid(name_filter@),
                filter_valid(unit_filter@),
                scan == self.scan(
                    *reg,
                    *format,
                    false,
                    unit_idx_limit,
                    name_filter@,
                    unit_filter@,
                ),
                forall|k: int|
                    0 <= k < todo@.len() ==> self.debug_data.types@.contains_key(
                        #[trigger] todo@[k],
                    ),
                can_register_refs(self.debug_data, todo@) <==> scan.fits(i as nat),
            decreases n - i,
        {
            let (name, infos) = match variable_at(&self.debug_data.variables, i) {
                Some(entry) => entry,
                None => {
                    return false;
                },
            };
            assert(vars[i as int] == (name@, infos@));
            let considered = !internal_name(name.as_str()) && match strip_prefix(
                name.as_str(),
                "daq__",
            ) {
                Some(rest) => {
                    let (event_name, _) = cut_at_sep(rest);
                    reg.event_list.find_event(event_name, 0).is_some()
                },
                None => true,
            } && passes(name_filter, name.as_str());
            assert(considered == (scan.considers(name@) && filter_passes(name_filter@, name@)));
            let len: usize = infos.len();
            let mut j: usize = 0;
            while j < len
                invariant
                    len == infos@.len(),
                    j <= len,
                    i < n,
                    n == vars.len(),
                    vars == self.debug_data.vars(),
                    vars[i as int] == (name@, infos@),
                    format.dyn_offset_bits < 64,
                    filter_valid(name_filter@),
                    filter_valid(unit_filter@),
                    considered == (scan.considers(name@) && filter_passes(name_filter@, name@)),
                    scan == self.scan(
                        *reg,
                        *format,
                        false,
                        unit_idx_limit,
                        name_filter@,
                        unit_filter@,
                    ),
                    forall|k: int|
                        0 <= k < todo@.len() ==> self.debug_data.types@.contains_key(
                            #[trigger] todo@[k],
                        ),
                    can_register_refs(self.debug_data, todo@) <==> scan.fits(i as nat)
                        && scan.infos_fit(name@, infos@, j as nat),
                decreases len - j,
            {
                let info = &infos[j];
                let ghost before = todo@;
                let ok = !considered || self.check_instance(
                    reg,
                    format,
                    unit_idx_limit,
                    unit_filter,
                    info,
                    &mut todo,
                    Ghost(scan),
                    Ghost(name@),
                );
                proof {
                    lemma_infos_fit(scan, name@, infos@, j as nat);
                }
                if !ok {
                    proof {
                        if scan.fits(n as nat) {
                            assert(scan.infos_fit(
                                vars[i as int].0,
                                vars[i as int].1,
                                vars[i as int].1.len(),
                            ));
                            assert(scan.info_fits(name@, infos@[j as int]));
                        }
                    }
                    return false;
                }
                j = j + 1;
            }
            proof {
                lemma_fits(scan, i as nat);
            }
            i = i + 1;
        }
        self.debug_data.check_refs(todo)
    }

    /// Whether an instance that the name filter lets pass can be registered, as far as it does not
    /// depend on the types that its type refers to; the references to these are added to a list.
    fn check_instance(
        &self,
        reg: &Registry,
        format: &A2lFormat,
        unit_idx_limit: usize,
        unit_filter: &str,
        info: &VarInfo,
        todo: &mut Vec<usize>,
        Ghost(scan): Ghost<Scan>,
        Ghost(name): Ghost<Seq<char>>,
    ) -> (r: bool)
        requires
            format.dyn_offset_bits < 64,
            filter_valid(unit_filter@),
            scan == self.scan(
                *reg,
                *format,
                scan.seg_relative,
                unit_idx_limit,
                scan.name_filter,
                unit_filter@,
            ),
            scan.considers(name),
            filter_passes(scan.name_filter, name),
            forall|k: int|
                0 <= k < old(todo)@.len() ==> self.debug_data.types@.contains_key(
                    #[trigger] old(todo)@[k],
                ),
        ensures
            forall|k: int|
                0 <= k < final(todo)@.len() ==> self.debug_data.types@.contains_key(
                    #[trigger] final(todo)@[k],
                ),
            !r ==> !scan.info_fits(name, *info),
            r ==> (can_register_refs(self.debug_data, final(todo)@) <==> can_register_refs(
                self.debug_data,
                old(todo)@,
            ) && scan.info_fits(name, *info)),
    {
        broadcast use vstd::std_specs::hash::group_hash_axioms;

        if info.unit_idx > unit_idx_limit {
            return true;
        }
        let label = self.debug_data.make_unit_label(info.unit_idx);
        if !passes(unit_filter, label.as_str()) {
            return true;
        }
        match encode_address(reg, format, info, Ghost(scan)) {
            Some(mem_addr) => {
                if !check_segment(reg, mem_addr) {
                    return false;
                }
            },
            None => {
                return true;
            },
        }
        match self.debug_data.types.get(&info.typeref) {
            Some(t) => if supported(t) {
                self.debug_data.walk_dims(t, todo)
            } else {
                true
            },
            None => true,
        }
    }

    /// Registers the variables of the program. Without an error, an instance is registered for
    /// every instance of a variable that the plan holds, behind those that are there and in the
    /// order of the variables, and the types of these instances with them; an invalid filter is an
    /// error, and nothing is registered.
    pub fn register_variables(
        &self,
        reg: &mut Registry,
        format: &A2lFormat,
        seg_relative: bool,
        unit_idx_limit: usize,
        name_filter: &str,
        unit_filter: &str,
    ) -> (r: Result<(), VariableError>)
        requires
            self.variables_ok(
                *old(reg),
                *format,
                unit_idx_limit,
                name_filter@,
                unit_filter@,
            ),
        ensures
            (r matches Err(VariableError::InvalidNameFilter(_))) <==> !filter_valid(name_filter@),
            (r matches Err(VariableError::InvalidUnitFilter(_))) <==> filter_valid(name_filter@)
                && !filter_valid(unit_filter@),
            r is Err ==> *final(reg) == *old(reg),
            r is Ok ==> ({
                let scan = self.scan(
                    *old(reg),
                    *format,
                    seg_relative,
                    unit_idx_limit,
                    name_filter@,
                    unit_filter@,
                );
                let plan = scan.plan(self.debug_data.vars().len());
                &&& final(reg).instance_list@ == old(reg).instance_list@ + instances_of(plan)
                &&& final(reg).typedef_list@ == scan.types_after(old(reg).typedef_list@, plan)
                &&& final(reg).event_list == old(reg).event_list
                &&& final(reg).cal_seg_list == old(reg).cal_seg_list
                &&& final(reg).version == old(reg).version
                &&& final(reg).metadata == old(reg).metadata
            }),
    {
        match check_filter(name_filter) {
            Ok(()) => {},
            Err(e) => {
                return Err(VariableError::InvalidNameFilter(e));
            },
        }
        match check_filter(unit_filter) {
            Ok(()) => {},
            Err(e) => {
                return Err(VariableError::InvalidUnitFilter(e));
            },
        }
        let ghost scan = self.scan(
            *reg,
            *format,
            seg_relative,
            unit_idx_limit,
            name_filter@,
            unit_filter@,
        );
        proof {
            let other = self.scan(
                *reg,
                *format,
                false,
                unit_idx_limit,
                name_filter@,
                unit_filter@,
            );
            lemma_fits_whatever_mode(other, scan, self.debug_data.vars().len());
        }
        let ghost instances = reg.instance_list@;
        let ghost typedefs = reg.typedef_list@;
        let ghost vars = self.debug_data.vars();
        let n: usize = variable_count(&self.debug_data.variables);
        let mut i: usize = 0;
        assert(reg.instance_list@ =~= instances + instances_of(Seq::<Planned>::empty()));
        while i < n
            invariant
                n == vars.len(),
                vars == self.debug_data.vars(),
                i <= n,
                format.dyn_offset_bits < 64,
                scan == self.scan(
                    *old(reg),
                    *format,
                    seg_relative,
                    unit_idx_limit,
                    name_filter@,
                    unit_filter@,
                ),
                scan.fits(n as nat),
                filter_valid(name_filter@),
                filter_valid(unit_filter@),
                reg.instance_list@ == instances + instances_of(scan.plan(i as nat)),
                reg.typedef_list@ == scan.types_after(typedefs, scan.plan(i as nat)),
                reg.event_list == old(reg).event_list,
                reg.cal_seg_list == old(reg).cal_seg_list,
                reg.version == old(reg).version,
                reg.metadata == old(reg).metadata,
            decreases n - i,
        {
            let (name, infos) = match variable_at(&self.debug_data.variables, i) {
                Some(entry) => entry,
                None => {
                    return Ok(());
                },
            };
            let ghost before = scan.plan(i as nat);
            let ghost more = scan.plan_infos(name@, infos@, infos@.len());
            assert(vars[i as int] == (name@, infos@));
            i = i + 1;
            if internal_name(name.as_str()) || !passes(name_filter, name.as_str()) {
                proof {
                    lemma_plan_nothing(scan, name@, infos@, infos@.len());
                    assert(before + more =~= before);
                }
                continue;
            }
            self.register_instances(
                reg,
                format,
                seg_relative,
                unit_idx_limit,
                unit_filter,
                name.as_str(),
                infos,
                Ghost(scan),
            );
            proof {
                lemma_types_after_both(scan, typedefs, before, more);
                assert(instances_of(before + more) =~= instances_of(before) + instances_of(more));
                assert(reg.instance_list@ =~= instances + instances_of(before + more));
            }
        }
        Ok(())
    }

    /// Registers the variables of the program if they can be registered, and otherwise leaves the
    /// registry as it is.
    pub fn try_register_variables(
        &self,
        reg: &mut Registry,
        format: &A2lFormat,
        seg_relative: bool,
        unit_idx_limit: usize,
        name_filter: &str,
        unit_filter: &str,
    ) -> (r: Option<Result<(), VariableError>>)
        ensures
            r is Some <==> self.variables_ok(
                *old(reg),
                *format,
                unit_idx_limit,
                name_filter@,
                unit_filter@,
            ),
            r matches Some(Ok(_)) <==> r is Some && filter_valid(name_filter@) && filter_valid(
                unit_filter@,
            ),
            r matches Some(Err(VariableError::InvalidNameFilter(_))) <==> r is Some
                && !filter_valid(name_filter@),
            !(r matches Some(Ok(_))) ==> *final(reg) == *old(reg),
            r matches Some(Ok(_)) ==> ({
                let scan = self.scan(
                    *old(reg),
                    *format,
                    seg_relative,
                    unit_idx_limit,
                    name_filter@,
                    unit_filter@,
                );
                let plan = scan.plan(self.debug_data.vars().len());
                &&& final(reg).instance_list@ == old(reg).instance_list@ + instances_of(plan)
                &&& final(reg).typedef_list@ == scan.types_after(old(reg).typedef_list@, plan)
                &&& final(reg).event_list == old(reg).event_list
                &&& final(reg).cal_seg_list == old(reg).cal_seg_list
                &&& final(reg).version == old(reg).version
                &&& final(reg).metadata == old(reg).metadata
            }),
    {
        if self.check_variables(reg, format, unit_idx_limit, name_filter, unit_filter) {
            Some(
                self.register_variables(
                    reg,
                    format,
                    seg_relative,
                    unit_idx_limit,
                    name_filter,
                    unit_filter,
                ),
            )
        } else {
            None
        }
    }
}

/// Whether instances can be registered does not depend on the addressing mode.
proof fn lemma_fits_whatever_mode(a: Scan, b: Scan, n: nat)
    requires
        a.fits(n),
        a == (Scan { seg_relative: a.seg_relative, ..b }),
    ensures
        b.fits(n),
{
    assert forall|i: int| 0 <= i < n implies b.infos_fit(
        (#[trigger] b.dd.vars()[i]).0,
        b.dd.vars()[i].1,
        b.dd.vars()[i].1.len(),
    ) by {
        let (name, infos) = a.dd.vars()[i];
        assert(a.infos_fit(name, infos, infos.len()));
        assert forall|j: int| 0 <= j < infos.len() implies b.info_fits(
            name,
            #[trigger] infos[j],
        ) by {
            assert(a.info_fits(name, infos[j]));
            assert(a.address(infos[j]) == b.address(infos[j]));
        }
    }
}

/// One instance more can be registered if it and those before it can be.
proof fn lemma_infos_fit(scan: Scan, name: Seq<char>, infos: Seq<VarInfo>, n: nat)
    requires
        n < infos.len(),
    ensures
        scan.infos_fit(name, infos, n + 1) <==> scan.infos_fit(name, infos, n) && scan.info_fits(
            name,
            infos[n as int],
        ),
{
    if scan.infos_fit(name, infos, n + 1) {
        assert forall|j: int| 0 <= j < n implies scan.info_fits(name, #[trigger] infos[j]) by {
        }
    }
}

/// The instances of one variable more can be registered if they and those before them can be.
proof fn lemma_fits(scan: Scan, n: nat)
    ensures
        scan.fits(n + 1) <==> scan.fits(n) && scan.infos_fit(
            scan.dd.vars()[n as int].0,
            scan.dd.vars()[n as int].1,
            scan.dd.vars()[n as int].1.len(),
        ),
{
}

/// Nothing is planned for the instances of a name that does not come into question or that the
/// filter stops.
proof fn lemma_plan_nothing(scan: Scan, name: Seq<char>, infos: Seq<VarInfo>, n: nat)
    requires
        !scan.considers(name) || !filter_passes(scan.name_filter, name),
    ensures
        scan.plan_infos(name, infos, n) == Seq::<Planned>::empty(),
    decreases n,
{
    if n > 0 {
        lemma_plan_nothing(scan, name, infos, (n - 1) as nat);
    }
}

/// The instances of a plan have the value types and dimensions of their types, which can be
/// registered.
spec fn plan_typed(scan: Scan, plan: Seq<Planned>) -> bool {
    forall|k: int| 0 <= k < plan.len() ==> typed(scan, #[trigger] plan[k])
}

spec fn typed(scan: Scan, p: Planned) -> bool {
    &&& p.instance.dim_type == dim_type(scan.dd, scan.format, p.type_info)
    &&& can_register_dims(scan.dd, p.type_info)
}

proof fn lemma_plan_infos_typed(scan: Scan, name: Seq<char>, infos: Seq<VarInfo>, j: nat)
    requires
        j <= infos.len(),
        scan.infos_fit(name, infos, infos.len()),
    ensures
        plan_typed(scan, scan.plan_infos(name, infos, j)),
    decreases j,
{
    if j > 0 {
        lemma_plan_infos_typed(scan, name, infos, (j - 1) as nat);
        assert(scan.info_fits(name, infos[j - 1]));
    }
}

proof fn lemma_plan_typed(scan: Scan, n: nat)
    requires
        scan.fits(n),
    ensures
        plan_typed(scan, scan.plan(n)),
    decreases n,
{
    if n > 0 {
        lemma_fits(scan, (n - 1) as nat);
        lemma_plan_typed(scan, (n - 1) as nat);
        let (name, infos) = scan.dd.vars()[n - 1];
        lemma_plan_infos_typed(scan, name, infos, infos.len());
        let a = scan.plan((n - 1) as nat);
        let b = scan.plan_infos(name, infos, infos.len());
        assert forall|k: int| 0 <= k < (a + b).len() implies typed(scan, #[trigger] (a + b)[k]) by {
            if k < a.len() {
                assert((a + b)[k] == a[k]);
            } else {
                assert((a + b)[k] == b[k - a.len()]);
            }
        }
    }
}

proof fn lemma_types_after(scan: Scan, st: Seq<TypedefView>, plan: Seq<Planned>)
    requires
        typedefs_distinct(st),
        references_ok(st),
        plan_typed(scan, plan),
    ensures
        ({
            let after = scan.types_after(st, plan);
            &&& st.is_prefix_of(after)
            &&& typedefs_distinct(after)
            &&& references_ok(after)
            &&& forall|k: int|
                0 <= k < plan.len() ==> refers(
                    (#[trigger] plan[k]).instance.dim_type.value_type,
                    after,
                )
        }),
    decreases plan.len(),
{
    if plan.len() == 0 {
        assert(st =~= st.take(st.len() as int));
    } else {
        let p = plan.last();
        let init = plan.drop_last();
        assert forall|k: int| 0 <= k < init.len() implies typed(scan, #[trigger] init[k]) by {
            assert(init[k] == plan[k]);
        }
        assert(typed(scan, plan[plan.len() - 1]));
        lemma_types_after(scan, st, init);
        let before = scan.types_after(st, init);
        let after = scan.types_after(st, plan);
        law_types_stay_consistent(
            scan.dd,
            scan.format,
            before,
            element_type(p.type_info),
            p.instance.object_type,
        );
        assert(before =~= after.take(before.len() as int));
        assert(st =~= after.take(st.len() as int)) by {
            assert(before.take(st.len() as int) == st);
        }
        assert forall|k: int| 0 <= k < plan.len() implies refers(
            (#[trigger] plan[k]).instance.dim_type.value_type,
            after,
        ) by {
            let v = plan[k].instance.dim_type.value_type;
            if k < init.len() {
                assert(init[k] == plan[k]);
                assert(refers(v, before));
                if v is TypeDef {
                    let id = v->TypeDef_0;
                    let i = choose|i: int| 0 <= i < before.len() && (#[trigger] before[i]).name == id;
                    assert(after[i] == before[i]);
                }
            }
        }
    }
}

/// Registering variables leaves every registered type as it is and keeps identifiers distinct; every
/// instance, and every field of a type, that refers to a type refers to a registered one.
pub proof fn law_variables_refer_to_registered_types(scan: Scan, st: Seq<TypedefView>, n: nat)
    requires
        scan.fits(n),
        typedefs_distinct(st),
        references_ok(st),
    ensures
        ({
            let plan = scan.plan(n);
            let after = scan.types_after(st, plan);
            &&& st.is_prefix_of(after)
            &&& typedefs_distinct(after)
            &&& references_ok(after)
            &&& forall|k: int|
                0 <= k < instances_of(plan).len() ==> refers(
                    (#[trigger] instances_of(plan)[k]).dim_type.value_type,
                    after,
                )
        }),
{
    lemma_plan_typed(scan, n);
    lemma_types_after(scan, st, scan.plan(n));
    let plan = scan.plan(n);
    assert forall|k: int| 0 <= k < instances_of(plan).len() implies refers(
        (#[trigger] instances_of(plan)[k]).dim_type.value_type,
        scan.types_after(st, plan),
    ) by {
        assert(instances_of(plan)[k] == plan[k].instance);
    }
}

/// A measurement gets the event that is triggered in its function, if there is one. Without one, a
/// variable that was captured gets the event that it was captured with, and any other the event 0.
pub proof fn law_measurements_get_the_event_of_their_scope(
    scan: Scan,
    name: Seq<char>,
    infos: Seq<VarInfo>,
    info: VarInfo,
)
    requires
        scan.plan_one(name, infos, info) is Some,
        (scan.plan_one(name, infos, info)->0).instance.object_type == McObjectType::Measurement,
    ensures
        ({
            let id = (scan.plan_one(name, infos, info)->0).instance.address.event_id;
            match scan.scope_event(info) {
                Some(e) => 0 <= e < scan.events.len() && scan.events[e].location == Some(
                    (info.unit_idx, function_of(info)),
                ) && id == Some(scan.events[e].id),
                None => match captured(name) {
                    Some((event, _)) => event_named(scan.events, event, 0) matches Some(e) && id
                        == Some(scan.events[e].id),
                    None => id == Some(0u16),
                },
            }
        }),
{
    lemma_event_at(scan.events, info.unit_idx, function_of(info));
}

/// Two captured variables of one event whose names tell the variable are captured under different
/// names.
pub proof fn law_captured_variables_are_told_apart(a: Seq<char>, b: Seq<char>)
    requires
        captured(a) is Some,
        after_sep(stripped(a, "daq__"@)->0) is Some,
        after_sep(stripped(b, "daq__"@)->0) is Some,
        captured(a) == captured(b),
    ensures
        a == b,
{
    let s = stripped(a, "daq__"@)->0;
    let t = stripped(b, "daq__"@)->0;
    law_cutting_at_a_separator_loses_nothing(s);
    law_cutting_at_a_separator_loses_nothing(t);
    assert(a =~= "daq__"@ + s);
    assert(b =~= "daq__"@ + t);
}

/// An instance on the stack, and one of several instances of a variable, is named with the function
/// that it is local to.
pub proof fn law_local_instances_are_named_with_their_function(
    scan: Scan,
    name: Seq<char>,
    infos: Seq<VarInfo>,
    info: VarInfo,
)
    requires
        scan.plan_one(name, infos, info) is Some,
        function_of(info).len() > 0,
        info.address.0 == 2 || count_in_units(infos, scan.unit_idx_limit, infos.len()) > 1,
    ensures
        (scan.plan_one(name, infos, info)->0).instance.name == function_of(info) + "."@ + name,
{
}

/// The low bits of an address with an id above them are those that were put there, and the bits
/// above them the id.
proof fn lemma_offset_and_id(x: u64, mask: u64, id: u64, bits: u32, addr: u64)
    by (bit_vector)
    requires
        bits <= 16,
        mask == (1u64 << bits) - 1,
        x <= mask,
        id <= 0xFFFF,
        addr == (x & mask) | (id << bits),
    ensures
        addr <= 0xFFFF_FFFF,
        addr & mask == x,
        addr >> bits == id,
{
}

/// The address of an instance on the stack tells where it lies in the frame and which event it
/// belongs to: its low bits hold the offset from the frame of the function that triggers the event,
/// the bits above them the event id. The offset is that of the variable and of the canonical frame
/// address at the trigger together.
pub proof fn law_stack_addresses_tell_offset_and_event(
    scan: Scan,
    name: Seq<char>,
    infos: Seq<VarInfo>,
    info: VarInfo,
)
    requires
        scan.plan_one(name, infos, info) is Some,
        (scan.plan_one(name, infos, info)->0).instance.object_type == McObjectType::Measurement,
        info.address.0 == 2,
        scan.format.dyn_offset_bits <= 16,
        scan.format.dyn_offset_mask == (1u64 << scan.format.dyn_offset_bits) - 1,
    ensures
        ({
            let address = (scan.plan_one(name, infos, info)->0).instance.address;
            scan.scope_event(info) matches Some(e) && {
                let event = scan.events[e];
                &&& 0 <= e < scan.events.len()
                &&& event.location == Some((info.unit_idx, function_of(info)))
                &&& address.event_id == Some(event.id)
                &&& address.addr as u64 >> scan.format.dyn_offset_bits == event.id
                &&& address.addr as u64 & scan.format.dyn_offset_mask as u64
                    == scan.format.dyn_offset_offset + signed(info.address.1) - 0x8000_0000
                    + event.cfa
            }
        }),
{
    lemma_event_at(scan.events, info.unit_idx, function_of(info));
    let e = scan.scope_event(info)->0;
    let x = (scan.frame_offset(info, e) + scan.format.dyn_offset_offset) as u64;
    lemma_offset_and_id(
        x,
        scan.format.dyn_offset_mask as u64,
        scan.events[e].id as u64,
        scan.format.dyn_offset_bits,
        scan.dyn_address(scan.frame_offset(info, e), e),
    );
}

/// An instance is a parameter if and only if its memory address lies on the reference page of a
/// registered segment; its A2L address then lies as far behind that of the segment.
pub proof fn law_parameters_lie_in_segments(
    scan: Scan,
    name: Seq<char>,
    infos: Seq<VarInfo>,
    info: VarInfo,
)
    requires
        scan.plan_one(name, infos, info) is Some,
        scan.address(info) matches Some(mem_addr) && fits_segment(scan.segments, mem_addr),
    ensures
        ({
            let instance = (scan.plan_one(name, infos, info)->0).instance;
            let mem_addr = scan.address(info)->0;
            &&& instance.object_type == McObjectType::Characteristic <==> exists|k: int|
                0 <= k < scan.segments.len() && segment_holds(#[trigger] scan.segments[k], mem_addr)
            &&& instance.object_type == McObjectType::Characteristic ==> exists|k: int|
                0 <= k < scan.segments.len() && segment_holds(#[trigger] scan.segments[k], mem_addr)
                    && segment_address(scan.segments[k]) is Some && instance.address.addr
                    - segment_address(scan.segments[k])->0 == mem_addr - scan.segments[k].mem_addr
        }),
{
    let mem_addr = scan.address(info)->0;
    lemma_segment_with(scan.segments, mem_addr);
}

} // verus!
