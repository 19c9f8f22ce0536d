//! Registration of calibration segments: the markers of segments and blocks in the code, their
//! order, numbers and reference pages.
use vstd::prelude::*;
use vstd::string::*;
use vstd::utf8::*;

use crate::debuginfo::{type_size, DebugData, VarInfo};
use crate::elf_reader::ElfReader;
use crate::name_map::lookup;
use crate::registry::{
    segment_named, McCalibrationSegment, Registry, RegistryError, SegmentAddress,
};
use crate::text::{same_text, strip_prefix, stripped};
use crate::variable_map::{variable_at, variable_count, variables_named};

verus! {

/// A segment or block that is created in the code.
#[derive(Debug, PartialEq)]
pub struct SegmentDefinition<S> {
    pub name: S,
    /// Compilation unit of the marker.
    pub unit_idx: usize,
    /// Address of the marker, 0 for the EPK segment.
    pub descr_addr: u64,
    /// Segment number; blocks have none.
    pub number: Option<u8>,
}

impl View for SegmentDefinition<String> {
    type V = SegmentDefinition<Seq<char>>;

    open spec fn view(&self) -> SegmentDefinition<Seq<char>> {
        SegmentDefinition {
            name: self.name@,
            unit_idx: self.unit_idx,
            descr_addr: self.descr_addr,
            number: self.number,
        }
    }
}

/// The definitions in a list.
pub open spec fn definitions(v: Seq<SegmentDefinition<String>>) -> Seq<SegmentDefinition<Seq<char>>> {
    v.map_values(|d: SegmentDefinition<String>| d@)
}

/// The name in a segment marker `calseg__<name>` or block marker `calblk__<name>`, and whether it is
/// a segment.
pub open spec fn segment_marker(name: Seq<char>) -> Option<(Seq<char>, bool)> {
    match stripped(name, "calseg__"@) {
        Some(s) => Some((s, true)),
        None => match stripped(name, "calblk__"@) {
            Some(s) => Some((s, false)),
            None => None,
        },
    }
}

/// The definition that a marker stands for; a segment has the number 0 for the time being.
pub open spec fn definition_of(name: Seq<char>, is_segment: bool, marker: VarInfo) -> SegmentDefinition<
    Seq<char>,
> {
    SegmentDefinition {
        name,
        unit_idx: marker.unit_idx,
        descr_addr: if name == "epk"@ {
            0
        } else {
            marker.address.1
        },
        number: if is_segment {
            Some(0u8)
        } else {
            None
        },
    }
}

/// The definitions among the first `n` variables.
pub open spec fn marked(vars: Seq<(Seq<char>, Seq<VarInfo>)>, n: nat) -> Seq<
    SegmentDefinition<Seq<char>>,
>
    decreases n,
{
    if n == 0 {
        Seq::empty()
    } else {
        let before = marked(vars, (n - 1) as nat);
        match segment_marker(vars[n - 1].0) {
            Some((name, is_segment)) => before.push(
                definition_of(name, is_segment, vars[n - 1].1[0]),
            ),
            None => before,
        }
    }
}

/// Where a definition stands in the order: the EPK segment before all others, and these by the
/// address of their marker.
pub open spec fn rank(d: SegmentDefinition<Seq<char>>) -> int {
    if d.name == "epk"@ {
        -1
    } else {
        d.descr_addr as int
    }
}

/// A definition put into a list behind all that have no higher rank.
pub open spec fn insert_by_address(
    s: Seq<SegmentDefinition<Seq<char>>>,
    d: SegmentDefinition<Seq<char>>,
) -> Seq<SegmentDefinition<Seq<char>>>
    decreases s.len(),
{
    if s.len() == 0 || rank(s.last()) <= rank(d) {
        s.push(d)
    } else {
        insert_by_address(s.drop_last(), d).push(s.last())
    }
}

/// The definitions in the order of their addresses, the EPK segment first; those of one address keep
/// their order.
pub open spec fn by_address(s: Seq<SegmentDefinition<Seq<char>>>) -> Seq<
    SegmentDefinition<Seq<char>>,
>
    decreases s.len(),
{
    if s.len() == 0 {
        s
    } else {
        insert_by_address(by_address(s.drop_last()), s.last())
    }
}

/// The number of segments, without blocks, among the first `n` definitions.
pub open spec fn segment_count(s: Seq<SegmentDefinition<Seq<char>>>, n: nat) -> nat
    decreases n,
{
    if n == 0 {
        0
    } else {
        segment_count(s, (n - 1) as nat) + if s[n - 1].number is Some {
            1nat
        } else {
            0nat
        }
    }
}

/// The definitions with their segments numbered through.
pub open spec fn numbered(s: Seq<SegmentDefinition<Seq<char>>>) -> Seq<
    SegmentDefinition<Seq<char>>,
> {
    Seq::new(
        s.len(),
        |i: int|
            SegmentDefinition {
                number: if s[i].number is Some {
                    Some(segment_count(s, i as nat) as u8)
                } else {
                    None
                },
                ..s[i]
            },
    )
}

/// An instance of a variable can be a reference page: it has an absolute address.
pub open spec fn is_page(info: VarInfo) -> bool {
    info.address.0 == 0 && info.address.1 != 0
}

/// The positions of the instances that can be a reference page, among the first `n`; with a
/// compilation unit, only those in that unit.
pub open spec fn pages(infos: Seq<VarInfo>, unit_idx: Option<usize>, n: nat) -> Seq<int>
    decreases n,
{
    if n == 0 {
        Seq::empty()
    } else {
        let before = pages(infos, unit_idx, (n - 1) as nat);
        let info = infos[n - 1];
        if is_page(info) && (unit_idx matches Some(u) ==> info.unit_idx == u) {
            before.push(n - 1)
        } else {
            before
        }
    }
}

/// The instance that is the reference page of a segment: the only one that can be, or else the only
/// one in the compilation unit of the marker.
pub open spec fn reference_page(infos: Seq<VarInfo>, unit_idx: usize) -> Option<VarInfo> {
    let all = pages(infos, None, infos.len());
    let same_unit = pages(infos, Some(unit_idx), infos.len());
    if all.len() == 1 {
        Some(infos[all[0]])
    } else if all.len() > 1 && same_unit.len() == 1 {
        Some(infos[same_unit[0]])
    } else {
        None
    }
}

impl DebugData {
    /// The segments and blocks that are created in the code, the EPK segment first and the others in
    /// the order of their markers, with segments numbered through.
    pub open spec fn segments(&self) -> Seq<SegmentDefinition<Seq<char>>> {
        numbered(by_address(marked(self.vars(), self.vars().len())))
    }

    /// Each marker of a segment or block stands for one definition, and segments can be numbered.
    pub open spec fn markers_ok(&self) -> bool {
        &&& forall|i: int|
            0 <= i < self.vars().len() && segment_marker((#[trigger] self.vars()[i]).0) is Some
                ==> self.vars()[i].1.len() == 1
        &&& segment_count(
            marked(self.vars(), self.vars().len()),
            marked(self.vars(), self.vars().len()).len(),
        ) <= 255
    }

    /// Where the reference page of a segment lies, and its length. The EPK segment holds the EPK
    /// string; the page of any other segment is the variable of its name, which needs a known type.
    pub open spec fn segment_area(&self, d: SegmentDefinition<Seq<char>>) -> Option<(u64, nat)> {
        if d.name == "epk"@ {
            match self.epk_string {
                Some(epk) => Some((self.epk_addr, encode_utf8(epk@).len())),
                None => None,
            }
        } else {
            match lookup(self.vars(), d.name) {
                Some(infos) => match reference_page(infos, d.unit_idx) {
                    Some(info) => if self.types@.contains_key(info.typeref) && type_size(
                        self.types@[info.typeref],
                    ) > 0 {
                        Some((info.address.1, type_size(self.types@[info.typeref]) as nat))
                    } else {
                        None
                    },
                    None => None,
                },
                None => None,
            }
        }
    }

    /// The length of every reference page takes 16 bits.
    pub open spec fn areas_ok(&self) -> bool {
        forall|i: int|
            0 <= i < self.segments().len() ==> (self.segment_area(
                #[trigger] self.segments()[i],
            ) matches Some((_, length)) ==> length <= 0xFFFF)
    }
}

/// A registered segment is addressed relative to its own start.
pub open spec fn is_relative(s: McCalibrationSegment<Seq<char>>) -> bool {
    match s.address {
        SegmentAddress::Known { addr, index } => addr == 0x8000_0000 + index * 0x1_0000,
        SegmentAddress::Relative => true,
        SegmentAddress::Absolute(_) => false,
    }
}

/// The registered segments after a segment came to them that stands at position `index` in the code
/// and has its reference page at `addr`. One of that name that is addressed relative to its start
/// and has the same length learns where its page lies. A new one is added; with an absolute address
/// only if the address takes 32 bits, the position 8 bits, and it is not empty.
pub open spec fn with_segment(
    segs: Seq<McCalibrationSegment<Seq<char>>>,
    seg_relative: bool,
    d: SegmentDefinition<Seq<char>>,
    index: int,
    addr: u64,
    length: nat,
) -> Seq<McCalibrationSegment<Seq<char>>> {
    match segment_named(segs, d.name) {
        Some(k) => if is_relative(segs[k]) && segs[k].size == length {
            segs.update(k, McCalibrationSegment { mem_addr: addr, ..segs[k] })
        } else {
            segs
        },
        None => if !seg_relative && (addr >= 0xFFFF_FFFF || index >= 255 || length == 0) {
            segs
        } else {
            segs.push(
                McCalibrationSegment {
                    name: d.name,
                    number: d.number,
                    address: if seg_relative {
                        SegmentAddress::Relative
                    } else {
                        SegmentAddress::Absolute(addr as u32)
                    },
                    size: length as u32,
                    mem_addr: addr,
                },
            )
        },
    }
}

/// The registered segments after the first `n` definitions came to them.
pub open spec fn with_segments(
    dd: DebugData,
    segs: Seq<McCalibrationSegment<Seq<char>>>,
    seg_relative: bool,
    n: nat,
) -> Seq<McCalibrationSegment<Seq<char>>>
    decreases n,
{
    if n == 0 {
        segs
    } else {
        let before = with_segments(dd, segs, seg_relative, (n - 1) as nat);
        let d = dd.segments()[n - 1];
        match dd.segment_area(d) {
            Some((addr, length)) => with_segment(before, seg_relative, d, n - 1, addr, length),
            None => before,
        }
    }
}

/// Whether a definition stands behind another one in the order.
fn comes_after(a: &SegmentDefinition<String>, b: &SegmentDefinition<String>) -> (r: bool)
    ensures
        r == (rank(a@) > rank(b@)),
{
    if same_text(a.name.as_str(), "epk") {
        false
    } else {
        same_text(b.name.as_str(), "epk") || a.descr_addr > b.descr_addr
    }
}

/// Puts a definition into a list behind all that have no higher rank.
fn insert_definition(v: &mut Vec<SegmentDefinition<String>>, d: SegmentDefinition<String>)
    ensures
        definitions(final(v)@) == insert_by_address(definitions(old(v)@), d@),
{
    let ghost all = definitions(v@);
    let mut i: usize = v.len();
    assert(all.take(i as int) =~= all);
    assert(insert_by_address(all, d@) =~= insert_by_address(all.take(i as int), d@) + all.skip(
        i as int,
    ));
    while i > 0 && comes_after(&v[i - 1], &d)
        invariant
            i <= v@.len(),
            all == definitions(v@),
            insert_by_address(all, d@) == insert_by_address(all.take(i as int), d@) + all.skip(
                i as int,
            ),
        decreases i,
    {
        proof {
            let t = all.take(i as int);
            assert(t.last() == v@[i - 1]@);
            assert(t.drop_last() =~= all.take(i - 1));
            assert(insert_by_address(all, d@) =~= insert_by_address(all.take(i - 1), d@)
                + all.skip(i - 1));
        }
        i = i - 1;
    }
    proof {
        let t = all.take(i as int);
        if i > 0 {
            assert(t.last() == v@[i - 1]@);
        }
        assert(insert_by_address(t, d@) == t.push(d@));
    }
    let ghost added = d@;
    v.insert(i, d);
    assert(definitions(v@) =~= all.take(i as int).push(added) + all.skip(i as int));
}

/// The definitions in order of address are as many as there are definitions.
proof fn lemma_by_address_len(s: Seq<SegmentDefinition<Seq<char>>>)
    ensures
        by_address(s).len() == s.len(),
    decreases s.len(),
{
    if s.len() > 0 {
        lemma_by_address_len(s.drop_last());
        lemma_insert_len(by_address(s.drop_last()), s.last());
    }
}

proof fn lemma_insert_len(s: Seq<SegmentDefinition<Seq<char>>>, d: SegmentDefinition<Seq<char>>)
    ensures
        insert_by_address(s, d).len() == s.len() + 1,
    decreases s.len(),
{
    if s.len() > 0 && rank(s.last()) > rank(d) {
        lemma_insert_len(s.drop_last(), d);
    }
}

/// The number of segments among the first definitions does not depend on what follows them.
proof fn lemma_count_push(
    s: Seq<SegmentDefinition<Seq<char>>>,
    d: SegmentDefinition<Seq<char>>,
    n: nat,
)
    requires
        n <= s.len(),
    ensures
        segment_count(s.push(d), n) == segment_count(s, n),
    decreases n,
{
    if n > 0 {
        lemma_count_push(s, d, (n - 1) as nat);
    }
}

proof fn lemma_count_insert(s: Seq<SegmentDefinition<Seq<char>>>, d: SegmentDefinition<Seq<char>>)
    ensures
        segment_count(insert_by_address(s, d), (s.len() + 1) as nat) == segment_count(
            s.push(d),
            (s.len() + 1) as nat,
        ),
    decreases s.len(),
{
    if s.len() > 0 && rank(s.last()) > rank(d) {
        let t = s.drop_last();
        let n = s.len();
        lemma_insert_len(t, d);
        lemma_count_insert(t, d);
        lemma_count_push(insert_by_address(t, d), s.last(), n);
        lemma_count_push(t, d, (n - 1) as nat);
        lemma_count_push(s, d, n);
        lemma_count_push(t, s.last(), (n - 1) as nat);
        assert(s =~= t.push(s.last()));
    }
}

/// The order of the definitions does not change the number of segments.
proof fn lemma_count_by_address(s: Seq<SegmentDefinition<Seq<char>>>)
    ensures
        segment_count(by_address(s), s.len()) == segment_count(s, s.len()),
    decreases s.len(),
{
    if s.len() > 0 {
        let t = s.drop_last();
        let b = by_address(t);
        lemma_by_address_len(t);
        lemma_count_by_address(t);
        lemma_count_insert(b, s.last());
        lemma_count_push(b, s.last(), t.len());
        lemma_count_push(t, s.last(), t.len());
        assert(s =~= t.push(s.last()));
    }
}

/// More definitions hold no fewer segments.
proof fn lemma_count_grows(s: Seq<SegmentDefinition<Seq<char>>>, m: nat, n: nat)
    requires
        m <= n,
    ensures
        segment_count(s, m) <= segment_count(s, n),
    decreases n,
{
    if m < n {
        lemma_count_grows(s, m, (n - 1) as nat);
    }
}

impl ElfReader {
    /// The segments and blocks that are created in the code, found by the naming convention
    /// `calseg__<name>` and `calblk__<name>` of their markers: the EPK segment, which has always
    /// index 0, and the others in the order of the markers' addresses, which is the order of the
    /// code; segments are numbered through.
    pub fn segment_definitions(&self) -> (v: Vec<SegmentDefinition<String>>)
        requires
            self.debug_data.markers_ok(),
        ensures
            definitions(v@) == self.debug_data.segments(),
    {
        let ghost vars = self.debug_data.vars();
        let n: usize = variable_count(&self.debug_data.variables);
        let mut v: Vec<SegmentDefinition<String>> = Vec::new();
        let mut i: usize = 0;
        assert(definitions(v@) =~= by_address(marked(vars, 0)));
        while i < n
            invariant
                n == vars.len(),
                vars == self.debug_data.vars(),
                i <= n,
                self.debug_data.markers_ok(),
                definitions(v@) == by_address(marked(vars, i as nat)),
            decreases n - i,
        {
            let (name, infos) = match variable_at(&self.debug_data.variables, i) {
                Some(entry) => entry,
                None => {
                    return v;
                },
            };
            assert(vars[i as int] == (name@, infos@));
            let marker: Option<(&str, bool)> = match strip_prefix(name.as_str(), "calseg__") {
                Some(s) => Some((s, true)),
                None => match strip_prefix(name.as_str(), "calblk__") {
                    Some(s) => Some((s, false)),
                    None => None,
                },
            };
            if let Some((seg_name, is_segment)) = marker {
                let d = SegmentDefinition {
                    name: seg_name.to_owned(),
                    unit_idx: infos[0].unit_idx,
                    descr_addr: if same_text(seg_name, "epk") {
                        0
                    } else {
                        infos[0].address.1
                    },
                    number: if is_segment {
                        Some(0)
                    } else {
                        None
                    },
                };
                proof {
                    let before = marked(vars, i as nat);
                    assert(d@ == definition_of(seg_name@, is_segment, infos@[0]));
                    assert(before.push(d@).drop_last() =~= before);
                }
                insert_definition(&mut v, d);
            }
            i = i + 1;
        }
        let ghost sorted = definitions(v@);
        proof {
            lemma_by_address_len(marked(vars, n as nat));
            lemma_count_by_address(marked(vars, n as nat));
        }
        let mut seg_number: u8 = 0;
        let len: usize = v.len();
        let mut k: usize = 0;
        while k < len
            invariant
                len == v@.len(),
                len == sorted.len(),
                k <= len,
                segment_count(sorted, len as nat) <= 255,
                seg_number == segment_count(sorted, k as nat),
                forall|m: int| 0 <= m < k ==> #[trigger] v@[m]@ == numbered(sorted)[m],
                forall|m: int| k <= m < len ==> #[trigger] v@[m]@ == sorted[m],
            decreases len - k,
        {
            proof {
                lemma_count_grows(sorted, (k + 1) as nat, len as nat);
                assert(v@[k as int]@ == sorted[k as int]);
            }
            let ghost before = v@;
            if v[k].number.is_some() {
                v[k].number = Some(seg_number);
                seg_number = seg_number + 1;
            }
            assert forall|m: int| 0 <= m < len && m != k implies #[trigger] v@[m] == before[m] by {}
            k = k + 1;
        }
        assert(definitions(v@) =~= numbered(sorted));
        v
    }

    /// The instance that is the reference page of a segment.
    fn find_reference_page<'a>(&self, infos: &'a Vec<VarInfo>, unit_idx: usize) -> (r: Option<
        &'a VarInfo,
    >)
        ensures
            r is Some <==> reference_page(infos@, unit_idx) is Some,
            r matches Some(info) ==> reference_page(infos@, unit_idx) == Some(*info),
    {
        let n: usize = infos.len();
        let mut all: Vec<usize> = Vec::new();
        let mut same_unit: Vec<usize> = Vec::new();
        for j in 0..n
            invariant
                n == infos@.len(),
                all@.map_values(|p: usize| p as int) == pages(infos@, None, j as nat),
                same_unit@.map_values(|p: usize| p as int) == pages(
                    infos@,
                    Some(unit_idx),
                    j as nat,
                ),
                forall|m: int| 0 <= m < all@.len() ==> #[trigger] all@[m] < j,
                forall|m: int| 0 <= m < same_unit@.len() ==> #[trigger] same_unit@[m] < j,
        {
            let info = &infos[j];
            let ghost a = all@.map_values(|p: usize| p as int);
            let ghost b = same_unit@.map_values(|p: usize| p as int);
            if info.address.0 == 0 && info.address.1 != 0 {
                all.push(j);
                assert(all@.map_values(|p: usize| p as int) =~= a.push(j as int));
                if info.unit_idx == unit_idx {
                    same_unit.push(j);
                    assert(same_unit@.map_values(|p: usize| p as int) =~= b.push(j as int));
                }
            }
        }
        proof {
            let a = pages(infos@, None, n as nat);
            let b = pages(infos@, Some(unit_idx), n as nat);
            assert(all@.len() == a.len() && same_unit@.len() == b.len());
            if a.len() > 0 {
                assert(all@.map_values(|p: usize| p as int)[0] == a[0]);
            }
            if b.len() > 0 {
                assert(same_unit@.map_values(|p: usize| p as int)[0] == b[0]);
            }
        }
        if all.len() == 1 {
            Some(&infos[all[0]])
        } else if all.len() > 1 && same_unit.len() == 1 {
            Some(&infos[same_unit[0]])
        } else {
            None
        }
    }

    /// Where the reference page of a segment lies, and its length.
    fn find_segment_area(&self, d: &SegmentDefinition<String>) -> (r: Option<(u64, u64)>)
        ensures
            match r {
                Some((addr, length)) => self.debug_data.segment_area(d@) == Some(
                    (addr, length as nat),
                ),
                None => self.debug_data.segment_area(d@) is None,
            },
    {
        broadcast use vstd::std_specs::hash::group_hash_axioms;

        if same_text(d.name.as_str(), "epk") {
            return match &self.debug_data.epk_string {
                Some(epk) => Some((self.debug_data.epk_addr, epk.as_str().as_bytes().len() as u64)),
                None => None,
            };
        }
        match variables_named(&self.debug_data.variables, d.name.as_str()) {
            Some(infos) => match self.find_reference_page(infos, d.unit_idx) {
                Some(info) => match self.debug_data.types.get(&info.typeref) {
                    Some(t) => {
                        let size: u64 = t.get_size();
                        if size > 0 {
                            Some((info.address.1, size))
                        } else {
                            None
                        }
                    },
                    None => None,
                },
                None => None,
            },
            None => None,
        }
    }

    /// Whether the segments and blocks of the program can be registered.
    pub fn check_segments(&self) -> (r: bool)
        ensures
            r == (self.debug_data.markers_ok() && self.debug_data.areas_ok()),
    {
        let ghost vars = self.debug_data.vars();
        let n: usize = variable_count(&self.debug_data.variables);
        let mut count: usize = 0;
        let mut i: usize = 0;
        while i < n
            invariant
                n == vars.len(),
                vars == self.debug_data.vars(),
                i <= n,
                count <= i,
                count == segment_count(marked(vars, i as nat), marked(vars, i as nat).len()),
                forall|k: int|
                    0 <= k < i && segment_marker((#[trigger] vars[k]).0) is Some ==> vars[k].1.len()
                        == 1,
            decreases n - i,
        {
            let (name, infos) = match variable_at(&self.debug_data.variables, i) {
                Some(entry) => entry,
                None => {
                    return false;
                },
            };
            assert(vars[i as int] == (name@, infos@));
            let is_segment = strip_prefix(name.as_str(), "calseg__").is_some();
            let is_block = strip_prefix(name.as_str(), "calblk__").is_some();
            if is_segment || is_block {
                if infos.len() != 1 {
                    return false;
                }
                proof {
                    let before = marked(vars, i as nat);
                    let (seg_name, seg) = segment_marker(name@)->0;
                    lemma_count_push(
                        before,
                        definition_of(seg_name, seg, infos@[0]),
                        before.len(),
                    );
                }
                if is_segment {
                    count = count + 1;
                }
            }
            i = i + 1;
        }
        if count > 255 {
            return false;
        }
        let seg_definitions = self.segment_definitions();
        let len: usize = seg_definitions.len();
        for k in 0..len
            invariant
                len == seg_definitions@.len(),
                definitions(seg_definitions@) == self.debug_data.segments(),
                forall|m: int|
                    0 <= m < k ==> (self.debug_data.segment_area(
                        #[trigger] self.debug_data.segments()[m],
                    ) matches Some((_, length)) ==> length <= 0xFFFF),
        {
            assert(self.debug_data.segments()[k as int] == seg_definitions@[k as int]@);
            if let Some((_, length)) = self.find_segment_area(&seg_definitions[k]) {
                if length > 0xFFFF {
                    return false;
                }
            }
        }
        true
    }

    /// Registers the calibration segments and blocks of the program.
    pub fn register_segments(&self, reg: &mut Registry, seg_relative: bool) -> (r: Result<
        (),
        RegistryError,
    >)
        requires
            self.debug_data.markers_ok(),
            self.debug_data.areas_ok(),
        ensures
            r is Ok,
            final(reg).cal_seg_list@ == with_segments(
                self.debug_data,
                old(reg).cal_seg_list@,
                seg_relative,
                self.debug_data.segments().len(),
            ),
            final(reg).event_list == old(reg).event_list,
            final(reg).typedef_list == old(reg).typedef_list,
            final(reg).instance_list == old(reg).instance_list,
            final(reg).version == old(reg).version,
            final(reg).metadata == old(reg).metadata,
    {
        let seg_definitions = self.segment_definitions();
        let n: usize = seg_definitions.len();
        let ghost segs = reg.cal_seg_list@;
        for i in 0..n
            invariant
                n == seg_definitions@.len(),
                definitions(seg_definitions@) == self.debug_data.segments(),
                self.debug_data.areas_ok(),
                reg.cal_seg_list@ == with_segments(self.debug_data, segs, seg_relative, i as nat),
                reg.event_list == old(reg).event_list,
                reg.typedef_list == old(reg).typedef_list,
                reg.instance_list == old(reg).instance_list,
                reg.version == old(reg).version,
                reg.metadata == old(reg).metadata,
        {
            let d = &seg_definitions[i];
            assert(self.debug_data.segments()[i as int] == d@);
            if let Some((seg_addr, length)) = self.find_segment_area(d) {
                let seg_length: u32 = length as u32;
                match reg.cal_seg_list.position(d.name.as_str()) {
                    Some(k) => {
                        let seg = &reg.cal_seg_list.segments[k];
                        assert(reg.cal_seg_list@[k as int] == seg@);
                        let relative = match seg.address {
                            SegmentAddress::Known { addr, index } => addr as u64 == 0x8000_0000u64
                                + (index as u64) * 0x1_0000u64,
                            SegmentAddress::Relative => true,
                            SegmentAddress::Absolute(_) => false,
                        };
                        if relative && seg.size == seg_length {
                            reg.cal_seg_list.set_mem_addr(k, seg_addr);
                        }
                    },
                    None => {
                        if seg_relative || (seg_addr < 0xFFFF_FFFF && i < 255 && seg_length != 0) {
                            reg.cal_seg_list.add_cal_seg(
                                McCalibrationSegment {
                                    name: d.name.clone(),
                                    number: d.number,
                                    address: if seg_relative {
                                        SegmentAddress::Relative
                                    } else {
                                        SegmentAddress::Absolute(seg_addr as u32)
                                    },
                                    size: seg_length,
                                    mem_addr: seg_addr,
                                },
                            );
                        }
                    },
                }
            }
        }
        Ok(())
    }
}

/// The EPK segment stands before all other definitions, and the addresses of these do not fall.
pub open spec fn ranks_rise(s: Seq<SegmentDefinition<Seq<char>>>) -> bool {
    forall|i: int, j: int|
        0 <= i < j < s.len() ==> rank(#[trigger] s[i]) <= rank(#[trigger] s[j])
}

/// The definitions of one rank, in their order.
pub open spec fn of_rank(s: Seq<SegmentDefinition<Seq<char>>>, r: int) -> Seq<
    SegmentDefinition<Seq<char>>,
>
    decreases s.len(),
{
    if s.len() == 0 {
        s
    } else if rank(s.last()) == r {
        of_rank(s.drop_last(), r).push(s.last())
    } else {
        of_rank(s.drop_last(), r)
    }
}

proof fn lemma_insert_rises(s: Seq<SegmentDefinition<Seq<char>>>, d: SegmentDefinition<Seq<char>>)
    requires
        ranks_rise(s),
    ensures
        ranks_rise(insert_by_address(s, d)),
        forall|i: int|
            0 <= i < insert_by_address(s, d).len() ==> {
                ||| rank(#[trigger] insert_by_address(s, d)[i]) <= rank(d)
                ||| s.len() > 0 && rank(insert_by_address(s, d)[i]) <= rank(s.last())
            },
        insert_by_address(s, d).to_multiset() == s.to_multiset().insert(d),
    decreases s.len(),
{
    broadcast use vstd::seq_lib::group_to_multiset_ensures;

    if s.len() > 0 && rank(s.last()) > rank(d) {
        let t = s.drop_last();
        let r = insert_by_address(t, d);
        lemma_insert_rises(t, d);
        lemma_insert_len(t, d);
        let all = r.push(s.last());
        assert forall|i: int, j: int| 0 <= i < j < all.len() implies rank(#[trigger] all[i])
            <= rank(#[trigger] all[j]) by {
            if j == r.len() {
                assert(all[i] == r[i]);
                if t.len() > 0 {
                    assert(rank(s[t.len() - 1]) <= rank(s[t.len() as int]));
                }
            } else {
                assert(all[i] == r[i] && all[j] == r[j]);
            }
        }
        assert(s =~= t.push(s.last()));
        assert(all.to_multiset() =~= s.to_multiset().insert(d));
    }
}

proof fn lemma_of_rank_insert(
    s: Seq<SegmentDefinition<Seq<char>>>,
    d: SegmentDefinition<Seq<char>>,
    r: int,
)
    ensures
        of_rank(insert_by_address(s, d), r) == of_rank(s.push(d), r),
    decreases s.len(),
{
    if s.len() > 0 && rank(s.last()) > rank(d) {
        let t = s.drop_last();
        let b = insert_by_address(t, d);
        lemma_of_rank_insert(t, d, r);
        assert(b.push(s.last()).drop_last() =~= b);
        assert(t.push(d).drop_last() =~= t);
        assert(s.push(d).drop_last() =~= s);
        assert(of_rank(b.push(s.last()), r) == if rank(s.last()) == r {
            of_rank(b, r).push(s.last())
        } else {
            of_rank(b, r)
        });
        assert(of_rank(s, r) == if rank(s.last()) == r {
            of_rank(t, r).push(s.last())
        } else {
            of_rank(t, r)
        });
    }
}

/// Segments are processed in the order of their addresses, the EPK segment first: none is lost or
/// added, and those of one address keep the order of the variables.
pub proof fn law_segments_are_sorted_by_address(s: Seq<SegmentDefinition<Seq<char>>>, r: int)
    ensures
        ranks_rise(by_address(s)),
        by_address(s).to_multiset() == s.to_multiset(),
        of_rank(by_address(s), r) == of_rank(s, r),
    decreases s.len(),
{
    broadcast use vstd::seq_lib::group_to_multiset_ensures;

    if s.len() > 0 {
        let t = s.drop_last();
        let b = by_address(t);
        law_segments_are_sorted_by_address(t, r);
        lemma_insert_rises(b, s.last());
        lemma_of_rank_insert(b, s.last(), r);
        assert(s =~= t.push(s.last()));
        assert(b.push(s.last()).drop_last() =~= b);
    }
}

/// The EPK segment has always index 0: nothing stands before it but what is named like it, and the
/// first segment of that name has the number 0.
pub proof fn law_epk_segment_comes_first(s: Seq<SegmentDefinition<Seq<char>>>, k: int)
    requires
        0 <= k < s.len(),
        s[k].name == "epk"@,
    ensures
        ({
            let all = numbered(by_address(s));
            &&& all.len() > 0
            &&& all[0].name == "epk"@
            &&& forall|i: int, j: int|
                0 <= i < j < all.len() && (#[trigger] all[j]).name == "epk"@ ==> (
                #[trigger] all[i]).name == "epk"@
            &&& forall|i: int|
                0 <= i < all.len() && (forall|j: int|
                    0 <= j < i ==> (#[trigger] all[j]).number is None) ==> (
                (#[trigger] all[i]).number matches Some(number) ==> number == 0)
        }),
{
    broadcast use vstd::seq_lib::group_to_multiset_ensures;

    let b = by_address(s);
    let all = numbered(b);
    law_segments_are_sorted_by_address(s, 0);
    lemma_by_address_len(s);
    assert(s.contains(s[k]));
    assert(b.to_multiset().count(s[k]) > 0);
    let m = choose|m: int| 0 <= m < b.len() && b[m] == s[k];
    assert forall|i: int, j: int|
        0 <= i < j < all.len() && (#[trigger] all[j]).name == "epk"@ implies (
    #[trigger] all[i]).name == "epk"@ by {
        assert(rank(b[i]) <= rank(b[j]));
    }
    assert(all[m].name == "epk"@);
    assert(all[0].name == "epk"@);
    assert forall|i: int|
        0 <= i < all.len() && (forall|j: int| 0 <= j < i ==> (#[trigger] all[j]).number is None) implies (
    (#[trigger] all[i]).number matches Some(number) ==> number == 0) by {
        lemma_no_segments(b, i as nat);
    }
}

/// Where no definition has a number there are no segments.
proof fn lemma_no_segments(s: Seq<SegmentDefinition<Seq<char>>>, n: nat)
    requires
        n <= s.len(),
        forall|j: int| 0 <= j < n ==> (#[trigger] numbered(s)[j]).number is None,
    ensures
        segment_count(s, n) == 0,
    decreases n,
{
    if n > 0 {
        lemma_no_segments(s, (n - 1) as nat);
        assert(numbered(s)[n - 1].number is None);
    }
}

/// Segments are numbered through in their order, from 0 without a gap; blocks have no number.
pub proof fn law_segments_are_numbered_through(s: Seq<SegmentDefinition<Seq<char>>>, i: int)
    requires
        0 <= i < s.len(),
        segment_count(s, s.len()) <= 255,
    ensures
        numbered(s)[i].number is Some <==> s[i].number is Some,
        numbered(s)[i].number matches Some(number) ==> number == segment_count(numbered(s), i as nat),
{
    lemma_count_grows(s, i as nat, s.len());
    lemma_count_numbered(s, i as nat);
}

proof fn lemma_count_numbered(s: Seq<SegmentDefinition<Seq<char>>>, n: nat)
    requires
        n <= s.len(),
    ensures
        segment_count(numbered(s), n) == segment_count(s, n),
    decreases n,
{
    if n > 0 {
        lemma_count_numbered(s, (n - 1) as nat);
    }
}

/// No name is registered twice.
pub open spec fn segments_distinct(segs: Seq<McCalibrationSegment<Seq<char>>>) -> bool {
    forall|i: int, j: int|
        0 <= i < j < segs.len() ==> (#[trigger] segs[i]).name != (#[trigger] segs[j]).name
}

/// Registering segments leaves every registered segment in its place with its name, number, address
/// and size; only where its page lies may be learned. No name comes in twice.
pub proof fn law_registered_segments_stay(
    dd: DebugData,
    segs: Seq<McCalibrationSegment<Seq<char>>>,
    seg_relative: bool,
    n: nat,
)
    ensures
        ({
            let after = with_segments(dd, segs, seg_relative, n);
            &&& segs.len() <= after.len()
            &&& forall|i: int|
                0 <= i < segs.len() ==> {
                    &&& (#[trigger] after[i]).name == segs[i].name
                    &&& after[i].number == segs[i].number
                    &&& after[i].address == segs[i].address
                    &&& after[i].size == segs[i].size
                    &&& !is_relative(segs[i]) ==> after[i] == segs[i]
                }
            &&& segments_distinct(segs) ==> segments_distinct(after)
        }),
    decreases n,
{
    if n > 0 {
        law_registered_segments_stay(dd, segs, seg_relative, (n - 1) as nat);
        let before = with_segments(dd, segs, seg_relative, (n - 1) as nat);
        let d = dd.segments()[n - 1];
        crate::registry::lemma_segment_named(before, d.name);
    }
}

} // verus!
