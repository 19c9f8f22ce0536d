//! Registration of metadata: units, comments, limits and access rights that the code attaches to
//! variables, read from the `xcp_meta` section.
use vstd::prelude::*;
use vstd::string::*;
use vstd::utf8::*;

use crate::bytes::{before_zero, bytes_before_zero, string_from_utf8};
use crate::debuginfo::{DebugData, VarInfo};
use crate::elf_reader::ElfReader;
use crate::registry::{metadata_view, McInstance, McMetadata, MetadataRequest, Registry, RegistryError};
use crate::text::{
    after_sep, before_sep, dot_path, dotted, ends_with, first_of, same_text, split_at_char, split_sep,
    strip_prefix, stripped,
};
use crate::variable_map::{variable_at, variable_count};

verus! {

/// The string that begins at an offset and ends before the next zero byte, or with the data;
/// nothing if the offset lies behind the data or the bytes are not valid UTF-8.
pub open spec fn cstr_at(data: Seq<u8>, offset: int) -> Option<Seq<char>> {
    if 0 <= offset < data.len() {
        let bytes = before_zero(data.skip(offset));
        if valid_utf8(bytes) {
            Some(decode_utf8(bytes))
        } else {
            None
        }
    } else {
        None
    }
}

/// Reads a zero-terminated UTF-8 string at an offset.
pub fn read_cstr_at(data: &[u8], offset: usize) -> (r: Option<String>)
    ensures
        crate::debuginfo::opt_text(r) == cstr_at(data@, offset as int),
{
    let n: usize = data.len();
    if offset >= n {
        return None;
    }
    string_from_utf8(bytes_before_zero(data, offset))
}

/// The number that eight bytes stand for, the lowest byte first.
pub open spec fn le_number(b: Seq<u8>) -> u64 {
    (b[0] + b[1] * 0x100 + b[2] * 0x1_0000 + b[3] * 0x100_0000 + b[4] * 0x1_0000_0000 + b[5]
        * 0x100_0000_0000 + b[6] * 0x1_0000_0000_0000 + b[7] * 0x100_0000_0000_0000) as u64
}

/// The eight bytes at an offset as the bits of a floating point number, if there are as many.
pub open spec fn bits_at(data: Seq<u8>, offset: int) -> Option<u64> {
    if 0 <= offset && offset + 8 <= data.len() {
        Some(le_number(data.subrange(offset, offset + 8)))
    } else {
        None
    }
}

/// Reads the bits of a floating point number at an offset, the lowest byte first.
fn read_bits_at(data: &[u8], offset: usize) -> (r: Option<u64>)
    ensures
        r == bits_at(data@, offset as int),
{
    let n: usize = data.len();
    if n < 8 || offset > n - 8 {
        return None;
    }
    assert(forall|k: int|
        0 <= k < 8 ==> #[trigger] data@.subrange(offset as int, offset + 8)[k] == data@[offset + k]);
    Some(
        data[offset] as u64 + data[offset + 1] as u64 * 0x100 + data[offset + 2] as u64 * 0x1_0000
            + data[offset + 3] as u64 * 0x100_0000 + data[offset + 4] as u64 * 0x1_0000_0000 + data[
        offset + 5] as u64 * 0x100_0000_0000 + data[offset + 6] as u64 * 0x1_0000_0000_0000
            + data[offset + 7] as u64 * 0x100_0000_0000_0000,
    )
}

/// The metadata of a kind that stands at an offset: strings for `unit` and `comment`, numbers for
/// `min` and `max`, nothing to be read for `read_write`. Other kinds are unknown.
pub open spec fn metadata_at(kind: Seq<char>, data: Seq<u8>, offset: int) -> Option<
    McMetadata<Seq<char>>,
> {
    if kind == "unit"@ {
        match cstr_at(data, offset) {
            Some(s) => Some(McMetadata::Unit(s)),
            None => None,
        }
    } else if kind == "comment"@ {
        match cstr_at(data, offset) {
            Some(s) => Some(McMetadata::Comment(s)),
            None => None,
        }
    } else if kind == "min"@ {
        match bits_at(data, offset) {
            Some(bits) => Some(McMetadata::Min(bits)),
            None => None,
        }
    } else if kind == "max"@ {
        match bits_at(data, offset) {
            Some(bits) => Some(McMetadata::Max(bits)),
            None => None,
        }
    } else if kind == "read_write"@ {
        Some(McMetadata::ReadWrite)
    } else {
        None
    }
}

/// Reads the metadata of a kind at an offset.
fn read_metadata(kind: &str, data: &[u8], offset: usize) -> (r: Option<McMetadata<String>>)
    ensures
        match r {
            Some(m) => metadata_at(kind@, data@, offset as int) == Some(m@),
            None => metadata_at(kind@, data@, offset as int) is None,
        },
{
    if same_text(kind, "unit") {
        match read_cstr_at(data, offset) {
            Some(s) => Some(McMetadata::Unit(s)),
            None => None,
        }
    } else if same_text(kind, "comment") {
        match read_cstr_at(data, offset) {
            Some(s) => Some(McMetadata::Comment(s)),
            None => None,
        }
    } else if same_text(kind, "min") {
        match read_bits_at(data, offset) {
            Some(bits) => Some(McMetadata::Min(bits)),
            None => None,
        }
    } else if same_text(kind, "max") {
        match read_bits_at(data, offset) {
            Some(bits) => Some(McMetadata::Max(bits)),
            None => None,
        }
    } else if same_text(kind, "read_write") {
        Some(McMetadata::ReadWrite)
    } else {
        None
    }
}

/// The kind of metadata and the variable it is for, in the name `xcp_meta__<kind>__<variable>`.
pub open spec fn metadata_marker(name: Seq<char>) -> Option<(Seq<char>, Seq<char>)> {
    match stripped(name, "xcp_meta__"@) {
        Some(rest) => match after_sep(rest) {
            Some(base_name) => Some((before_sep(rest), base_name)),
            None => None,
        },
        None => None,
    }
}

/// An instance is meant by a path: it has that name, or a name that ends with it behind a dot.
pub open spec fn is_meant(name: Seq<char>, path: Seq<char>) -> bool {
    name == path || ("."@ + path).is_suffix_of(name)
}

/// The request for a field, where a path has an instance before its first dot and a field behind
/// it.
pub open spec fn field_requests(path: Seq<char>, data: McMetadata<Seq<char>>) -> Seq<
    MetadataRequest<Seq<char>>,
> {
    match first_of(path, '.') {
        Some(p) => seq![
            MetadataRequest::Field { instance: path.take(p), path: path.skip(p + 1), data },
        ],
        None => Seq::empty(),
    }
}

/// The requests for the instances that a path means, among the first `n`.
pub open spec fn instance_requests(
    instances: Seq<McInstance<Seq<char>>>,
    path: Seq<char>,
    data: McMetadata<Seq<char>>,
    n: nat,
) -> Seq<MetadataRequest<Seq<char>>>
    decreases n,
{
    if n == 0 {
        Seq::empty()
    } else {
        let before = instance_requests(instances, path, data, (n - 1) as nat);
        let name = instances[n - 1].name;
        if is_meant(name, path) {
            before.push(MetadataRequest::Instance { name, data })
        } else {
            before
        }
    }
}

impl DebugData {
    /// The metadata of a variable that stands for metadata: the kind that its name tells, read at
    /// its address in the section, and the dotted path of what it is for.
    pub open spec fn metadata_of(&self, name: Seq<char>, infos: Seq<VarInfo>) -> Option<
        (Seq<char>, McMetadata<Seq<char>>),
    > {
        match (metadata_marker(name), self.xcp_meta_data) {
            (Some((kind, base_name)), Some((base_addr, data))) => if infos.len() == 0 {
                None
            } else {
                let addr = infos[0].address.1;
                if addr != 0 && base_addr <= addr < base_addr + data@.len() {
                    match metadata_at(kind, data@, addr - base_addr) {
                        Some(m) => Some((dotted(base_name), m)),
                        None => None,
                    }
                } else {
                    None
                }
            },
            _ => None,
        }
    }

    /// The requests for the metadata of the first `n` variables: for a field where the path has a
    /// dot, and for every instance that the path means.
    pub open spec fn metadata_requests(&self, instances: Seq<McInstance<Seq<char>>>, n: nat) -> Seq<
        MetadataRequest<Seq<char>>,
    >
        decreases n,
    {
        if n == 0 {
            Seq::empty()
        } else {
            let before = self.metadata_requests(instances, (n - 1) as nat);
            match self.metadata_of(self.vars()[n - 1].0, self.vars()[n - 1].1) {
                Some((path, data)) => before + field_requests(path, data) + instance_requests(
                    instances,
                    path,
                    data,
                    instances.len(),
                ),
                None => before,
            }
        }
    }

    /// The metadata section ends within the address space and has the lowest byte of a number
    /// first.
    pub open spec fn metadata_ok(&self) -> bool {
        self.xcp_meta_data matches Some((base_addr, data)) ==> self.is_little_endian && base_addr
            + data@.len() <= u64::MAX
    }
}

/// Whether an instance is meant by a path.
fn meant(name: &str, path: &str) -> (r: bool)
    ensures
        r == is_meant(name@, path@),
{
    let mut suffix = ".".to_owned();
    suffix.append(path);
    same_text(name, path) || ends_with(name, suffix.as_str())
}

/// Adds a request at the end.
fn push_request(v: &mut Vec<MetadataRequest<String>>, m: MetadataRequest<String>)
    ensures
        metadata_view(final(v)@) == metadata_view(old(v)@).push(m@),
{
    let ghost before = metadata_view(v@);
    let ghost added = m@;
    v.push(m);
    assert(metadata_view(v@) =~= before.push(added));
}

impl ElfReader {
    /// Requests metadata for the field that a path leads to.
    fn apply_field_metadata(reg: &mut Registry, path: &str, kind: &str, data: &[u8], offset: usize)
        requires
            metadata_at(kind@, data@, offset as int) is Some,
        ensures
            metadata_view(final(reg).metadata@) == metadata_view(old(reg).metadata@)
                + field_requests(path@, metadata_at(kind@, data@, offset as int)->0),
            final(reg).instance_list == old(reg).instance_list,
            final(reg).event_list == old(reg).event_list,
            final(reg).cal_seg_list == old(reg).cal_seg_list,
            final(reg).typedef_list == old(reg).typedef_list,
            final(reg).version == old(reg).version,
    {
        let ghost m = metadata_at(kind@, data@, offset as int)->0;
        let ghost before = metadata_view(reg.metadata@);
        if let Some((instance, field)) = split_at_char(path, '.') {
            if let Some(value) = read_metadata(kind, data, offset) {
                push_request(
                    &mut reg.metadata,
                    MetadataRequest::Field {
                        instance: instance.to_owned(),
                        path: field.to_owned(),
                        data: value,
                    },
                );
            }
        }
        assert(metadata_view(reg.metadata@) =~= before + field_requests(path@, m));
    }

    /// Requests metadata for the instances that a path means.
    fn apply_instance_metadata(
        reg: &mut Registry,
        path: &str,
        kind: &str,
        data: &[u8],
        offset: usize,
    )
        requires
            metadata_at(kind@, data@, offset as int) is Some,
        ensures
            metadata_view(final(reg).metadata@) == metadata_view(old(reg).metadata@)
                + instance_requests(
                old(reg).instance_list@,
                path@,
                metadata_at(kind@, data@, offset as int)->0,
                old(reg).instance_list@.len(),
            ),
            final(reg).instance_list == old(reg).instance_list,
            final(reg).event_list == old(reg).event_list,
            final(reg).cal_seg_list == old(reg).cal_seg_list,
            final(reg).typedef_list == old(reg).typedef_list,
            final(reg).version == old(reg).version,
    {
        let ghost m = metadata_at(kind@, data@, offset as int)->0;
        let ghost before = metadata_view(reg.metadata@);
        let ghost instances = reg.instance_list@;
        let n: usize = reg.instance_list.instances.len();
        assert(before =~= before + instance_requests(instances, path@, m, 0));
        for i in 0..n
            invariant
                n == instances.len(),
                instances == reg.instance_list@,
                metadata_at(kind@, data@, offset as int) == Some(m),
                metadata_view(reg.metadata@) == before + instance_requests(
                    instances,
                    path@,
                    m,
                    i as nat,
                ),
                reg.instance_list == old(reg).instance_list,
                reg.event_list == old(reg).event_list,
                reg.cal_seg_list == old(reg).cal_seg_list,
                reg.typedef_list == old(reg).typedef_list,
                reg.version == old(reg).version,
        {
            let name = reg.instance_list.instances[i].name.clone();
            assert(instances[i as int].name == name@);
            if meant(name.as_str(), path) {
                if let Some(value) = read_metadata(kind, data, offset) {
                    push_request(
                        &mut reg.metadata,
                        MetadataRequest::Instance { name, data: value },
                    );
                }
            }
            assert(metadata_view(reg.metadata@) =~= before + instance_requests(
                instances,
                path@,
                m,
                (i + 1) as nat,
            ));
        }
    }

    /// Reads units, comments, limits and access rights from the `xcp_meta` section and requests
    /// them for the fields and the registered instances that they are for. Variables are to be
    /// registered before.
    pub fn register_metadata(&self, reg: &mut Registry) -> (r: Result<(), RegistryError>)
        requires
            self.debug_data.metadata_ok(),
        ensures
            r is Ok,
            metadata_view(final(reg).metadata@) == metadata_view(old(reg).metadata@)
                + self.debug_data.metadata_requests(
                old(reg).instance_list@,
                self.debug_data.vars().len(),
            ),
            final(reg).instance_list == old(reg).instance_list,
            final(reg).event_list == old(reg).event_list,
            final(reg).cal_seg_list == old(reg).cal_seg_list,
            final(reg).typedef_list == old(reg).typedef_list,
            final(reg).version == old(reg).version,
    {
        let ghost vars = self.debug_data.vars();
        let ghost instances = reg.instance_list@;
        let ghost start = metadata_view(reg.metadata@);
        let (base_addr, meta_data) = match &self.debug_data.xcp_meta_data {
            Some((base_addr, data)) => (*base_addr, data.as_slice()),
            None => {
                proof {
                    lemma_no_requests(self.debug_data, instances, vars.len());
                    assert(start =~= start + Seq::<MetadataRequest<Seq<char>>>::empty());
                }
                return Ok(());
            },
        };
        let meta_len: usize = meta_data.len();
        let meta_end: u64 = base_addr + meta_len as u64;
        let n: usize = variable_count(&self.debug_data.variables);
        let mut i: usize = 0;
        assert(start =~= start + Seq::<MetadataRequest<Seq<char>>>::empty());
        while i < n
            invariant
                n == vars.len(),
                vars == self.debug_data.vars(),
                i <= n,
                self.debug_data.xcp_meta_data matches Some((a, d)) && a == base_addr && d@
                    == meta_data@,
                meta_len == meta_data@.len(),
                meta_end == base_addr + meta_len,
                instances == reg.instance_list@,
                metadata_view(reg.metadata@) == start + self.debug_data.metadata_requests(
                    instances,
                    i as nat,
                ),
                reg.instance_list == old(reg).instance_list,
                reg.event_list == old(reg).event_list,
                reg.cal_seg_list == old(reg).cal_seg_list,
                reg.typedef_list == old(reg).typedef_list,
                reg.version == old(reg).version,
            decreases n - i,
        {
            let (name, infos) = match variable_at(&self.debug_data.variables, i) {
                Some(entry) => entry,
                None => {
                    return Ok(());
                },
            };
            assert(vars[i as int] == (name@, infos@));
            let ghost before = self.debug_data.metadata_requests(instances, i as nat);
            i = i + 1;
            let rest = match strip_prefix(name.as_str(), "xcp_meta__") {
                Some(rest) => rest,
                None => {
                    continue;
                },
            };
            let (kind, base_name) = match split_sep(rest) {
                Some(pieces) => pieces,
                None => {
                    continue;
                },
            };
            if infos.len() == 0 {
                continue;
            }
            let var_addr: u64 = infos[0].address.1;
            if var_addr == 0 || var_addr < base_addr || var_addr >= meta_end {
                continue;
            }
            let offset: usize = (var_addr - base_addr) as usize;
            let path = dot_path(base_name);
            if read_metadata(kind, meta_data, offset).is_none() {
                continue;
            }
            Self::apply_field_metadata(reg, path.as_str(), kind, meta_data, offset);
            Self::apply_instance_metadata(reg, path.as_str(), kind, meta_data, offset);
            proof {
                let m = metadata_at(kind@, meta_data@, offset as int)->0;
                let f = field_requests(path@, m);
                let g = instance_requests(instances, path@, m, instances.len());
                assert(start + before + f + g =~= start + (before + f + g));
            }
        }
        Ok(())
    }
}

/// Without a metadata section nothing is requested.
proof fn lemma_no_requests(dd: DebugData, instances: Seq<McInstance<Seq<char>>>, n: nat)
    requires
        dd.xcp_meta_data is None,
    ensures
        dd.metadata_requests(instances, n) == Seq::<MetadataRequest<Seq<char>>>::empty(),
    decreases n,
{
    if n > 0 {
        lemma_no_requests(dd, instances, (n - 1) as nat);
    }
}

proof fn lemma_instance_requests(
    instances: Seq<McInstance<Seq<char>>>,
    path: Seq<char>,
    data: McMetadata<Seq<char>>,
    n: nat,
)
    requires
        n <= instances.len(),
    ensures
        forall|i: int|
            0 <= i < n && is_meant((#[trigger] instances[i]).name, path) ==> instance_requests(
                instances,
                path,
                data,
                n,
            ).contains(MetadataRequest::Instance { name: instances[i].name, data }),
        forall|m: int|
            0 <= m < instance_requests(instances, path, data, n).len() ==> is_for_registered(
                instances,
                #[trigger] instance_requests(instances, path, data, n)[m],
            ),
    decreases n,
{
    if n > 0 {
        lemma_instance_requests(instances, path, data, (n - 1) as nat);
        let before = instance_requests(instances, path, data, (n - 1) as nat);
        let after = instance_requests(instances, path, data, n);
        assert forall|i: int|
            0 <= i < n && is_meant((#[trigger] instances[i]).name, path) implies after.contains(
            MetadataRequest::Instance { name: instances[i].name, data },
        ) by {
            let r = MetadataRequest::Instance { name: instances[i].name, data };
            if i == n - 1 {
                assert(after[before.len() as int] == r);
            } else {
                assert(before.contains(r));
                let m = choose|m: int| 0 <= m < before.len() && before[m] == r;
                assert(after[m] == r);
            }
        }
        assert forall|m: int| 0 <= m < after.len() implies is_for_registered(
            instances,
            #[trigger] after[m],
        ) by {
            if m < before.len() {
                assert(after[m] == before[m]);
            } else {
                assert(instances[n - 1].name == instances[n - 1].name);
            }
        }
    }
}

/// A request is for an instance that is registered.
pub open spec fn is_for_registered(
    instances: Seq<McInstance<Seq<char>>>,
    request: MetadataRequest<Seq<char>>,
) -> bool {
    match request {
        MetadataRequest::Instance { name, .. } => exists|i: int|
            0 <= i < instances.len() && (#[trigger] instances[i]).name == name,
        MetadataRequest::Field { .. } => false,
    }
}

/// Metadata is requested for every registered instance that its path means.
pub proof fn law_metadata_reaches_its_instances(
    dd: DebugData,
    instances: Seq<McInstance<Seq<char>>>,
    n: nat,
    k: int,
    i: int,
)
    requires
        0 <= k < n <= dd.vars().len(),
        0 <= i < instances.len(),
        dd.metadata_of(dd.vars()[k].0, dd.vars()[k].1) is Some,
        is_meant(
            instances[i].name,
            (dd.metadata_of(dd.vars()[k].0, dd.vars()[k].1)->0).0,
        ),
    ensures
        dd.metadata_requests(instances, n).contains(
            (MetadataRequest::Instance {
                name: instances[i].name,
                data: (dd.metadata_of(dd.vars()[k].0, dd.vars()[k].1)->0).1,
            }),
        ),
    decreases n,
{
    let (path, data) = dd.metadata_of(dd.vars()[k].0, dd.vars()[k].1)->0;
    let r = MetadataRequest::Instance { name: instances[i].name, data };
    let before = dd.metadata_requests(instances, (n - 1) as nat);
    let after = dd.metadata_requests(instances, n);
    if k == n - 1 {
        let f = field_requests(path, data);
        let g = instance_requests(instances, path, data, instances.len());
        lemma_instance_requests(instances, path, data, instances.len());
        assert(g.contains(r));
        let m = choose|m: int| 0 <= m < g.len() && g[m] == r;
        assert(after[before.len() + f.len() + m] == r);
    } else {
        law_metadata_reaches_its_instances(dd, instances, (n - 1) as nat, k, i);
        let m = choose|m: int| 0 <= m < before.len() && before[m] == r;
        assert(after[m] == r);
    }
}

/// Metadata for instances is requested only for registered ones.
pub proof fn law_metadata_is_for_registered_instances(
    dd: DebugData,
    instances: Seq<McInstance<Seq<char>>>,
    n: nat,
    m: int,
)
    requires
        0 <= m < dd.metadata_requests(instances, n).len(),
    ensures
        dd.metadata_requests(instances, n)[m] is Instance ==> is_for_registered(
            instances,
            dd.metadata_requests(instances, n)[m],
        ),
    decreases n,
{
    if n > 0 {
        let before = dd.metadata_requests(instances, (n - 1) as nat);
        if m < before.len() {
            law_metadata_is_for_registered_instances(dd, instances, (n - 1) as nat, m);
        } else if let Some((path, data)) = dd.metadata_of(dd.vars()[n - 1].0, dd.vars()[n - 1].1) {
            let f = field_requests(path, data);
            let g = instance_requests(instances, path, data, instances.len());
            lemma_instance_requests(instances, path, data, instances.len());
            if m >= before.len() + f.len() {
                assert(dd.metadata_requests(instances, n)[m] == g[m - before.len() - f.len()]);
            }
        }
    }
}

} // verus!
