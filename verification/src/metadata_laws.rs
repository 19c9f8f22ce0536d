//! What the code tells of its variables: how metadata is read, and what it is for.
use vstd::prelude::*;
use vstd::bytes::{spec_u64_to_le_bytes, spec_u64_to_le_bytes_to_open};
use vstd::utf8::*;

use crate::bytes::{before_zero, law_text_ends_at_the_first_zero};
use crate::debuginfo::{DebugData, VarInfo};
use crate::metadata::{
    bits_at, cstr_at, field_requests, instance_requests, is_meant, le_number, metadata_at,
    metadata_marker,
};
use crate::registry::{McInstance, McMetadata, MetadataRequest};
use crate::text::{dotted, first_of};
use crate::text_laws::{
    begins_with, is_head, law_first_place_of_a_character, law_prefixes_come_off,
    law_texts_are_cut_at_the_first_separator,
};

verus! {

/// A variable named `xcp_meta__`, a kind, a separator and a name holds metadata of that kind for what
/// has that name; all behind the first separator is the name. No other variable holds metadata.
pub proof fn law_metadata_markers_tell_kind_and_name(
    kind: Seq<char>,
    base: Seq<char>,
    name: Seq<char>,
)
    requires
        is_head(kind),
    ensures
        metadata_marker("xcp_meta__"@ + (kind + "__"@ + base)) == Some((kind, base)),
        metadata_marker("xcp_meta__"@ + kind) is None,
        !begins_with(name, "xcp_meta__"@) ==> metadata_marker(name) is None,
{
    law_prefixes_come_off("xcp_meta__"@, kind + "__"@ + base, name);
    law_prefixes_come_off("xcp_meta__"@, kind, name);
    law_texts_are_cut_at_the_first_separator(kind, base);
}

/// A text that ends with a zero byte is read up to that, wherever it begins and whatever follows it;
/// a text at the end of the data is read to the end. Bytes that are no UTF-8 are no text.
pub proof fn law_texts_are_read_up_to_a_zero_byte(
    front: Seq<u8>,
    text: Seq<u8>,
    rest: Seq<u8>,
)
    requires
        !text.contains(0u8),
    ensures
        valid_utf8(text) ==> cstr_at(front + text.push(0u8) + rest, front.len() as int) == Some(
            decode_utf8(text),
        ),
        !valid_utf8(text) ==> cstr_at(front + text.push(0u8) + rest, front.len() as int) is None,
        text.len() > 0 && valid_utf8(text) ==> cstr_at(front + text, front.len() as int) == Some(
            decode_utf8(text),
        ),
        cstr_at(front, front.len() as int) is None,
{
    let data = front + text.push(0u8) + rest;
    assert(data.skip(front.len() as int) =~= text.push(0u8) + rest);
    lemma_zero_ends(text, rest);
    assert((front + text).skip(front.len() as int) =~= text);
    law_text_ends_at_the_first_zero(text);
    let b = before_zero(text);
    if b.len() < text.len() {
        assert(text.contains(text[b.len() as int]));
    }
    assert(b =~= text);
}

proof fn lemma_zero_ends(text: Seq<u8>, rest: Seq<u8>)
    requires
        !text.contains(0u8),
    ensures
        before_zero(text.push(0u8) + rest) == text,
{
    let data = text.push(0u8) + rest;
    let b = before_zero(data);
    law_text_ends_at_the_first_zero(data);
    if b.len() < text.len() {
        assert(data[b.len() as int] == text[b.len() as int]);
        assert(text.contains(0u8));
    }
    if b.len() > text.len() {
        assert(b[text.len() as int] == data[text.len() as int]);
        assert(b.contains(0u8));
    }
    assert(b =~= text);
}

proof fn lemma_bytes_of(x: u64)
    by (bit_vector)
    ensures
        x == (x & 0xff) + ((x >> 8) & 0xff) * 0x100 + ((x >> 16) & 0xff) * 0x1_0000 + ((x >> 24)
            & 0xff) * 0x100_0000 + ((x >> 32) & 0xff) * 0x1_0000_0000 + ((x >> 40) & 0xff)
            * 0x100_0000_0000 + ((x >> 48) & 0xff) * 0x1_0000_0000_0000 + ((x >> 56) & 0xff)
            * 0x100_0000_0000_0000,
        x & 0xff < 0x100,
        (x >> 8) & 0xff < 0x100,
        (x >> 16) & 0xff < 0x100,
        (x >> 24) & 0xff < 0x100,
        (x >> 32) & 0xff < 0x100,
        (x >> 40) & 0xff < 0x100,
        (x >> 48) & 0xff < 0x100,
        (x >> 56) & 0xff < 0x100,
{
}

/// A number that was written with its lowest byte first is read back, wherever it stands; a number of
/// which a byte is missing is not read.
pub proof fn law_numbers_are_read_back(front: Seq<u8>, x: u64, rest: Seq<u8>, short: Seq<u8>)
    requires
        short.len() < 8,
    ensures
        bits_at(front + spec_u64_to_le_bytes(x) + rest, front.len() as int) == Some(x),
        bits_at(front + short, front.len() as int) is None,
{
    let b = spec_u64_to_le_bytes(x);
    let data = front + b + rest;
    lemma_bytes_of(x);
    spec_u64_to_le_bytes_to_open(x);
    assert(b.len() == 8);
    assert(data.subrange(front.len() as int, front.len() as int + 8) =~= b);
    assert(b[0] == x & 0xff);
    assert(b[1] == (x >> 8) & 0xff);
    assert(b[2] == (x >> 16) & 0xff);
    assert(b[3] == (x >> 24) & 0xff);
    assert(b[4] == (x >> 32) & 0xff);
    assert(b[5] == (x >> 40) & 0xff);
    assert(b[6] == (x >> 48) & 0xff);
    assert(b[7] == (x >> 56) & 0xff);
    assert(le_number(b) == x);
}

/// Units and comments are texts, limits are numbers, and a right to write needs no data; there are no
/// other kinds.
pub proof fn law_kinds_of_metadata(kind: Seq<char>, data: Seq<u8>, offset: int)
    ensures
        metadata_at("unit"@, data, offset) is Some <==> cstr_at(data, offset) is Some,
        metadata_at("comment"@, data, offset) is Some <==> cstr_at(data, offset) is Some,
        metadata_at("min"@, data, offset) is Some <==> bits_at(data, offset) is Some,
        metadata_at("max"@, data, offset) is Some <==> bits_at(data, offset) is Some,
        metadata_at("unit"@, data, offset) matches Some(m) ==> m == McMetadata::Unit(
            cstr_at(data, offset)->0,
        ),
        metadata_at("comment"@, data, offset) matches Some(m) ==> m == McMetadata::Comment(
            cstr_at(data, offset)->0,
        ),
        metadata_at("min"@, data, offset) matches Some(m) ==> m == McMetadata::<Seq<char>>::Min(
            bits_at(data, offset)->0,
        ),
        metadata_at("max"@, data, offset) matches Some(m) ==> m == McMetadata::<Seq<char>>::Max(
            bits_at(data, offset)->0,
        ),
        metadata_at("read_write"@, data, offset) == Some(McMetadata::<Seq<char>>::ReadWrite),
        kind != "unit"@ && kind != "comment"@ && kind != "min"@ && kind != "max"@ && kind
            != "read_write"@ ==> metadata_at(kind, data, offset) is None,
{
    reveal_strlit("unit");
    reveal_strlit("comment");
    reveal_strlit("min");
    reveal_strlit("max");
    reveal_strlit("read_write");
    assert("min"@[1] == 'i' && "max"@[1] == 'a');
    assert("unit"@.len() == 4 && "comment"@.len() == 7 && "read_write"@.len() == 10);
    assert("min"@.len() == 3 && "max"@.len() == 3);
}

/// Metadata is read where its marker lies in the metadata section: from the data that stands as far
/// behind the start of the section as the marker, and for the dotted name in the marker.
pub proof fn law_metadata_is_read_at_its_marker(
    dd: DebugData,
    kind: Seq<char>,
    base: Seq<char>,
    infos: Seq<VarInfo>,
    front: Seq<u8>,
    back: Seq<u8>,
)
    requires
        is_head(kind),
        infos.len() > 0,
        back.len() > 0,
        dd.xcp_meta_data is Some,
        (dd.xcp_meta_data->0).1@ == front + back,
        infos[0].address.1 == (dd.xcp_meta_data->0).0 + front.len(),
        infos[0].address.1 != 0,
    ensures
        ({
            let name = "xcp_meta__"@ + (kind + "__"@ + base);
            let read = metadata_at(kind, front + back, front.len() as int);
            &&& dd.metadata_of(name, infos) is Some <==> read is Some
            &&& dd.metadata_of(name, infos) matches Some((path, data)) ==> path == dotted(base) && read
                == Some(data)
        }),
{
    law_metadata_markers_tell_kind_and_name(kind, base, base);
}

/// A marker that lies outside of the metadata section, or at the address 0, has no metadata.
pub proof fn law_no_metadata_outside_of_its_section(
    dd: DebugData,
    name: Seq<char>,
    infos: Seq<VarInfo>,
)
    requires
        dd.xcp_meta_data is None || infos.len() == 0 || infos[0].address.1 == 0
            || infos[0].address.1 < (dd.xcp_meta_data->0).0 || infos[0].address.1 >= (
        dd.xcp_meta_data->0).0 + (dd.xcp_meta_data->0).1@.len() || metadata_marker(name) is None,
    ensures
        dd.metadata_of(name, infos) is None,
{
}

/// A path with a dot asks for a field: of the instance before its first dot, on the path behind that.
/// A path without a dot asks for none.
pub proof fn law_paths_with_a_dot_lead_to_fields(
    instance: Seq<char>,
    field: Seq<char>,
    data: McMetadata<Seq<char>>,
)
    requires
        !instance.contains('.'),
    ensures
        field_requests(instance.push('.') + field, data) == seq![
            MetadataRequest::Field { instance, path: field, data },
        ],
        field_requests(instance, data).len() == 0,
{
    law_first_place_of_a_character(instance, '.', field);
    let path = instance.push('.') + field;
    assert(path.take(instance.len() as int) =~= instance);
    assert(path.skip(instance.len() as int + 1) =~= field);
}

/// A path means the instance of its name and those whose name ends with it behind a dot, and no others.
pub proof fn law_paths_mean_whole_names(name: Seq<char>, path: Seq<char>, scope: Seq<char>)
    ensures
        is_meant(path, path),
        is_meant(scope + "."@ + path, path),
        is_meant(name, path) ==> name == path || exists|s: Seq<char>| name == #[trigger] (s + "."@)
            + path,
{
    let full = scope + "."@ + path;
    let tail = "."@ + path;
    assert(tail =~= full.skip(full.len() - tail.len()));
    if is_meant(name, path) && name != path {
        let s = name.take(name.len() - tail.len());
        assert(name =~= s + tail);
        assert((s + "."@) + path =~= s + tail);
    }
}

/// Every instance that is meant is asked for once, in the order of the instances, and no other.
pub proof fn law_meant_instances_are_asked_for(
    instances: Seq<McInstance<Seq<char>>>,
    path: Seq<char>,
    data: McMetadata<Seq<char>>,
    n: nat,
)
    requires
        n <= instances.len(),
    ensures
        instance_requests(instances, path, data, n) == instances.take(n as int).filter(
            |i: McInstance<Seq<char>>| is_meant(i.name, path),
        ).map_values(
            |i: McInstance<Seq<char>>| MetadataRequest::Instance { name: i.name, data },
        ),
    decreases n,
{
    reveal(Seq::filter);
    let meant = |i: McInstance<Seq<char>>| is_meant(i.name, path);
    let request = |i: McInstance<Seq<char>>| MetadataRequest::Instance { name: i.name, data };
    let all = instances.take(n as int);
    if n > 0 {
        law_meant_instances_are_asked_for(instances, path, data, (n - 1) as nat);
        assert(all.drop_last() =~= instances.take(n - 1));
        assert(all.last() == instances[n - 1]);
    }
    assert(instance_requests(instances, path, data, n) =~= all.filter(meant).map_values(request));
}

/// The number of requests for the metadata of the first `n` variables: one for a field where a path has
/// a dot, and one for each instance that is meant.
pub open spec fn request_total(
    dd: DebugData,
    instances: Seq<McInstance<Seq<char>>>,
    n: nat,
) -> nat
    decreases n,
{
    if n == 0 {
        0
    } else {
        request_total(dd, instances, (n - 1) as nat) + match dd.metadata_of(
            dd.vars()[n - 1].0,
            dd.vars()[n - 1].1,
        ) {
            Some((path, _)) => (if path.contains('.') {
                1nat
            } else {
                0nat
            }) + instances.filter(|i: McInstance<Seq<char>>| is_meant(i.name, path)).len(),
            None => 0nat,
        }
    }
}

/// A request is for what the metadata of a variable is for.
pub open spec fn is_request_of(
    dd: DebugData,
    k: int,
    request: MetadataRequest<Seq<char>>,
) -> bool {
    match dd.metadata_of(dd.vars()[k].0, dd.vars()[k].1) {
        Some((name, value)) => match request {
            MetadataRequest::Field { instance, path, data } => data == value && name
                == instance.push('.') + path && !instance.contains('.'),
            MetadataRequest::Instance { name: n, data } => data == value && is_meant(n, name),
        },
        None => false,
    }
}

/// What is asked for is what the metadata of the variables is for: each request stems from one of the
/// variables, there are as many as the metadata asks for, and variables that come first ask first.
pub proof fn law_requests_stem_from_metadata(
    dd: DebugData,
    instances: Seq<McInstance<Seq<char>>>,
    m: nat,
    n: nat,
    i: int,
)
    requires
        m <= n <= dd.vars().len(),
    ensures
        dd.metadata_requests(instances, n).len() == request_total(dd, instances, n),
        dd.metadata_requests(instances, m).is_prefix_of(dd.metadata_requests(instances, n)),
        0 <= i < dd.metadata_requests(instances, n).len() ==> exists|k: int|
            0 <= k < n && #[trigger] is_request_of(dd, k, dd.metadata_requests(instances, n)[i]),
    decreases n,
{
    let after = dd.metadata_requests(instances, n);
    if n > 0 {
        let before = dd.metadata_requests(instances, (n - 1) as nat);
        law_requests_stem_from_metadata(
            dd,
            instances,
            if m < n { m } else { (n - 1) as nat },
            (n - 1) as nat,
            i,
        );
        match dd.metadata_of(dd.vars()[n - 1].0, dd.vars()[n - 1].1) {
            Some((path, data)) => {
                let f = field_requests(path, data);
                let g = instance_requests(instances, path, data, instances.len());
                law_meant_instances_are_asked_for(instances, path, data, instances.len());
                assert(instances.take(instances.len() as int) =~= instances);
                lemma_first_dot(path);
                assert(after =~= before + f + g);
                if before.len() <= i < before.len() + f.len() {
                    assert(is_request_of(dd, n - 1, after[i]));
                } else if before.len() + f.len() <= i < after.len() {
                    let x = i - before.len() - f.len();
                    assert(after[i] == g[x]);
                    lemma_asked_for(instances, path, data, instances.len(), x);
                    assert(is_request_of(dd, n - 1, after[i]));
                }
            },
            None => {
                assert(after == before);
            },
        }
        if 0 <= i < before.len() {
            assert(after[i] == before[i]);
        }
        if m < n {
            let p = dd.metadata_requests(instances, m);
            assert(before.take(p.len() as int) == p);
            assert(p =~= after.take(p.len() as int));
        } else {
            assert(after =~= after.take(after.len() as int));
        }
    } else {
        assert(after =~= after.take(0));
    }
}

proof fn lemma_asked_for(
    instances: Seq<McInstance<Seq<char>>>,
    path: Seq<char>,
    data: McMetadata<Seq<char>>,
    n: nat,
    x: int,
)
    requires
        0 <= x < instance_requests(instances, path, data, n).len(),
    ensures
        instance_requests(instances, path, data, n)[x] matches MetadataRequest::Instance {
            name,
            data: d,
        } && d == data && is_meant(name, path),
    decreases n,
{
    if n > 0 {
        let before = instance_requests(instances, path, data, (n - 1) as nat);
        if x < before.len() {
            lemma_asked_for(instances, path, data, (n - 1) as nat, x);
        }
    }
}

proof fn lemma_first_dot(path: Seq<char>)
    ensures
        path.contains('.') <==> first_of(path, '.') is Some,
        first_of(path, '.') matches Some(p) ==> 0 <= p < path.len() && path == path.take(p).push('.')
            + path.skip(p + 1) && !path.take(p).contains('.'),
    decreases path.len(),
{
    if path.len() > 0 {
        let rest = path.skip(1);
        lemma_first_dot(rest);
        if path[0] == '.' {
            assert(path =~= path.take(0).push('.') + path.skip(1));
        } else {
            if path.contains('.') {
                let i = choose|i: int| 0 <= i < path.len() && path[i] == '.';
                assert(rest[i - 1] == '.');
            }
            if let Some(q) = first_of(rest, '.') {
                let p = q + 1;
                assert(path[p] == rest[q]);
                assert(rest == rest.take(q).push('.') + rest.skip(q + 1));
                assert(rest[q] == (rest.take(q).push('.') + rest.skip(q + 1))[q]);
                assert(path =~= path.take(p).push('.') + path.skip(p + 1));
                assert(!path.take(p).contains('.')) by {
                    if path.take(p).contains('.') {
                        let i = choose|i: int| 0 <= i < p && path.take(p)[i] == '.';
                        assert(rest.take(q)[i - 1] == '.');
                    }
                }
            }
        }
    }
}

/// Metadata whose path has a dot asks for the field that the path leads to.
pub proof fn law_metadata_reaches_its_field(
    dd: DebugData,
    instances: Seq<McInstance<Seq<char>>>,
    n: nat,
    k: int,
    instance: Seq<char>,
    field: Seq<char>,
)
    requires
        0 <= k < n <= dd.vars().len(),
        dd.metadata_of(dd.vars()[k].0, dd.vars()[k].1) is Some,
        (dd.metadata_of(dd.vars()[k].0, dd.vars()[k].1)->0).0 == instance.push('.') + field,
        !instance.contains('.'),
    ensures
        dd.metadata_requests(instances, n).contains(
            (MetadataRequest::Field {
                instance,
                path: field,
                data: (dd.metadata_of(dd.vars()[k].0, dd.vars()[k].1)->0).1,
            }),
        ),
    decreases n,
{
    let (path, data) = dd.metadata_of(dd.vars()[k].0, dd.vars()[k].1)->0;
    let r = MetadataRequest::Field { instance, path: field, data };
    let before = dd.metadata_requests(instances, (n - 1) as nat);
    let after = dd.metadata_requests(instances, n);
    if k == n - 1 {
        law_paths_with_a_dot_lead_to_fields(instance, field, data);
        assert(after[before.len() as int] == r);
    } else {
        law_metadata_reaches_its_field(dd, instances, (n - 1) as nat, k, instance, field);
        let m = choose|m: int| 0 <= m < before.len() && before[m] == r;
        assert(after[m] == r);
    }
}

/// Metadata can be read from a program without a metadata section, and from one whose section ends
/// within the address space and holds numbers with the lowest byte first.
pub proof fn law_metadata_can_be_read(dd: DebugData)
    ensures
        dd.xcp_meta_data is None ==> dd.metadata_ok(),
        dd.xcp_meta_data matches Some((base, data)) ==> (dd.metadata_ok() <==> dd.is_little_endian
            && base + data@.len() < 0x1_0000_0000_0000_0000),
{
}

} // verus!
