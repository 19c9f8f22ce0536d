//! The variables of a program by name, in an `IndexMap`: names keep the order in which they were
//! first seen, and each name has the list of its instances.
use indexmap::IndexMap;
use vstd::prelude::*;

use crate::debuginfo::{VarInfo, VarView};
use crate::name_map::{find_name, lemma_find_mapped, lemma_find_name, lookup, mapped};

verus! {

/// The insertion-ordered hash map of the `indexmap` crate.
#[verifier::external_type_specification]
#[verifier::external_body]
#[verifier::reject_recursive_types(K)]
#[verifier::reject_recursive_types(V)]
#[verifier::reject_recursive_types(S)]
pub struct ExIndexMap<K, V, S>(indexmap::IndexMap<K, V, S>);

/// What a map of variables holds: each name with its instances, in the order of the map.
pub uninterp spec fn variable_entries(m: IndexMap<String, Vec<VarInfo>>) -> Seq<
    (Seq<char>, Seq<VarInfo>),
>;

/// The entries after one more instance came under a name: behind the instances of that name, or,
/// for a new name, as a new last entry.
pub open spec fn with_instance<T>(
    entries: Seq<(Seq<char>, Seq<T>)>,
    name: Seq<char>,
    info: T,
) -> Seq<(Seq<char>, Seq<T>)> {
    match find_name(entries, name) {
        Some(i) => entries.update(i, (name, entries[i].1.push(info))),
        None => entries.push((name, seq![info])),
    }
}

/// What is known of the instances of variables.
pub open spec fn instance_views(entries: Seq<(Seq<char>, Seq<VarInfo>)>) -> Seq<
    (Seq<char>, Seq<VarView>),
> {
    mapped(entries, |infos: Seq<VarInfo>| infos.map_values(|i: VarInfo| i@))
}

/// Adding an instance adds what is known of it.
pub proof fn lemma_with_instance_views(
    entries: Seq<(Seq<char>, Seq<VarInfo>)>,
    name: Seq<char>,
    info: VarInfo,
)
    ensures
        instance_views(with_instance(entries, name, info)) == with_instance(
            instance_views(entries),
            name,
            info@,
        ),
{
    let f = |infos: Seq<VarInfo>| infos.map_values(|i: VarInfo| i@);
    lemma_find_mapped(entries, f, name);
    lemma_find_name(entries, name);
    let a = instance_views(with_instance(entries, name, info));
    let b = with_instance(instance_views(entries), name, info@);
    match find_name(entries, name) {
        Some(i) => {
            assert(f(entries[i].1.push(info)) =~= f(entries[i].1).push(info@));
        },
        None => {
            assert(f(seq![info]) =~= seq![info@]);
        },
    }
    assert(a =~= b);
}

/// `IndexMap::new` makes a map without entries.
#[verifier::external_body]
pub(crate) fn new_variable_map() -> (m: IndexMap<String, Vec<VarInfo>>)
    ensures
        variable_entries(m) == Seq::<(Seq<char>, Seq<VarInfo>)>::empty(),
{
    IndexMap::new()
}

/// `IndexMap::len` is the number of entries.
#[verifier::external_body]
pub(crate) fn variable_count(m: &IndexMap<String, Vec<VarInfo>>) -> (n: usize)
    ensures
        n == variable_entries(*m).len(),
{
    m.len()
}

/// `IndexMap::get_index` gives the name and the value at a position, and nothing behind the end.
#[verifier::external_body]
pub(crate) fn variable_at(m: &IndexMap<String, Vec<VarInfo>>, i: usize) -> (r: Option<
    (&String, &Vec<VarInfo>),
>)
    ensures
        r is Some <==> i < variable_entries(*m).len(),
        r matches Some((name, infos)) ==> (name@, infos@) == variable_entries(*m)[i as int],
{
    m.get_index(i)
}

/// `IndexMap::get` gives the value under a name.
#[verifier::external_body]
pub(crate) fn variables_named<'a>(m: &'a IndexMap<String, Vec<VarInfo>>, name: &str) -> (r: Option<
    &'a Vec<VarInfo>,
>)
    ensures
        r is Some <==> lookup(variable_entries(*m), name@) is Some,
        r matches Some(infos) ==> lookup(variable_entries(*m), name@) == Some(infos@),
{
    m.get(name)
}

/// `IndexMap::entry` with `Entry::or_default` reaches the value under a name and makes an empty one
/// as a new last entry where there is none; the instance is pushed onto it.
#[verifier::external_body]
pub(crate) fn push_instance(m: &mut IndexMap<String, Vec<VarInfo>>, name: String, info: VarInfo)
    ensures
        variable_entries(*final(m)) == with_instance(variable_entries(*old(m)), name@, info),
{
    m.entry(name).or_default().push(info);
}

} // verus!
