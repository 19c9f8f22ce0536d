//! How the scopes around an entry of the debug information follow from the depths of the entries:
//! which function and namespaces a variable is defined in, and which scopes qualify a type.
use vstd::prelude::*;

use crate::debuginfo::opt_text;
use crate::dwarf::{
    enclosing, function_in, namespaces_in, naming_scopes, open_scopes, scope_path, shared_refs,
    unit_type_names, DieAttributes,
};

verus! {

/// An entry stands below the root, and at most one step below the entry before it.
pub open spec fn steps_down(entries: Seq<(isize, u16, Option<usize>)>, j: int) -> bool {
    1 <= entries[j].0 <= entries[j - 1].0 + 1
}

/// The depths of the first `n` entries of a unit go down by single steps from its root.
pub open spec fn depth_first(entries: Seq<(isize, u16, Option<usize>)>, n: int) -> bool {
    &&& 0 < n <= entries.len()
    &&& entries[0].0 == 0
    &&& forall|j: int| 1 <= j < n ==> #[trigger] steps_down(entries, j)
}

/// The entry `k` is `m` or lies below it: no entry from `m` up to `k` is as high as `m`.
pub open spec fn lies_below(entries: Seq<(isize, u16, Option<usize>)>, m: int, k: int) -> bool {
    &&& 1 <= m <= k < entries.len()
    &&& forall|j: int| m < j <= k ==> (#[trigger] entries[j]).0 > entries[m].0
}

/// The entry `p` is the one that `k` stands directly below.
pub open spec fn is_parent(entries: Seq<(isize, u16, Option<usize>)>, p: int, k: int) -> bool {
    p < k && lies_below(entries, p, k) && entries[k].0 == entries[p].0 + 1
}

/// The name in the attributes of an entry.
pub open spec fn entry_text(
    attributes: Map<usize, DieAttributes>,
    entries: Seq<(isize, u16, Option<usize>)>,
    k: int,
) -> Option<Seq<char>> {
    match entries[k].2 {
        Some(o) => if attributes.contains_key(o) {
            opt_text(attributes[o].name)
        } else {
            None
        },
        None => None,
    }
}

/// Below an entry the scopes that are open at it stay open.
proof fn lemma_open_below(
    attributes: Map<usize, DieAttributes>,
    entries: Seq<(isize, u16, Option<usize>)>,
    m: int,
    k: int,
)
    requires
        depth_first(entries, k + 1),
        lies_below(entries, m, k),
    ensures
        open_scopes(attributes, entries, (k + 1) as nat).len() == entries[k].0,
        open_scopes(attributes, entries, (m + 1) as nat).len() == entries[m].0,
        open_scopes(attributes, entries, (k + 1) as nat).take(entries[m].0 as int) == open_scopes(
            attributes,
            entries,
            (m + 1) as nat,
        ),
    decreases k,
{
    lemma_open_len(attributes, entries, m);
    lemma_open_len(attributes, entries, k);
    if m < k {
        assert forall|j: int| m < j <= k - 1 implies (#[trigger] entries[j]).0 > entries[m].0 by {}
        lemma_open_below(attributes, entries, m, k - 1);
        lemma_open_len(attributes, entries, k - 1);
        assert(entries[k].0 > entries[m].0);
        assert(steps_down(entries, k));
        let before = open_scopes(attributes, entries, k as nat);
        let after = open_scopes(attributes, entries, (k + 1) as nat);
        assert(after.take(entries[m].0 as int) =~= before.take(entries[m].0 as int));
    } else {
        let all = open_scopes(attributes, entries, (k + 1) as nat);
        assert(all.take(entries[m].0 as int) =~= all);
    }
}

proof fn lemma_open_len(
    attributes: Map<usize, DieAttributes>,
    entries: Seq<(isize, u16, Option<usize>)>,
    k: int,
)
    requires
        depth_first(entries, k + 1),
        k >= 1,
    ensures
        open_scopes(attributes, entries, (k + 1) as nat).len() == entries[k].0,
    decreases k,
{
    assert(steps_down(entries, k));
    if k > 1 {
        lemma_open_len(attributes, entries, k - 1);
    } else {
        assert(open_scopes(attributes, entries, 1).len() == 0);
    }
}

/// The entry at a depth that an entry is or lies below.
proof fn lemma_ancestor(entries: Seq<(isize, u16, Option<usize>)>, k: int, d: int) -> (m: int)
    requires
        depth_first(entries, k + 1),
        1 <= k,
        1 <= d <= entries[k].0,
    ensures
        lies_below(entries, m, k),
        entries[m].0 == d,
    decreases k,
{
    assert(steps_down(entries, k));
    if entries[k].0 == d {
        k
    } else {
        assert(k > 1);
        let m = lemma_ancestor(entries, k - 1, d);
        m
    }
}

/// An entry adds its own scope to those around it: an entry directly below another one is defined in
/// the function and the namespaces of that one, unless it is a function or a namespace itself. A
/// namespace stands in front of those around it.
pub proof fn law_scopes_nest(
    attributes: Map<usize, DieAttributes>,
    entries: Seq<(isize, u16, Option<usize>)>,
    p: int,
    k: int,
)
    requires
        depth_first(entries, k + 1),
        is_parent(entries, p, k),
    ensures
        ({
            let outer = open_scopes(attributes, entries, (p + 1) as nat);
            let inner = open_scopes(attributes, entries, (k + 1) as nat);
            let name = entry_text(attributes, entries, k);
            &&& function_in(inner) == if entries[k].1 == 0x2e {
                name
            } else {
                function_in(outer)
            }
            &&& namespaces_in(inner) == if entries[k].1 == 0x39 && name is Some {
                seq![name->0] + namespaces_in(outer)
            } else {
                namespaces_in(outer)
            }
        }),
{
    let outer = open_scopes(attributes, entries, (p + 1) as nat);
    let inner = open_scopes(attributes, entries, (k + 1) as nat);
    lemma_open_below(attributes, entries, p, k);
    assert(inner.drop_last() =~= outer);
}

/// An entry directly below the root of a unit is defined in no function and no namespace but the one
/// that it is itself.
pub proof fn law_outermost_entries_have_no_scope(
    attributes: Map<usize, DieAttributes>,
    entries: Seq<(isize, u16, Option<usize>)>,
    k: int,
)
    requires
        depth_first(entries, k + 1),
        k >= 1,
        entries[k].0 == 1,
    ensures
        ({
            let inner = open_scopes(attributes, entries, (k + 1) as nat);
            let name = entry_text(attributes, entries, k);
            &&& function_in(inner) == if entries[k].1 == 0x2e {
                name
            } else {
                None
            }
            &&& namespaces_in(inner) == if entries[k].1 == 0x39 && name is Some {
                seq![name->0]
            } else {
                Seq::empty()
            }
        }),
{
    let inner = open_scopes(attributes, entries, (k + 1) as nat);
    lemma_open_len(attributes, entries, k);
    assert(inner.drop_last() =~= Seq::empty());
    reveal_with_fuel(function_in, 2);
    reveal_with_fuel(namespaces_in, 2);
    assert(seq![entry_text(attributes, entries, k)->0] + Seq::<Seq<char>>::empty() =~= seq![
        entry_text(attributes, entries, k)->0,
    ]);
}

/// A variable is defined in the innermost function that it lies below, whatever blocks and classes
/// stand between them.
pub proof fn law_variables_know_their_function(
    attributes: Map<usize, DieAttributes>,
    entries: Seq<(isize, u16, Option<usize>)>,
    m: int,
    k: int,
)
    requires
        depth_first(entries, k + 1),
        lies_below(entries, m, k),
        entries[m].1 == 0x2e,
        forall|j: int| m < j <= k && #[trigger] lies_below(entries, j, k) ==> entries[j].1 != 0x2e,
    ensures
        function_in(open_scopes(attributes, entries, (k + 1) as nat)) == entry_text(
            attributes,
            entries,
            m,
        ),
    decreases k,
{
    if m < k {
        assert(entries[k].0 > entries[m].0);
        assert(steps_down(entries, m));
        let p = lemma_ancestor(entries, k, entries[k].0 - 1);
        if p < m {
            assert(entries[m].0 > entries[p].0);
        }
        assert(lies_below(entries, k, k));
        law_scopes_nest(attributes, entries, p, k);
        assert forall|j: int| m < j <= p && #[trigger] lies_below(
            entries,
            j,
            p,
        ) implies entries[j].1 != 0x2e by {
            if j < p {
                assert(entries[p].0 > entries[j].0);
                assert forall|i: int| j < i <= k implies (#[trigger] entries[i]).0 > entries[j].0 by {
                    if i > p {
                        assert(entries[i].0 > entries[p].0);
                    }
                }
            }
            assert(lies_below(entries, j, k));
        }
        law_variables_know_their_function(attributes, entries, m, p);
    } else if entries[m].0 == 1 {
        law_outermost_entries_have_no_scope(attributes, entries, k);
    } else {
        assert(steps_down(entries, m));
        let p = lemma_ancestor(entries, k, entries[k].0 - 1);
        law_scopes_nest(attributes, entries, p, k);
    }
}

/// A variable that lies below no function is defined in none.
pub proof fn law_global_variables_have_no_function(
    attributes: Map<usize, DieAttributes>,
    entries: Seq<(isize, u16, Option<usize>)>,
    k: int,
)
    requires
        depth_first(entries, k + 1),
        k >= 1,
        forall|j: int| 1 <= j <= k && #[trigger] lies_below(entries, j, k) ==> entries[j].1 != 0x2e,
    ensures
        function_in(open_scopes(attributes, entries, (k + 1) as nat)) is None,
    decreases k,
{
    assert(lies_below(entries, k, k));
    assert(steps_down(entries, k));
    if entries[k].0 == 1 {
        law_outermost_entries_have_no_scope(attributes, entries, k);
    } else {
        let p = lemma_ancestor(entries, k, entries[k].0 - 1);
        law_scopes_nest(attributes, entries, p, k);
        assert forall|j: int| 1 <= j <= p && #[trigger] lies_below(
            entries,
            j,
            p,
        ) implies entries[j].1 != 0x2e by {
            if j < p {
                assert(entries[p].0 > entries[j].0);
                assert forall|i: int| j < i <= k implies (#[trigger] entries[i]).0 > entries[j].0 by {
                    if i > p {
                        assert(entries[i].0 > entries[p].0);
                    }
                }
            }
            assert(lies_below(entries, j, k));
        }
        law_global_variables_have_no_function(attributes, entries, p);
    }
}

/// The namespaces of some scopes are the names of all scopes that are namespaces, from the innermost
/// to the outermost.
pub proof fn law_namespaces_come_from_inside_out(context: Seq<(u16, Option<Seq<char>>)>)
    ensures
        namespaces_in(context) == context.filter(
            |s: (u16, Option<Seq<char>>)| s.0 == 0x39 && s.1 is Some,
        ).map_values(|s: (u16, Option<Seq<char>>)| s.1->0).reverse(),
    decreases context.len(),
{
    reveal(Seq::filter);
    let keep = |s: (u16, Option<Seq<char>>)| s.0 == 0x39 && s.1 is Some;
    let name = |s: (u16, Option<Seq<char>>)| s.1->0;
    if context.len() > 0 {
        law_namespaces_come_from_inside_out(context.drop_last());
        let outer = context.drop_last().filter(keep).map_values(name);
        assert(context.filter(keep).map_values(name) =~= if keep(context.last()) {
            outer.push(name(context.last()))
        } else {
            outer
        });
        assert(outer.push(name(context.last())).reverse() =~= seq![name(context.last())]
            + outer.reverse());
    } else {
        assert(context.filter(keep).map_values(name).reverse() =~= Seq::empty());
    }
}

/// A scope qualifies the types in it if it is a namespace, a function, a struct, a class or a union.
pub open spec fn is_qualifying(tag: u16) -> bool {
    tag == 0x39 || tag == 0x2e || tag == 0x13 || tag == 0x02 || tag == 0x17
}

/// The path of scopes is made of the paths of its parts; a single scope gives its name with a dot
/// behind it, or nothing if it has no name or does not qualify types.
pub proof fn law_scope_paths_join(
    a: Seq<(u16, Option<Seq<char>>)>,
    b: Seq<(u16, Option<Seq<char>>)>,
    tag: u16,
    name: Option<Seq<char>>,
)
    ensures
        scope_path(a + b, (a + b).len()) == scope_path(a, a.len()) + scope_path(b, b.len()),
        scope_path(seq![(tag, name)], 1) == if is_qualifying(tag) && name is Some && (name->0).len()
            > 0 {
            (name->0).push('.')
        } else {
            Seq::empty()
        },
{
    lemma_scope_path_split(a, b, b.len());
    reveal_with_fuel(scope_path, 2);
    reveal_strlit(".");
    if let Some(s) = name {
        assert(Seq::<char>::empty() + s + "."@ =~= s.push('.'));
    }
}

proof fn lemma_scope_path_prefix(
    a: Seq<(u16, Option<Seq<char>>)>,
    b: Seq<(u16, Option<Seq<char>>)>,
    n: nat,
)
    requires
        n <= a.len(),
        n <= b.len(),
        forall|i: int| 0 <= i < n ==> #[trigger] a[i] == b[i],
    ensures
        scope_path(a, n) == scope_path(b, n),
    decreases n,
{
    if n > 0 {
        lemma_scope_path_prefix(a, b, (n - 1) as nat);
        assert(a[n - 1] == b[n - 1]);
    }
}

proof fn lemma_scope_path_split(
    a: Seq<(u16, Option<Seq<char>>)>,
    b: Seq<(u16, Option<Seq<char>>)>,
    n: nat,
)
    requires
        n <= b.len(),
    ensures
        scope_path(a + b, a.len() + n) == scope_path(a, a.len()) + scope_path(b, n),
    decreases n,
{
    let c = a + b;
    if n == 0 {
        lemma_scope_path_prefix(a, c, a.len());
        assert(scope_path(a, a.len()) + scope_path(b, 0) =~= scope_path(a, a.len()));
    } else {
        lemma_scope_path_split(a, b, (n - 1) as nat);
        assert(c[a.len() + n - 1] == b[n - 1]);
        let p = scope_path(a, a.len());
        let q = scope_path(b, (n - 1) as nat);
        if let (tag, Some(name)) = b[n - 1] {
            assert((p + q) + name + "."@ =~= p + (q + name + "."@));
        }
    }
}

/// The scopes around an entry, with the names of those that qualify types.
pub open spec fn scopes_around(
    attributes: Map<usize, DieAttributes>,
    entries: Seq<(isize, u16, Option<usize>)>,
    k: int,
) -> Seq<(u16, Option<Seq<char>>)> {
    enclosing(naming_scopes(attributes, entries, k as nat), entries[k].0)
}

proof fn lemma_naming_len(
    attributes: Map<usize, DieAttributes>,
    entries: Seq<(isize, u16, Option<usize>)>,
    k: int,
)
    requires
        depth_first(entries, k + 1),
        k >= 1,
    ensures
        naming_scopes(attributes, entries, (k + 1) as nat).len() == entries[k].0,
        scopes_around(attributes, entries, k).len() == entries[k].0 - 1,
    decreases k,
{
    assert(steps_down(entries, k));
    if k > 1 {
        lemma_naming_len(attributes, entries, k - 1);
    } else {
        reveal_with_fuel(naming_scopes, 2);
        assert(naming_scopes(attributes, entries, 1).len() == 1);
    }
}

proof fn lemma_naming_below(
    attributes: Map<usize, DieAttributes>,
    entries: Seq<(isize, u16, Option<usize>)>,
    m: int,
    k: int,
)
    requires
        depth_first(entries, k + 1),
        lies_below(entries, m, k),
    ensures
        naming_scopes(attributes, entries, (k + 1) as nat).take(entries[m].0 as int)
            == naming_scopes(attributes, entries, (m + 1) as nat),
    decreases k,
{
    lemma_naming_len(attributes, entries, m);
    lemma_naming_len(attributes, entries, k);
    if m < k {
        assert forall|j: int| m < j <= k - 1 implies (#[trigger] entries[j]).0 > entries[m].0 by {}
        lemma_naming_below(attributes, entries, m, k - 1);
        lemma_naming_len(attributes, entries, k - 1);
        assert(entries[k].0 > entries[m].0);
        assert(steps_down(entries, k));
        let before = naming_scopes(attributes, entries, k as nat);
        let after = naming_scopes(attributes, entries, (k + 1) as nat);
        assert(after.take(entries[m].0 as int) =~= before.take(entries[m].0 as int));
    } else {
        let all = naming_scopes(attributes, entries, (k + 1) as nat);
        assert(all.take(entries[m].0 as int) =~= all);
    }
}

/// No entry behind `k` up to `n` has the offset of `k`.
pub open spec fn is_last_at_offset(
    entries: Seq<(isize, u16, Option<usize>)>,
    k: int,
    n: int,
) -> bool {
    forall|j: int| k < j < n ==> (#[trigger] entries[j]).2 != entries[k].2
}

/// The last entry at an offset names the type there.
pub proof fn lemma_type_name(
    attributes: Map<usize, DieAttributes>,
    wanted: Set<usize>,
    entries: Seq<(isize, u16, Option<usize>)>,
    names: Map<usize, Seq<char>>,
    k: int,
    n: nat,
)
    requires
        0 <= k < n <= entries.len(),
        is_last_at_offset(entries, k, n as int),
        entries[k].2 is Some,
        wanted.contains(entries[k].2->0),
        entry_text(attributes, entries, k) is Some,
    ensures
        unit_type_names(attributes, wanted, entries, names, n).contains_key(entries[k].2->0),
        unit_type_names(attributes, wanted, entries, names, n)[entries[k].2->0] == scope_path(
            scopes_around(attributes, entries, k),
            scopes_around(attributes, entries, k).len(),
        ) + entry_text(attributes, entries, k)->0,
    decreases n,
{
    if n - 1 > k {
        assert(entries[n - 1].2 != entries[k].2);
        lemma_type_name(attributes, wanted, entries, names, k, (n - 1) as nat);
    }
}

/// A type directly below the root of a unit is named by its own name alone. A type directly below
/// a namespace, a function, a struct, a class or a union with a name is named by the name of that
/// one, a dot and its own name.
pub proof fn law_qualified_names_extend_those_of_the_scope(
    attributes: Map<usize, DieAttributes>,
    wanted: Set<usize>,
    entries: Seq<(isize, u16, Option<usize>)>,
    names: Map<usize, Seq<char>>,
    p: int,
    k: int,
)
    requires
        depth_first(entries, entries.len() as int),
        1 <= k < entries.len(),
        is_last_at_offset(entries, k, entries.len() as int),
        entries[k].2 is Some,
        wanted.contains(entries[k].2->0),
        entry_text(attributes, entries, k) is Some,
    ensures
        ({
            let all = unit_type_names(attributes, wanted, entries, names, entries.len());
            let r = entries[k].2->0;
            let name = entry_text(attributes, entries, k)->0;
            &&& all.contains_key(r)
            &&& entries[k].0 == 1 ==> all[r] == name
            &&& is_parent(entries, p, k) && is_last_at_offset(entries, p, entries.len() as int)
                && entries[p].2 is Some && wanted.contains(entries[p].2->0) && is_qualifying(
                entries[p].1,
            ) && entry_text(attributes, entries, p) is Some && (entry_text(
                attributes,
                entries,
                p,
            )->0).len() > 0 ==> all[r] == all[entries[p].2->0] + ".".view() + name
        }),
{
    let all = unit_type_names(attributes, wanted, entries, names, entries.len());
    let name = entry_text(attributes, entries, k)->0;
    lemma_type_name(attributes, wanted, entries, names, k, entries.len());
    lemma_naming_len(attributes, entries, k);
    let around = scopes_around(attributes, entries, k);
    if entries[k].0 == 1 {
        assert(around =~= Seq::empty());
        assert(Seq::<char>::empty() + name =~= name);
    }
    if is_parent(entries, p, k) && is_last_at_offset(entries, p, entries.len() as int)
        && entries[p].2 is Some && wanted.contains(entries[p].2->0) && is_qualifying(entries[p].1)
        && entry_text(attributes, entries, p) is Some && (entry_text(
        attributes,
        entries,
        p,
    )->0).len() > 0 {
        let upper = entry_text(attributes, entries, p)->0;
        let outer = scopes_around(attributes, entries, p);
        lemma_type_name(attributes, wanted, entries, names, p, entries.len());
        lemma_naming_len(attributes, entries, p);
        lemma_around(attributes, entries, p, k);
        lemma_scope_path_prefix(around, outer, outer.len());
        let path = scope_path(outer, outer.len());
        assert(scope_path(around, around.len()) == path + upper + "."@);
        assert((path + upper) + "."@ + name =~= path + upper + "."@ + name);
    }
}

proof fn lemma_around(
    attributes: Map<usize, DieAttributes>,
    entries: Seq<(isize, u16, Option<usize>)>,
    p: int,
    k: int,
)
    requires
        depth_first(entries, entries.len() as int),
        is_parent(entries, p, k),
    ensures
        scopes_around(attributes, entries, k) == scopes_around(attributes, entries, p).push(
            (
                entries[p].1,
                if is_qualifying(entries[p].1) {
                    entry_text(attributes, entries, p)
                } else {
                    None
                },
            ),
        ),
{
    assert(depth_first(entries, k + 1));
    lemma_naming_len(attributes, entries, k);
    assert(lies_below(entries, p, k - 1)) by {
        assert forall|j: int| p < j <= k - 1 implies (#[trigger] entries[j]).0 > entries[p].0 by {}
    }
    assert(depth_first(entries, k));
    lemma_naming_below(attributes, entries, p, k - 1);
    lemma_naming_len(attributes, entries, k - 1);
    assert(steps_down(entries, k));
    let before = naming_scopes(attributes, entries, k as nat);
    assert(scopes_around(attributes, entries, k) =~= before.take(entries[p].0 as int));
}

/// A scope that does not qualify types adds nothing: the types directly below it are named as if they
/// stood in its place.
pub proof fn law_other_scopes_do_not_qualify(
    attributes: Map<usize, DieAttributes>,
    wanted: Set<usize>,
    entries: Seq<(isize, u16, Option<usize>)>,
    names: Map<usize, Seq<char>>,
    p: int,
    k: int,
)
    requires
        depth_first(entries, entries.len() as int),
        is_parent(entries, p, k),
        is_last_at_offset(entries, k, entries.len() as int),
        is_last_at_offset(entries, p, entries.len() as int),
        entries[k].2 is Some,
        entries[p].2 is Some,
        wanted.contains(entries[k].2->0),
        wanted.contains(entries[p].2->0),
        entry_text(attributes, entries, k) is Some,
        entry_text(attributes, entries, k) == entry_text(attributes, entries, p),
        !is_qualifying(entries[p].1),
    ensures
        ({
            let all = unit_type_names(attributes, wanted, entries, names, entries.len());
            all[entries[k].2->0] == all[entries[p].2->0]
        }),
{
    lemma_type_name(attributes, wanted, entries, names, k, entries.len());
    lemma_type_name(attributes, wanted, entries, names, p, entries.len());
    lemma_around(attributes, entries, p, k);
    let around = scopes_around(attributes, entries, k);
    let outer = scopes_around(attributes, entries, p);
    lemma_scope_path_prefix(around, outer, outer.len());
}

/// Only wanted types get a qualified name; what was known before stays known.
pub proof fn law_only_wanted_types_are_named(
    attributes: Map<usize, DieAttributes>,
    wanted: Set<usize>,
    entries: Seq<(isize, u16, Option<usize>)>,
    names: Map<usize, Seq<char>>,
    r: usize,
    n: nat,
)
    requires
        n <= entries.len(),
    ensures
        ({
            let all = unit_type_names(attributes, wanted, entries, names, n);
            &&& names.contains_key(r) ==> all.contains_key(r)
            &&& !wanted.contains(r) || (forall|k: int|
                0 <= k < n ==> (#[trigger] entries[k]).2 != Some(r)) ==> (all.contains_key(r)
                <==> names.contains_key(r)) && all[r] == names[r]
        }),
    decreases n,
{
    if n > 0 {
        law_only_wanted_types_are_named(attributes, wanted, entries, names, r, (n - 1) as nat);
    }
}

/// The types that are looked at are those that share their name with another one.
pub proof fn law_shared_names_are_looked_at(
    names: Seq<(Seq<char>, Vec<usize>)>,
    n: nat,
    r: usize,
)
    requires
        n <= names.len(),
    ensures
        shared_refs(names, n).contains(r) <==> exists|k: int|
            0 <= k < n && (#[trigger] names[k]).1@.contains(r) && names[k].1@.len() >= 2,
    decreases n,
{
    if n > 0 {
        law_shared_names_are_looked_at(names, (n - 1) as nat, r);
        let refs = names[n - 1].1@;
        assert(refs.to_set().contains(r) <==> refs.contains(r));
        if exists|k: int|
            0 <= k < n && (#[trigger] names[k]).1@.contains(r) && names[k].1@.len() >= 2 {
            let k = choose|k: int|
                0 <= k < n && (#[trigger] names[k]).1@.contains(r) && names[k].1@.len() >= 2;
            if k < n - 1 {
                assert(exists|i: int|
                    0 <= i < n - 1 && (#[trigger] names[i]).1@.contains(r) && names[i].1@.len()
                        >= 2);
            }
        }
    }
}

} // verus!
