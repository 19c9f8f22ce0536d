//! What reading the debug information comes to: which variables are found, with which name, type,
//! address and scope, and what is known of sections, symbols and units.
use vstd::prelude::*;
use vstd::utf8::*;

use crate::bytes::{before_zero, law_text_ends_at_the_first_zero, utf8_lossy};
use crate::debuginfo::VarView;
use crate::dwarf::{
    epk_text, function_in, has_debug_info, is_ambiguous, namespaces_in, open_scopes, reads_file,
    section_ranges, sections_fit, shares_qualified, suffix_addresses, symbol_table, unique_suffix_address,
    unit_holds, unit_type_names, unit_variables, unit_views, units_kept, variable_of,
    DebugDataReader, DieAttributes, DwarfUnit,
};
use crate::dwarf_file::{
    debug_info_units, dwarf_loads, dwarf_section_names, section_bytes, unit_entries,
};
use crate::name_map::{find_name, law_put_value_is_found, lemma_find_name, lookup};
use crate::object_file::{object_little_endian, object_section, object_sections, object_symbols};
use crate::scope_laws::{
    depth_first, entry_text, is_last_at_offset, law_only_wanted_types_are_named,
    law_variables_know_their_function, lemma_type_name, lies_below,
};
use crate::variable_map::with_instance;

verus! {

/// The variables hold an instance under a name.
pub open spec fn holds_instance(
    vars: Seq<(Seq<char>, Seq<VarView>)>,
    name: Seq<char>,
    v: VarView,
) -> bool {
    exists|i: int|
        0 <= i < vars.len() && (#[trigger] vars[i]).0 == name && vars[i].1.contains(v)
}

/// The number of instances of the first `n` variables.
pub open spec fn instance_total(vars: Seq<(Seq<char>, Seq<VarView>)>, n: nat) -> nat
    decreases n,
{
    if n == 0 {
        0
    } else {
        instance_total(vars, (n - 1) as nat) + vars[n - 1].1.len()
    }
}

/// Instances of variables in front do not depend on what follows.
proof fn lemma_total_prefix(
    a: Seq<(Seq<char>, Seq<VarView>)>,
    b: Seq<(Seq<char>, Seq<VarView>)>,
    n: nat,
)
    requires
        n <= a.len(),
        n <= b.len(),
        forall|i: int| 0 <= i < n ==> (#[trigger] a[i]).1.len() == b[i].1.len(),
    ensures
        instance_total(a, n) == instance_total(b, n),
    decreases n,
{
    if n > 0 {
        lemma_total_prefix(a, b, (n - 1) as nat);
        assert(a[n - 1].1.len() == b[n - 1].1.len());
    }
}

/// One list more in place `k` counts one instance more from there on.
proof fn lemma_total_update(
    a: Seq<(Seq<char>, Seq<VarView>)>,
    b: Seq<(Seq<char>, Seq<VarView>)>,
    k: int,
    n: nat,
)
    requires
        0 <= k < n <= a.len(),
        a.len() == b.len(),
        b[k].1.len() == a[k].1.len() + 1,
        forall|i: int| 0 <= i < n && i != k ==> (#[trigger] a[i]).1.len() == b[i].1.len(),
    ensures
        instance_total(b, n) == instance_total(a, n) + 1,
    decreases n,
{
    if k == n - 1 {
        lemma_total_prefix(a, b, (n - 1) as nat);
    } else {
        lemma_total_update(a, b, k, (n - 1) as nat);
        assert(a[n - 1].1.len() == b[n - 1].1.len());
    }
}

/// Adding an instance adds exactly this one and keeps all others.
pub proof fn law_one_instance_comes_in(
    vars: Seq<(Seq<char>, Seq<VarView>)>,
    name: Seq<char>,
    v: VarView,
)
    ensures
        holds_instance(with_instance(vars, name, v), name, v),
        forall|m: Seq<char>, w: VarView| #[trigger]
            holds_instance(with_instance(vars, name, v), m, w) <==> holds_instance(vars, m, w) || (m
                == name && w == v),
        instance_total(
            with_instance(vars, name, v),
            with_instance(vars, name, v).len(),
        ) == instance_total(vars, vars.len()) + 1,
{
    let after = with_instance(vars, name, v);
    lemma_find_name(vars, name);
    match find_name(vars, name) {
        Some(i) => {
            let list = vars[i].1.push(v);
            assert(after[i] == (name, list));
            assert(list[vars[i].1.len() as int] == v);
            assert forall|m: Seq<char>, w: VarView| #[trigger]
                holds_instance(after, m, w) <==> holds_instance(vars, m, w) || (m == name && w
                == v) by {
                if holds_instance(vars, m, w) {
                    let k = choose|k: int|
                        0 <= k < vars.len() && (#[trigger] vars[k]).0 == m && vars[k].1.contains(w);
                    if k == i {
                        let x = choose|x: int| 0 <= x < vars[k].1.len() && vars[k].1[x] == w;
                        assert(list[x] == w);
                    }
                    assert(after[k].0 == m && after[k].1.contains(w));
                }
                if holds_instance(after, m, w) {
                    let k = choose|k: int|
                        0 <= k < after.len() && (#[trigger] after[k]).0 == m && after[k].1.contains(
                            w,
                        );
                    if k == i {
                        let x = choose|x: int| 0 <= x < list.len() && list[x] == w;
                        if x < vars[i].1.len() {
                            assert(vars[i].1[x] == w);
                            assert(vars[i].1.contains(w));
                        }
                    } else {
                        assert(vars[k] == after[k]);
                    }
                }
                if m == name && w == v {
                    assert(after[i].0 == m && after[i].1.contains(w));
                }
            }
            lemma_total_update(vars, after, i, vars.len());
        },
        None => {
            let n = vars.len() as int;
            assert(after[n] == (name, seq![v]));
            assert(seq![v][0] == v);
            assert forall|m: Seq<char>, w: VarView| #[trigger]
                holds_instance(after, m, w) <==> holds_instance(vars, m, w) || (m == name && w
                == v) by {
                if holds_instance(vars, m, w) {
                    let k = choose|k: int|
                        0 <= k < vars.len() && (#[trigger] vars[k]).0 == m && vars[k].1.contains(w);
                    assert(after[k] == vars[k]);
                }
                if holds_instance(after, m, w) {
                    let k = choose|k: int|
                        0 <= k < after.len() && (#[trigger] after[k]).0 == m && after[k].1.contains(
                            w,
                        );
                    if k < n {
                        assert(vars[k] == after[k]);
                    }
                }
                if m == name && w == v {
                    assert(after[n].0 == m && after[n].1.contains(w));
                }
            }
            lemma_total_prefix(vars, after, vars.len());
        },
    }
}

/// An entry behind the first one of a unit is a variable with a name and a type.
pub open spec fn is_variable_entry(
    attributes: Map<usize, DieAttributes>,
    symbols: Seq<(Seq<char>, u64)>,
    entries: Seq<(isize, u16, Option<usize>)>,
    k: int,
) -> bool {
    &&& 1 <= k < entries.len()
    &&& entries[k].1 == 0x34
    &&& variable_of(attributes, symbols, entries[k].2) is Some
}

/// What is known of the variable of an entry.
pub open spec fn entry_view(
    attributes: Map<usize, DieAttributes>,
    symbols: Seq<(Seq<char>, u64)>,
    unit_idx: usize,
    entries: Seq<(isize, u16, Option<usize>)>,
    k: int,
) -> VarView {
    let (_, typeref, address) = variable_of(attributes, symbols, entries[k].2)->0;
    let context = open_scopes(attributes, entries, (k + 1) as nat);
    VarView {
        address,
        typeref,
        unit_idx,
        function: function_in(context),
        namespaces: namespaces_in(context),
    }
}

/// The name of the variable of an entry.
pub open spec fn entry_name(
    attributes: Map<usize, DieAttributes>,
    symbols: Seq<(Seq<char>, u64)>,
    entries: Seq<(isize, u16, Option<usize>)>,
    k: int,
) -> Seq<char> {
    (variable_of(attributes, symbols, entries[k].2)->0).0
}

/// The number of variables with a name and a type among the first `n` entries of a unit.
pub open spec fn variable_entry_count(
    attributes: Map<usize, DieAttributes>,
    symbols: Seq<(Seq<char>, u64)>,
    entries: Seq<(isize, u16, Option<usize>)>,
    n: nat,
) -> nat
    decreases n,
{
    if n == 0 {
        0
    } else {
        variable_entry_count(attributes, symbols, entries, (n - 1) as nat) + if is_variable_entry(
            attributes,
            symbols,
            entries,
            n - 1,
        ) {
            1nat
        } else {
            0nat
        }
    }
}

/// Reading a unit brings in an instance for every variable of it that has a name and a type,
/// whatever its location, and no other; all instances that were there stay.
pub proof fn law_a_unit_brings_in_its_variables(
    attributes: Map<usize, DieAttributes>,
    symbols: Seq<(Seq<char>, u64)>,
    unit_idx: usize,
    entries: Seq<(isize, u16, Option<usize>)>,
    vars: Seq<(Seq<char>, Seq<VarView>)>,
    n: nat,
)
    requires
        n <= entries.len(),
    ensures
        ({
            let after = unit_variables(attributes, symbols, unit_idx, entries, vars, n);
            &&& forall|k: int|
                0 <= k < n && #[trigger] is_variable_entry(attributes, symbols, entries, k)
                    ==> holds_instance(
                    after,
                    entry_name(attributes, symbols, entries, k),
                    entry_view(attributes, symbols, unit_idx, entries, k),
                )
            &&& forall|m: Seq<char>, w: VarView|
                holds_instance(vars, m, w) ==> #[trigger] holds_instance(after, m, w)
            &&& forall|m: Seq<char>, w: VarView| #[trigger]
                holds_instance(after, m, w) ==> holds_instance(vars, m, w) || exists|k: int|
                    0 <= k < n && #[trigger] is_variable_entry(attributes, symbols, entries, k) && m
                        == entry_name(attributes, symbols, entries, k) && w == entry_view(
                        attributes,
                        symbols,
                        unit_idx,
                        entries,
                        k,
                    )
            &&& instance_total(after, after.len()) == instance_total(vars, vars.len())
                + variable_entry_count(attributes, symbols, entries, n)
        }),
    decreases n,
{
    if n > 1 {
        law_a_unit_brings_in_its_variables(
            attributes,
            symbols,
            unit_idx,
            entries,
            vars,
            (n - 1) as nat,
        );
        let before = unit_variables(
            attributes,
            symbols,
            unit_idx,
            entries,
            vars,
            (n - 1) as nat,
        );
        let after = unit_variables(attributes, symbols, unit_idx, entries, vars, n);
        if is_variable_entry(attributes, symbols, entries, n - 1) {
            let name = entry_name(attributes, symbols, entries, n - 1);
            let v = entry_view(attributes, symbols, unit_idx, entries, n - 1);
            assert(after == with_instance(before, name, v));
            law_one_instance_comes_in(before, name, v);
        } else {
            assert(after == before);
        }
    } else {
        assert(!is_variable_entry(attributes, symbols, entries, 0));
        reveal_with_fuel(variable_entry_count, 2);
    }
}

/// The number of variables with a name and a type in the first `n` units.
pub open spec fn variable_total(r: DebugDataReader, n: nat) -> nat
    decreases n,
{
    if n == 0 {
        0
    } else {
        variable_total(r, (n - 1) as nat) + variable_entry_count(
            r.attributes@,
            r.symbol_addresses.order(),
            r.units.list@[n - 1].entries@,
            r.units.list@[n - 1].entries@.len(),
        )
    }
}

/// The variables that are loaded are those of the units that are read: for every entry behind the
/// first one of such a unit that is a variable with a name and a type, on the stack as well as in
/// memory, there is an instance under that name with the type, address, unit, function and
/// namespaces of the entry. There are as many instances as such entries.
pub proof fn law_all_variables_are_loaded(r: DebugDataReader, n: nat, u: int, k: int)
    requires
        n <= r.units.list@.len() <= usize::MAX,
    ensures
        0 <= u < n && is_variable_entry(
            r.attributes@,
            r.symbol_addresses.order(),
            r.units.list@[u].entries@,
            k,
        ) ==> holds_instance(
            r.variables_of_units(n),
            entry_name(r.attributes@, r.symbol_addresses.order(), r.units.list@[u].entries@, k),
            entry_view(
                r.attributes@,
                r.symbol_addresses.order(),
                u as usize,
                r.units.list@[u].entries@,
                k,
            ),
        ),
        instance_total(r.variables_of_units(n), r.variables_of_units(n).len()) == variable_total(
            r,
            n,
        ),
    decreases n,
{
    if n > 0 {
        let entries = r.units.list@[n - 1].entries@;
        let before = r.variables_of_units((n - 1) as nat);
        law_all_variables_are_loaded(r, (n - 1) as nat, u, k);
        law_a_unit_brings_in_its_variables(
            r.attributes@,
            r.symbol_addresses.order(),
            (n - 1) as usize,
            entries,
            before,
            entries.len(),
        );
    }
}

/// The units that are read for variables are those up to the limit on the unit index.
pub proof fn law_units_up_to_the_limit_are_read(r: DebugDataReader, unit_idx_limit: usize, u: int)
    requires
        0 <= u < r.units.list@.len(),
    ensures
        u < r.units_read(unit_idx_limit) <==> u <= unit_idx_limit,
        r.units_read(unit_idx_limit) <= r.units.list@.len(),
{
}

/// A variable that an entry describes on its own has the name and the type of the entry, and its
/// location, if that is anything but the address 0.
pub proof fn law_variables_are_what_their_entry_says(
    attributes: Map<usize, DieAttributes>,
    symbols: Seq<(Seq<char>, u64)>,
    offset: usize,
)
    requires
        attributes.contains_key(offset),
        attributes[offset].specification is None,
        attributes[offset].abstract_origin is None,
    ensures
        ({
            let a = attributes[offset];
            let v = variable_of(attributes, symbols, Some(offset));
            &&& v is Some <==> a.name is Some && a.typeref is Some
            &&& v matches Some((name, typeref, address)) ==> {
                &&& a.name matches Some(s) && s@ == name
                &&& a.typeref == Some(typeref)
                &&& a.location matches Some(l) ==> (l != (0u8, 0u64) ==> address == l)
            }
        }),
{
}

/// An entry without attributes is no variable.
pub proof fn law_unknown_entries_are_no_variables(
    attributes: Map<usize, DieAttributes>,
    symbols: Seq<(Seq<char>, u64)>,
    entry: Option<usize>,
)
    requires
        entry matches Some(o) ==> !attributes.contains_key(o),
    ensures
        variable_of(attributes, symbols, entry) is None,
{
}

/// A variable that another entry specifies has the name and the type of that entry, and the location
/// of its own.
pub proof fn law_specified_variables_are_what_is_specified(
    attributes: Map<usize, DieAttributes>,
    symbols: Seq<(Seq<char>, u64)>,
    offset: usize,
    other: usize,
)
    requires
        attributes.contains_key(offset),
        attributes.contains_key(other),
        attributes[offset].specification == Some(other),
    ensures
        ({
            let a = attributes[offset];
            let b = attributes[other];
            let v = variable_of(attributes, symbols, Some(offset));
            &&& v is Some <==> b.name is Some && b.typeref is Some
            &&& v matches Some((name, typeref, address)) ==> {
                &&& b.name matches Some(s) && s@ == name
                &&& b.typeref == Some(typeref)
                &&& a.location matches Some(l) ==> (l != (0u8, 0u64) ==> address == l)
            }
        }),
{
}

/// A variable with an abstract origin has its own name and type, and those of its origin where it has
/// none.
pub proof fn law_origins_complete_variables(
    attributes: Map<usize, DieAttributes>,
    symbols: Seq<(Seq<char>, u64)>,
    offset: usize,
    other: usize,
)
    requires
        attributes.contains_key(offset),
        attributes.contains_key(other),
        attributes[offset].specification is None,
        attributes[offset].abstract_origin == Some(other),
    ensures
        ({
            let a = attributes[offset];
            let b = attributes[other];
            let v = variable_of(attributes, symbols, Some(offset));
            &&& v is Some <==> (a.name is Some || b.name is Some) && (a.typeref is Some
                || b.typeref is Some)
            &&& v matches Some((name, typeref, address)) ==> {
                &&& a.name matches Some(s) ==> s@ == name
                &&& a.name is None ==> (b.name matches Some(s) && s@ == name)
                &&& a.typeref is Some ==> a.typeref == Some(typeref)
                &&& a.typeref is None ==> b.typeref == Some(typeref)
                &&& a.location matches Some(l) ==> (l != (0u8, 0u64) ==> address == l)
            }
        }),
{
}

/// A variable without a location gets the address of the symbol of its linkage name, else that of the
/// symbol of its name, both as absolute addresses; where no symbol has one of these names or ends
/// with its name, it has the address 0.
pub proof fn law_symbols_give_missing_addresses(
    attributes: Map<usize, DieAttributes>,
    symbols: Seq<(Seq<char>, u64)>,
    offset: usize,
)
    requires
        attributes.contains_key(offset),
        attributes[offset].location is None || attributes[offset].location == Some((0u8, 0u64)),
        attributes[offset].specification is None,
        attributes[offset].abstract_origin is None,
        variable_of(attributes, symbols, Some(offset)) is Some,
    ensures
        ({
            let a = attributes[offset];
            let (name, _, address) = variable_of(attributes, symbols, Some(offset))->0;
            let linked = match a.linkage_name {
                Some(l) => lookup(symbols, l@),
                None => None,
            };
            &&& address.0 == 0
            &&& linked matches Some(addr) ==> address.1 == addr
            &&& linked is None ==> (lookup(symbols, name) matches Some(addr) ==> address.1 == addr)
            &&& linked is None && lookup(symbols, name) is None && (forall|i: int|
                0 <= i < symbols.len() ==> !name.is_suffix_of((#[trigger] symbols[i]).0))
                ==> address.1 == 0
        }),
{
    let (name, _, _) = variable_of(attributes, symbols, Some(offset))->0;
    if forall|i: int| 0 <= i < symbols.len() ==> !name.is_suffix_of((#[trigger] symbols[i]).0) {
        lemma_no_suffix(symbols, name, symbols.len());
    }
}

proof fn lemma_no_suffix(symbols: Seq<(Seq<char>, u64)>, name: Seq<char>, n: nat)
    requires
        n <= symbols.len(),
        forall|i: int| 0 <= i < n ==> !name.is_suffix_of((#[trigger] symbols[i]).0),
    ensures
        suffix_addresses(symbols, name, n).len() == 0,
    decreases n,
{
    if n > 0 {
        lemma_no_suffix(symbols, name, (n - 1) as nat);
        assert(!name.is_suffix_of(symbols[n - 1].0));
    }
}

/// A symbol at a position has an address and ends with a name.
pub open spec fn ends_like(symbols: Seq<(Seq<char>, u64)>, name: Seq<char>, i: int) -> bool {
    0 <= i < symbols.len() && symbols[i].1 != 0 && name.is_suffix_of(symbols[i].0)
}

/// A name of four bytes or more is resolved by the only symbol with an address that ends with it; two
/// such symbols, or a shorter name, resolve nothing.
pub proof fn law_only_a_unique_suffix_resolves(
    symbols: Seq<(Seq<char>, u64)>,
    name: Seq<char>,
    i: int,
    j: int,
)
    requires
        ends_like(symbols, name, i),
    ensures
        encode_utf8(name).len() >= 4 && (forall|k: int| #[trigger]
            ends_like(symbols, name, k) ==> k == i) ==> unique_suffix_address(symbols, name) == Some(
            symbols[i].1,
        ),
        ends_like(symbols, name, j) && i != j ==> unique_suffix_address(symbols, name) is None,
        encode_utf8(name).len() < 4 ==> unique_suffix_address(symbols, name) is None,
{
    lemma_suffix_count(symbols, name, i, j, symbols.len());
}

proof fn lemma_suffix_count(
    symbols: Seq<(Seq<char>, u64)>,
    name: Seq<char>,
    i: int,
    j: int,
    n: nat,
)
    requires
        n <= symbols.len(),
        ends_like(symbols, name, i),
    ensures
        ({
            let found = suffix_addresses(symbols, name, n);
            &&& i < n ==> found.len() >= 1
            &&& i < n && ends_like(symbols, name, j) && j < n && i != j ==> found.len() >= 2
            &&& ends_like(symbols, name, j) && j < n ==> found.len() >= 1
            &&& (forall|k: int| #[trigger] ends_like(symbols, name, k) ==> k == i) ==> (if i < n {
                found == seq![symbols[i].1]
            } else {
                found.len() == 0
            })
        }),
    decreases n,
{
    if n > 0 {
        lemma_suffix_count(symbols, name, i, j, (n - 1) as nat);
        let before = suffix_addresses(symbols, name, (n - 1) as nat);
        let found = suffix_addresses(symbols, name, n);
        assert(ends_like(symbols, name, n - 1) ==> found == before.push(symbols[n - 1].1));
        assert(!ends_like(symbols, name, n - 1) ==> found == before);
        if forall|k: int| #[trigger] ends_like(symbols, name, k) ==> k == i {
            if i == n - 1 {
                assert(before =~= Seq::<u64>::empty());
                assert(found =~= seq![symbols[i].1]);
            }
        }
    }
}

/// A variable without a location that another entry specifies gets its address from the linkage name
/// of that entry, where neither its own linkage name nor its name has a symbol.
pub proof fn law_specifications_give_missing_addresses(
    attributes: Map<usize, DieAttributes>,
    symbols: Seq<(Seq<char>, u64)>,
    offset: usize,
    other: usize,
)
    requires
        attributes.contains_key(offset),
        attributes.contains_key(other),
        attributes[offset].specification == Some(other) || (attributes[offset].specification is None
            && attributes[offset].abstract_origin == Some(other)),
        attributes[offset].location is None,
        variable_of(attributes, symbols, Some(offset)) is Some,
    ensures
        ({
            let a = attributes[offset];
            let b = attributes[other];
            let (name, _, address) = variable_of(attributes, symbols, Some(offset))->0;
            let own = match a.linkage_name {
                Some(l) => lookup(symbols, l@),
                None => None,
            };
            &&& address.0 == 0
            &&& own matches Some(addr) ==> address.1 == addr
            &&& own is None ==> (lookup(symbols, name) matches Some(addr) ==> address.1 == addr)
            &&& own is None && lookup(symbols, name) is None && (forall|i: int|
                0 <= i < symbols.len() ==> !name.is_suffix_of((#[trigger] symbols[i]).0)) ==> (
            b.linkage_name matches Some(l) ==> (lookup(symbols, l@) matches Some(addr)
                ==> address.1 == addr))
        }),
{
    let (name, _, _) = variable_of(attributes, symbols, Some(offset))->0;
    if forall|i: int| 0 <= i < symbols.len() ==> !name.is_suffix_of((#[trigger] symbols[i]).0) {
        lemma_no_suffix(symbols, name, symbols.len());
    }
}

/// A named section with an address and a size is known by its range, from its first byte to behind
/// its last one. Of several sections of one name the last one counts; a section without an address
/// or a size is not known.
pub proof fn law_sections_are_known_by_their_range(
    sections: Seq<(Option<Seq<char>>, u64, u64)>,
    n: nat,
    name: Seq<char>,
    k: int,
)
    requires
        n <= sections.len(),
        forall|i: int|
            0 <= i < n && (#[trigger] sections[i]).0 is Some && sections[i].1 != 0 && sections[i].2
                != 0 ==> sections[i].1 + sections[i].2 <= u64::MAX,
    ensures
        ({
            let found = lookup(section_ranges(sections, n), name);
            &&& 0 <= k < n && sections[k].0 == Some(name) && sections[k].1 != 0 && sections[k].2 != 0
                && (forall|j: int|
                k < j < n && (#[trigger] sections[j]).0 == Some(name) ==> sections[j].1 == 0
                    || sections[j].2 == 0) ==> (found matches Some((start, end)) && start
                == sections[k].1 && end - start == sections[k].2)
            &&& (forall|j: int|
                0 <= j < n && (#[trigger] sections[j]).0 == Some(name) ==> sections[j].1 == 0
                    || sections[j].2 == 0) ==> found is None
        }),
    decreases n,
{
    if n > 0 {
        let before = section_ranges(sections, (n - 1) as nat);
        law_sections_are_known_by_their_range(sections, (n - 1) as nat, name, k);
        if let (Some(s), addr, size) = sections[n - 1] {
            if addr != 0 && size != 0 {
                assert(addr + size <= u64::MAX);
                law_put_value_is_found(before, s, (addr, (addr + size) as u64), name);
            }
        }
    }
}

/// A symbol with a name and an address is known by its address. Of several symbols of one name the
/// last one counts; a symbol without an address is not known.
pub proof fn law_symbols_are_known_by_their_address(
    symbols: Seq<(Option<Seq<char>>, u64)>,
    n: nat,
    name: Seq<char>,
    k: int,
)
    requires
        n <= symbols.len(),
        name.len() > 0,
    ensures
        ({
            let found = lookup(symbol_table(symbols, n), name);
            &&& 0 <= k < n && symbols[k].0 == Some(name) && symbols[k].1 != 0 && (forall|j: int|
                k < j < n && (#[trigger] symbols[j]).0 == Some(name) ==> symbols[j].1 == 0)
                ==> found == Some(symbols[k].1)
            &&& (forall|j: int|
                0 <= j < n && (#[trigger] symbols[j]).0 == Some(name) ==> symbols[j].1 == 0)
                ==> found is None
        }),
    decreases n,
{
    if n > 0 {
        let before = symbol_table(symbols, (n - 1) as nat);
        law_symbols_are_known_by_their_address(symbols, (n - 1) as nat, name, k);
        if let (Some(s), addr) = symbols[n - 1] {
            if s.len() > 0 && addr != 0 {
                law_put_value_is_found(before, s, addr, name);
            }
        }
    }
}

/// No symbol without a name or an address is known.
pub proof fn law_known_symbols_have_names_and_addresses(
    symbols: Seq<(Option<Seq<char>>, u64)>,
    n: nat,
    i: int,
)
    requires
        n <= symbols.len(),
        0 <= i < symbol_table(symbols, n).len(),
    ensures
        symbol_table(symbols, n)[i].0.len() > 0,
        symbol_table(symbols, n)[i].1 != 0,
        exists|k: int|
            0 <= k < n && #[trigger] symbols[k] == (
                Some(symbol_table(symbols, n)[i].0),
                symbol_table(symbols, n)[i].1,
            ),
    decreases n,
{
    if n > 0 {
        let before = symbol_table(symbols, (n - 1) as nat);
        let after = symbol_table(symbols, n);
        if let (Some(s), addr) = symbols[n - 1] {
            lemma_find_name(before, s);
        }
        if i < before.len() && after[i] == before[i] {
            law_known_symbols_have_names_and_addresses(symbols, (n - 1) as nat, i);
        } else {
            assert(symbols[n - 1] == (Some(after[i].0), after[i].1));
        }
    }
}

/// Where all units can be read, they are kept as they stand, up to the first one behind the limit on
/// the unit index, each with its entries.
pub proof fn law_readable_units_are_kept(
    info: Seq<u8>,
    abbrev: Seq<u8>,
    little_endian: bool,
    unit_idx_limit: usize,
    n: nat,
    i: int,
)
    requires
        n <= debug_info_units(info, little_endian).len(),
        forall|k: int|
            0 <= k < n ==> unit_entries(
                info,
                abbrev,
                little_endian,
                (#[trigger] debug_info_units(info, little_endian)[k]).0,
            ) is Some,
    ensures
        ({
            let kept = units_kept(info, abbrev, little_endian, unit_idx_limit, n);
            let units = debug_info_units(info, little_endian);
            &&& kept.len() == if n <= unit_idx_limit + 2 {
                n as int
            } else {
                unit_idx_limit + 2
            }
            &&& 0 <= i < kept.len() ==> kept[i].0 == units[i].0 && kept[i].1 == units[i].1 && Some(
                kept[i].2,
            ) == unit_entries(info, abbrev, little_endian, units[i].0)
        }),
    decreases n,
{
    if n > 0 {
        law_readable_units_are_kept(info, abbrev, little_endian, unit_idx_limit, (n - 1) as nat, i);
        assert(unit_entries(
            info,
            abbrev,
            little_endian,
            debug_info_units(info, little_endian)[n - 1].0,
        ) is Some);
    }
}

/// A unit that cannot be read is left out; every unit that is kept is a unit of the section with its
/// entries.
pub proof fn law_unreadable_units_are_left_out(
    info: Seq<u8>,
    abbrev: Seq<u8>,
    little_endian: bool,
    unit_idx_limit: usize,
    n: nat,
    i: int,
)
    requires
        n <= debug_info_units(info, little_endian).len(),
        0 <= i < units_kept(info, abbrev, little_endian, unit_idx_limit, n).len(),
    ensures
        ({
            let u = units_kept(info, abbrev, little_endian, unit_idx_limit, n)[i];
            &&& unit_entries(info, abbrev, little_endian, u.0) == Some(u.2)
            &&& exists|k: int|
                0 <= k < n && #[trigger] debug_info_units(info, little_endian)[k] == (u.0, u.1)
        }),
    decreases n,
{
    if n > 0 {
        let before = units_kept(info, abbrev, little_endian, unit_idx_limit, (n - 1) as nat);
        if i < before.len() {
            law_unreadable_units_are_left_out(
                info,
                abbrev,
                little_endian,
                unit_idx_limit,
                (n - 1) as nat,
                i,
            );
        } else {
            let u = units_kept(info, abbrev, little_endian, unit_idx_limit, n)[i];
            assert(debug_info_units(info, little_endian)[n - 1] == (u.0, u.1));
        }
    }
}

/// The EPK string is the text before the first zero byte of its section, whatever follows; without
/// a zero byte there is none.
pub proof fn law_epk_ends_at_a_zero_byte(text: Seq<u8>, rest: Seq<u8>)
    requires
        !text.contains(0u8),
    ensures
        epk_text(text.push(0u8) + rest) == Some(utf8_lossy(text)),
        epk_text(text) is None,
{
    let data = text.push(0u8) + rest;
    lemma_before_zero(text, rest);
    law_text_ends_at_the_first_zero(text);
    let b = before_zero(text);
    if b.len() < text.len() {
        assert(text.contains(text[b.len() as int]));
    }
}

proof fn lemma_before_zero(text: Seq<u8>, rest: Seq<u8>)
    requires
        !text.contains(0u8),
    ensures
        before_zero(text.push(0u8) + rest) == text,
{
    let data = text.push(0u8) + rest;
    let b = before_zero(data);
    law_text_ends_at_the_first_zero(data);
    if b.len() < text.len() {
        assert(data[b.len() as int] == text[b.len() as int]);
        assert(text.contains(0u8));
    }
    if b.len() > text.len() {
        assert(b[text.len() as int] == data[text.len() as int]);
        assert(b.contains(0u8));
    }
    assert(b =~= text);
}

/// A unit is named by the name of its root, if that is a compile unit or a partial unit.
pub proof fn law_units_are_named_by_their_root(
    r: DebugDataReader,
    n: nat,
    u: int,
)
    requires
        0 <= u < n <= r.units.list@.len(),
    ensures
        r.names_of_units(n).len() == n,
        ({
            let entries = r.units.list@[u].entries@;
            let name = r.names_of_units(n)[u];
            &&& name is Some ==> entries.len() > 0 && (entries[0].1 == 0x11 || entries[0].1 == 0x3c)
            &&& entries.len() > 0 && (entries[0].1 == 0x11 || entries[0].1 == 0x3c) ==> (
            entries[0].2 matches Some(o) ==> (r.attributes@.contains_key(o) ==> (
            r.attributes@[o].name matches Some(s) ==> name == Some(s@))))
        }),
{
}

/// What is read from a file are its units, sections, symbols and byte order, the address and the text
/// of the section `xcp_epk` and the address and the bytes of the section `xcp_meta`.
pub proof fn law_files_are_read_as_they_are(
    r: DebugDataReader,
    data: Seq<u8>,
    unit_idx_limit: usize,
    name: Seq<char>,
    k: int,
)
    requires
        reads_file(r, data, unit_idx_limit),
        forall|i: int|
            0 <= i < object_sections(data).len() && (#[trigger] object_sections(data)[i]).0 is Some
                && object_sections(data)[i].1 != 0 && object_sections(data)[i].2 != 0
                ==> object_sections(data)[i].1 + object_sections(data)[i].2 <= u64::MAX,
        name.len() > 0,
    ensures
        r.is_little_endian == object_little_endian(data),
        0 <= k < object_symbols(data).len() && object_symbols(data)[k].0 == Some(name)
            && object_symbols(data)[k].1 != 0 && (forall|j: int|
            k < j < object_symbols(data).len() ==> (#[trigger] object_symbols(data)[j]).0 != Some(
                name,
            )) ==> lookup(r.symbol_addresses.order(), name) == Some(object_symbols(data)[k].1),
        0 <= k < object_sections(data).len() && object_sections(data)[k].0 == Some(name)
            && object_sections(data)[k].1 != 0 && object_sections(data)[k].2 != 0 && (forall|j: int|
            k < j < object_sections(data).len() ==> (#[trigger] object_sections(data)[j]).0 != Some(
                name,
            )) ==> (lookup(r.sections.order(), name) matches Some((start, end)) && start
            == object_sections(data)[k].1 && end - start == object_sections(data)[k].2),
        object_section(data, "xcp_epk"@) is None ==> r.epk_addr == 0 && r.epk_string is None,
        object_section(data, "xcp_epk"@) matches Some((addr, bytes)) ==> r.epk_addr == addr && (
        bytes matches Some(b) ==> (forall|t: Seq<u8>, rest: Seq<u8>|
            !t.contains(0u8) && b == #[trigger] (t.push(0u8) + rest) ==> (r.epk_string matches Some(
                s,
            ) && s@ == utf8_lossy(t)))),
        object_section(data, "xcp_meta"@) matches Some((addr, Some(b))) ==> (
        r.xcp_meta_data matches Some((base, bytes)) && base == addr && bytes@ == b),
        object_section(data, "xcp_meta"@) is None ==> r.xcp_meta_data is None,
{
    let sections = object_sections(data);
    let symbols = object_symbols(data);
    law_symbols_are_known_by_their_address(symbols, symbols.len(), name, k);
    law_sections_are_known_by_their_range(sections, sections.len(), name, k);
    if let Some((_, Some(b))) = object_section(data, "xcp_epk"@) {
        assert forall|t: Seq<u8>, rest: Seq<u8>|
            !t.contains(0u8) && b == #[trigger] (t.push(0u8) + rest) implies (
        r.epk_string matches Some(s) && s@ == utf8_lossy(t)) by {
            law_epk_ends_at_a_zero_byte(t, rest);
        }
    }
}

/// A variable that an entry describes on its own, with a name, a type and a location, is loaded under
/// that name with that type and that location, and with the function that it lies below.
pub proof fn law_located_variables_are_loaded(
    r: DebugDataReader,
    unit_idx_limit: usize,
    u: int,
    m: int,
    k: int,
)
    requires
        0 <= u < r.units.list@.len() <= usize::MAX,
        u <= unit_idx_limit,
        depth_first(r.units.list@[u].entries@, r.units.list@[u].entries@.len() as int),
        1 <= k < r.units.list@[u].entries@.len(),
        r.units.list@[u].entries@[k].1 == 0x34,
        r.units.list@[u].entries@[k].2 is Some,
        r.attributes@.contains_key(r.units.list@[u].entries@[k].2->0),
        ({
            let a = r.attributes@[r.units.list@[u].entries@[k].2->0];
            &&& a.specification is None
            &&& a.abstract_origin is None
            &&& a.name is Some
            &&& a.typeref is Some
            &&& a.location is Some
            &&& a.location->0 != (0u8, 0u64)
        }),
        lies_below(r.units.list@[u].entries@, m, k),
        r.units.list@[u].entries@[m].1 == 0x2e,
        forall|j: int|
            m < j <= k && #[trigger] lies_below(r.units.list@[u].entries@, j, k)
                ==> r.units.list@[u].entries@[j].1 != 0x2e,
    ensures
        ({
            let entries = r.units.list@[u].entries@;
            let a = r.attributes@[entries[k].2->0];
            exists|v: VarView|
                {
                    &&& #[trigger] holds_instance(
                        r.variables_of_units(r.units_read(unit_idx_limit)),
                        (a.name->0)@,
                        v,
                    )
                    &&& v.address == a.location->0
                    &&& v.typeref == a.typeref->0
                    &&& v.unit_idx == u
                    &&& v.function == entry_text(r.attributes@, entries, m)
                }
        }),
{
    let entries = r.units.list@[u].entries@;
    let symbols = r.symbol_addresses.order();
    let offset = entries[k].2->0;
    law_variables_are_what_their_entry_says(r.attributes@, symbols, offset);
    assert(depth_first(entries, k + 1));
    law_variables_know_their_function(r.attributes@, entries, m, k);
    assert(is_variable_entry(r.attributes@, symbols, entries, k));
    law_all_variables_are_loaded(r, r.units_read(unit_idx_limit), u, k);
    let v = entry_view(r.attributes@, symbols, u as usize, entries, k);
    assert(holds_instance(
        r.variables_of_units(r.units_read(unit_idx_limit)),
        (r.attributes@[offset].name->0)@,
        v,
    ));
}

/// A variable of at least four bytes of name that has neither a location nor a symbol of its linkage
/// name or name gets the address of the only symbol with an address that ends with its name.
pub proof fn law_unique_suffixes_give_missing_addresses(
    attributes: Map<usize, DieAttributes>,
    symbols: Seq<(Seq<char>, u64)>,
    offset: usize,
    i: int,
)
    requires
        attributes.contains_key(offset),
        attributes[offset].location is None,
        attributes[offset].name is Some,
        attributes[offset].typeref is Some,
        attributes[offset].specification is None,
        attributes[offset].abstract_origin is None,
        attributes[offset].linkage_name matches Some(l) ==> lookup(symbols, l@) is None,
        lookup(symbols, (attributes[offset].name->0)@) is None,
        encode_utf8((attributes[offset].name->0)@).len() >= 4,
        ends_like(symbols, (attributes[offset].name->0)@, i),
        forall|k: int| #[trigger]
            ends_like(symbols, (attributes[offset].name->0)@, k) ==> k == i,
    ensures
        variable_of(attributes, symbols, Some(offset)) == Some(
            (
                (attributes[offset].name->0)@,
                attributes[offset].typeref->0,
                (0u8, symbols[i].1),
            ),
        ),
{
    law_only_a_unique_suffix_resolves(symbols, (attributes[offset].name->0)@, i, i);
}

/// The qualified names of types come from all units: a type that only one unit describes is named as in
/// that unit alone.
pub proof fn law_type_names_come_from_all_units(
    r: DebugDataReader,
    wanted: Set<usize>,
    n: nat,
    u: int,
    k: int,
)
    requires
        0 <= u < n <= r.units.list@.len(),
        0 <= k < r.units.list@[u].entries@.len(),
        is_last_at_offset(r.units.list@[u].entries@, k, r.units.list@[u].entries@.len() as int),
        r.units.list@[u].entries@[k].2 is Some,
        wanted.contains(r.units.list@[u].entries@[k].2->0),
        entry_text(r.attributes@, r.units.list@[u].entries@, k) is Some,
        forall|v: int, j: int|
            u < v < n && 0 <= j < r.units.list@[v].entries@.len() ==> (
            #[trigger] r.units.list@[v].entries@[j]).2 != r.units.list@[u].entries@[k].2,
    ensures
        ({
            let entries = r.units.list@[u].entries@;
            let offset = entries[k].2->0;
            let all = r.type_names_of_units(wanted, n);
            let alone = unit_type_names(
                r.attributes@,
                wanted,
                entries,
                Map::empty(),
                entries.len(),
            );
            &&& all.contains_key(offset)
            &&& all[offset] == alone[offset]
        }),
    decreases n,
{
    let entries = r.units.list@[u].entries@;
    let offset = entries[k].2->0;
    let last = r.units.list@[n - 1].entries@;
    let before = r.type_names_of_units(wanted, (n - 1) as nat);
    if u == n - 1 {
        lemma_type_name(r.attributes@, wanted, entries, before, k, entries.len());
        lemma_type_name(r.attributes@, wanted, entries, Map::empty(), k, entries.len());
    } else {
        law_type_names_come_from_all_units(r, wanted, (n - 1) as nat, u, k);
        assert forall|j: int| 0 <= j < last.len() implies (#[trigger] last[j]).2 != Some(offset) by {
            assert(r.units.list@[n - 1].entries@[j].2 != r.units.list@[u].entries@[k].2);
        }
        law_only_wanted_types_are_named(
            r.attributes@,
            wanted,
            last,
            before,
            offset,
            last.len(),
        );
    }
}

/// An item lies in a unit if it lies behind the first byte of the unit and before its end; so it lies in
/// at most one of two units that do not overlap.
pub proof fn law_items_lie_in_one_unit(a: DwarfUnit, b: DwarfUnit, distance: usize, item: usize)
    requires
        a.offset + a.length <= b.offset,
        a.offset + distance <= usize::MAX,
    ensures
        unit_holds(a, (a.offset + distance) as usize) <==> 0 < distance < a.length,
        !(unit_holds(a, item) && unit_holds(b, item)),
{
}

/// Two types are told to be ambiguous exactly if their qualified names differ.
pub proof fn law_ambiguous_types_differ_in_their_qualified_names(
    refs: Seq<usize>,
    qualified: Map<usize, String>,
    a: usize,
    b: usize,
)
    requires
        refs.contains(a),
        refs.contains(b),
        qualified.contains_key(a),
        qualified.contains_key(b),
    ensures
        qualified[a]@ != qualified[b]@ ==> is_ambiguous(refs, qualified),
        (forall|c: usize|
            refs.contains(c) && qualified.contains_key(c) ==> (#[trigger] qualified[c])@
                == qualified[a]@) ==> !is_ambiguous(refs, qualified),
{
    let i = choose|i: int| 0 <= i < refs.len() && refs[i] == a;
    let j = choose|j: int| 0 <= j < refs.len() && refs[j] == b;
    if qualified[a]@ != qualified[b]@ {
        assert(qualified[refs[i]]@ != qualified[refs[j]]@);
    }
    if (forall|c: usize|
        refs.contains(c) && qualified.contains_key(c) ==> (#[trigger] qualified[c])@
            == qualified[a]@) && is_ambiguous(refs, qualified) {
        let (x, y) = choose|x: int, y: int|
            0 <= x < refs.len() && 0 <= y < refs.len() && qualified.contains_key(#[trigger] refs[x])
                && qualified.contains_key(#[trigger] refs[y]) && qualified[refs[x]]@
                != qualified[refs[y]]@;
        assert(refs.contains(refs[x]) && refs.contains(refs[y]));
    }
}

/// A type gets its qualified name exactly if one of its names belongs to types of different qualified
/// names; where all types of its names have one qualified name, it keeps its own.
pub proof fn law_types_of_one_scope_are_not_qualified(
    names: Seq<(Seq<char>, Vec<usize>)>,
    qualified: Map<usize, Seq<char>>,
    r: usize,
    k: int,
    a: usize,
    b: usize,
)
    ensures
        0 <= k < names.len() && names[k].1@.contains(r) && names[k].1@.contains(a)
            && names[k].1@.contains(b) && qualified.contains_key(a) && qualified.contains_key(b)
            && qualified[a] != qualified[b] ==> shares_qualified(names, qualified, r),
        (forall|m: int, s: usize, t: usize|
            #![trigger names[m].1@.contains(s), names[m].1@.contains(t)]
            0 <= m < names.len() && names[m].1@.contains(r) && names[m].1@.contains(s)
                && names[m].1@.contains(t) && qualified.contains_key(s) && qualified.contains_key(t)
                ==> qualified[s] == qualified[t]) ==> !shares_qualified(names, qualified, r),
{
    if 0 <= k < names.len() && names[k].1@.contains(r) && names[k].1@.contains(a)
        && names[k].1@.contains(b) && qualified.contains_key(a) && qualified.contains_key(b)
        && qualified[a] != qualified[b] {
        let refs = names[k].1@;
        let i = choose|i: int| 0 <= i < refs.len() && refs[i] == a;
        let j = choose|j: int| 0 <= j < refs.len() && refs[j] == b;
        assert(names[k].1@[i] == a && names[k].1@[j] == b);
    }
    if (forall|m: int, s: usize, t: usize|
        #![trigger names[m].1@.contains(s), names[m].1@.contains(t)]
        0 <= m < names.len() && names[m].1@.contains(r) && names[m].1@.contains(s)
            && names[m].1@.contains(t) && qualified.contains_key(s) && qualified.contains_key(t)
            ==> qualified[s] == qualified[t]) && shares_qualified(names, qualified, r) {
        let (m, i, j) = choose|m: int, i: int, j: int|
            0 <= m < names.len() && 0 <= i < names[m].1@.len() && 0 <= j < names[m].1@.len()
                && names[m].1@.contains(r) && qualified.contains_key(#[trigger] names[m].1@[i])
                && qualified.contains_key(#[trigger] names[m].1@[j]) && qualified[names[m].1@[i]]
                != qualified[names[m].1@[j]];
        assert(names[m].1@.contains(names[m].1@[i]) && names[m].1@.contains(names[m].1@[j]));
    }
}

/// A file has debug information if one of its sections is named `.debug_info`.
pub proof fn law_debug_information_has_its_section(
    sections: Seq<(Option<Seq<char>>, u64, u64)>,
)
    ensures
        has_debug_info(sections) <==> sections.map_values(
            |s: (Option<Seq<char>>, u64, u64)| s.0,
        ).contains(Some(".debug_info"@)),
{
    let names = sections.map_values(|s: (Option<Seq<char>>, u64, u64)| s.0);
    if has_debug_info(sections) {
        let i = choose|i: int|
            0 <= i < sections.len() && (#[trigger] sections[i]).0 == Some(".debug_info"@);
        assert(names[i] == Some(".debug_info"@));
    }
    if names.contains(Some(".debug_info"@)) {
        let i = choose|i: int| 0 <= i < names.len() && names[i] == Some(".debug_info"@);
        assert(sections[i].0 == Some(".debug_info"@));
    }
}

/// The debug information of a file can be loaded if every section that is there can be read; it cannot
/// if the entries or the abbreviations cannot.
pub proof fn law_readable_sections_can_be_loaded(data: Seq<u8>)
    ensures
        (forall|name: Seq<char>| #[trigger]
            object_section(data, name) matches Some((_, bytes)) ==> bytes is Some) ==> dwarf_loads(
            data,
        ),
        dwarf_loads(data) ==> (object_section(data, ".debug_info"@) matches Some((_, bytes))
            ==> bytes is Some) && (object_section(data, ".debug_abbrev"@) matches Some((_, bytes))
            ==> bytes is Some) && (object_section(data, ".debug_str"@) matches Some((_, bytes))
            ==> bytes is Some),
{
    assert(dwarf_section_names()[0] == ".debug_abbrev"@);
    assert(dwarf_section_names()[3] == ".debug_info"@);
    assert(dwarf_section_names()[9] == ".debug_str"@);
    if dwarf_loads(data) {
        assert(section_bytes(data, dwarf_section_names()[0]) is Some);
        assert(section_bytes(data, dwarf_section_names()[3]) is Some);
        assert(section_bytes(data, dwarf_section_names()[9]) is Some);
    }
}

/// Where all units of a file can be read, its reader holds them as they stand in the section
/// `.debug_info`, each with its entries, up to the first one behind the limit on the unit index.
pub proof fn law_units_of_a_file_are_read(
    r: DebugDataReader,
    data: Seq<u8>,
    unit_idx_limit: usize,
    info: Seq<u8>,
    abbrev: Seq<u8>,
    i: int,
)
    requires
        reads_file(r, data, unit_idx_limit),
        object_section(data, ".debug_info"@) matches Some((_, Some(b))) && b == info,
        object_section(data, ".debug_abbrev"@) matches Some((_, Some(b))) && b == abbrev,
        forall|k: int|
            0 <= k < debug_info_units(info, object_little_endian(data)).len() ==> unit_entries(
                info,
                abbrev,
                object_little_endian(data),
                (#[trigger] debug_info_units(info, object_little_endian(data))[k]).0,
            ) is Some,
    ensures
        ({
            let units = debug_info_units(info, object_little_endian(data));
            &&& r.units.list@.len() == if units.len() <= unit_idx_limit + 2 {
                units.len() as int
            } else {
                unit_idx_limit + 2
            }
            &&& 0 <= i < r.units.list@.len() ==> r.units.list@[i].offset == units[i].0
                && r.units.list@[i].length == units[i].1 && Some(r.units.list@[i].entries@)
                == unit_entries(info, abbrev, object_little_endian(data), units[i].0)
        }),
{
    let little = object_little_endian(data);
    let units = debug_info_units(info, little);
    law_readable_units_are_kept(info, abbrev, little, unit_idx_limit, units.len(), i);
    assert(unit_views(r.units.list@).len() == r.units.list@.len());
    if 0 <= i < r.units.list@.len() {
        assert(unit_views(r.units.list@)[i].2 == r.units.list@[i].entries@);
    }
}

/// Sections that end within the address space fit; a named one with an address and a size that does not
/// is none of these.
pub proof fn law_sections_end_within_the_address_space(
    sections: Seq<(Option<Seq<char>>, u64, u64)>,
    i: int,
)
    ensures
        (forall|k: int|
            0 <= k < sections.len() ==> (#[trigger] sections[k]).1 + sections[k].2
                < 0x1_0000_0000_0000_0000) ==> sections_fit(sections),
        sections_fit(sections) && 0 <= i < sections.len() && sections[i].0 is Some && sections[i].1
            != 0 && sections[i].2 != 0 ==> sections[i].1 + sections[i].2 < 0x1_0000_0000_0000_0000,
        (forall|k: int|
            0 <= k < sections.len() ==> (#[trigger] sections[k]).0 is None || sections[k].1 == 0
                || sections[k].2 == 0) ==> sections_fit(sections),
{
}

} // verus!
