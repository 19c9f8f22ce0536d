//! Which names are demangled, and what is known of the instances of a name.
use vstd::prelude::*;

use crate::debuginfo::VarView;
use crate::demangle::{
    can_parse, cpp_demangled, demangled_names, highest_param, highest_param_at, is_plain, number_at,
    plain_part_end, source_name_end, variable_name,
};
use crate::name_map::{law_put_value_is_found, lemma_find_name, lookup, upsert};
use crate::text::{decimal, is_digit};
use crate::text_laws::{begins_with, law_decimal_texts_read_back, lemma_begins_with, number_of};
use crate::variable_map::with_instance;

verus! {

/// A variable gets a demangled name if its own name begins with `_Z` and can be demangled, unless the
/// demangled name holds a space or is that of a table of virtual functions.
pub proof fn law_only_mangled_names_are_demangled(name: Seq<char>)
    ensures
        !begins_with(name, "_Z"@) ==> variable_name(name) is None,
        variable_name(name) is Some <==> begins_with(name, "_Z"@) && (cpp_demangled(
            name,
        ) matches Some(d) && !d.contains(' ') && !begins_with(d, "{vtable"@)),
        variable_name(name) is Some ==> variable_name(name) == cpp_demangled(name),
{
    lemma_begins_with(name, "_Z"@);
    if let Some(d) = cpp_demangled(name) {
        lemma_begins_with(d, "{vtable"@);
    }
}

/// The demangled name of every variable that has one is found under its own name, and nothing under
/// any other name.
pub proof fn law_demangled_names_are_found(names: Seq<Seq<char>>, n: nat, name: Seq<char>)
    requires
        n <= names.len(),
    ensures
        names.take(n as int).contains(name) ==> lookup(demangled_names(names, n), name)
            == variable_name(name),
        !names.take(n as int).contains(name) ==> lookup(demangled_names(names, n), name) is None,
    decreases n,
{
    if n > 0 {
        law_demangled_names_are_found(names, (n - 1) as nat, name);
        let a = names.take(n - 1);
        let b = names.take(n as int);
        assert(b =~= a.push(names[n - 1]));
        if a.contains(name) {
            let i = choose|i: int| 0 <= i < a.len() && a[i] == name;
            assert(b[i] == name);
        }
        if b.contains(name) && name != names[n - 1] {
            let i = choose|i: int| 0 <= i < b.len() && b[i] == name;
            assert(a[i] == name);
        }
        assert(b[n - 1] == names[n - 1]);
        if let Some(demangled) = variable_name(names[n - 1]) {
            law_put_value_is_found(
                demangled_names(names, (n - 1) as nat),
                names[n - 1],
                demangled,
                name,
            );
        }
    }
}

/// A name without the code of a template parameter can always be demangled.
pub proof fn law_names_without_parameters_can_be_parsed(name: Seq<char>)
    requires
        !name.contains('T'),
    ensures
        can_parse(name),
{
    reveal_strlit("T");
    law_decimal_texts_read_back(isize::MAX as nat);
    assert forall|i: int| !#[trigger] highest_param_at(name, i) by {
        if highest_param_at(name, i) {
            let p = highest_param();
            assert(p[0] == 'T');
            assert(name.subrange(i, i + p.len())[0] == name[i]);
            assert(name.contains('T'));
        }
    }
}

/// A plain mangled name, that is `_Z`, a length and a name of that length in ASCII that does not begin
/// with a digit, can always be demangled, whatever the name holds.
pub proof fn law_plain_names_can_be_parsed(name: Seq<char>)
    requires
        name.len() > 0,
        !is_digit(name[0]),
        forall|i: int| 0 <= i < name.len() ==> (#[trigger] name[i]) as int <= 127,
    ensures
        can_parse("_Z"@ + decimal(name.len() as int) + name),
{
    reveal_strlit("_Z");
    let n = name.len();
    let d = decimal(n as int);
    let s = "_Z"@ + d + name;
    law_decimal_texts_read_back(n);
    assert("_Z"@ =~= s.take(2));
    assert forall|i: int| 0 <= i < d.len() implies s[2 + i] == #[trigger] d[i] by {}
    lemma_digits(s, d, d.len());
    assert(d.take(d.len() as int) =~= d);
    let end = 2 + d.len() as int;
    assert(s[end] == name[0]);
    assert(number_at(s, 2, 0) == (n, end));
    assert(s[2] == d[0]);
    assert(d[0] != '0') by {
        if d.len() == 1 && d[0] == '0' {
            reveal_with_fuel(number_of, 2);
            assert(d.drop_last() =~= Seq::empty());
        }
    }
    assert(source_name_end(s, 2) == Some(s.len() as int));
    assert(plain_part_end(s, 2) == Some(s.len() as int));
    assert forall|i: int| 0 <= i < s.len() implies (#[trigger] s[i]) as int <= 127 by {
        if i >= end {
            assert(s[i] == name[i - end]);
        } else if i >= 2 {
            assert(s[i] == d[i - 2]);
        }
    }
    assert(is_plain(s));
}

proof fn lemma_digits(s: Seq<char>, d: Seq<char>, j: nat)
    requires
        j <= d.len(),
        2 + d.len() < s.len(),
        forall|i: int| 0 <= i < d.len() ==> s[2 + i] == #[trigger] d[i],
        forall|i: int| 0 <= i < d.len() ==> '0' <= #[trigger] d[i] <= '9',
    ensures
        number_of(d.take(j as int)) >= 0,
        number_at(s, 2, 0) == number_at(s, 2 + j as int, number_of(d.take(j as int)) as nat),
    decreases j,
{
    if j > 0 {
        lemma_digits(s, d, (j - 1) as nat);
        let before = d.take(j - 1);
        let after = d.take(j as int);
        assert(after.drop_last() =~= before);
        assert(after.last() == d[j - 1]);
        assert(s[2 + (j - 1)] == d[j - 1]);
        assert(number_of(after) == number_of(before) * 10 + (d[j - 1] as int - 48));
        assert(is_digit(s[2 + (j - 1)]));
    }
}

/// An instance comes behind the other instances of its name, and a new name behind the other names;
/// nothing else moves.
pub proof fn law_instances_come_in_order(
    vars: Seq<(Seq<char>, Seq<VarView>)>,
    name: Seq<char>,
    v: VarView,
    other: Seq<char>,
)
    ensures
        lookup(vars, name) matches Some(infos) ==> lookup(with_instance(vars, name, v), name) == Some(
            infos.push(v),
        ),
        lookup(vars, name) is None ==> lookup(with_instance(vars, name, v), name) == Some(seq![v])
            && with_instance(vars, name, v).last().0 == name,
        other != name ==> lookup(with_instance(vars, name, v), other) == lookup(vars, other),
        forall|i: int|
            0 <= i < vars.len() ==> (#[trigger] with_instance(vars, name, v)[i]).0 == vars[i].0,
{
    lemma_find_name(vars, name);
    let list = match lookup(vars, name) {
        Some(infos) => infos.push(v),
        None => seq![v],
    };
    law_put_value_is_found(vars, name, list, other);
    assert(with_instance(vars, name, v) =~= upsert(vars, name, list));
}

/// Putting a value under a name leaves every name in its place; a new name comes last.
pub proof fn law_names_keep_their_place<V>(o: Seq<(Seq<char>, V)>, name: Seq<char>, v: V, i: int)
    requires
        0 <= i < o.len(),
    ensures
        upsert(o, name, v)[i].0 == o[i].0,
        o[i].0 != name ==> upsert(o, name, v)[i] == o[i],
        lookup(o, name) is None ==> upsert(o, name, v).len() == o.len() + 1 && upsert(
            o,
            name,
            v,
        ).last() == (name, v),
        lookup(o, name) is Some ==> upsert(o, name, v).len() == o.len(),
{
    lemma_find_name(o, name);
}

} // verus!
