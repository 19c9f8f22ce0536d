//! Texts that are put together come apart again: prefixes, separators, dots and numbers.
use vstd::prelude::*;

use crate::debuginfo::{file_name, simple_name, DebugData, VarInfo};
use crate::elf_reader::signature_from;
use crate::text::{
    after_sep, before_sep, behind_sep, decimal, decimal_nat, digit, dotted, first_of, first_sep,
    hex, hex_digit, is_sep, last_of, lemma_after_last, lemma_first_sep, replaced, stripped,
};

verus! {

/// A text begins with another one.
pub open spec fn begins_with(text: Seq<char>, start: Seq<char>) -> bool {
    exists|rest: Seq<char>| text == #[trigger] (start + rest)
}

/// A text begins with another one if that is a prefix of it.
pub proof fn lemma_begins_with(text: Seq<char>, start: Seq<char>)
    ensures
        begins_with(text, start) <==> start.is_prefix_of(text),
{
    if start.is_prefix_of(text) {
        assert(text =~= start + text.skip(start.len() as int));
    }
    if begins_with(text, start) {
        let rest = choose|rest: Seq<char>| text == #[trigger] (start + rest);
        assert(start =~= text.take(start.len() as int));
    }
}

/// Taking off what was put in front gives back what was there; from a text that does not begin with
/// it nothing can be taken off.
pub proof fn law_prefixes_come_off(start: Seq<char>, rest: Seq<char>, text: Seq<char>)
    ensures
        stripped(start + rest, start) == Some(rest),
        stripped(text, start) is Some <==> begins_with(text, start),
{
    let full = start + rest;
    assert(start =~= full.take(start.len() as int));
    assert(full.skip(start.len() as int) =~= rest);
    lemma_begins_with(text, start);
}

/// A text can stand in front of a separator: it holds none itself and does not end with an underscore.
pub open spec fn is_head(a: Seq<char>) -> bool {
    (forall|i: int| !is_sep(a, i)) && (a.len() > 0 ==> a.last() != '_')
}

/// Two texts with a separator between them are cut there: into the first one and all of the second
/// one, whatever separators that holds. Without a separator a text is left whole.
pub proof fn law_texts_are_cut_at_the_first_separator(a: Seq<char>, b: Seq<char>)
    requires
        is_head(a),
    ensures
        before_sep(a + "__"@ + b) == a,
        after_sep(a + "__"@ + b) == Some(b),
        behind_sep(a + "__"@ + b) == b,
        before_sep(a) == a,
        after_sep(a) is None,
        behind_sep(a) == Seq::<char>::empty(),
{
    reveal_strlit("__");
    let s = a + "__"@ + b;
    let n = a.len() as int;
    lemma_first_sep(a, 0);
    lemma_first_sep(s, 0);
    assert(is_sep(s, n));
    if let Some(k) = first_sep(s, 0) {
        if k < n {
            if k + 1 < n {
                assert(is_sep(a, k));
            } else {
                assert(s[k] == a.last());
            }
        }
        assert(k <= n);
        assert(s.take(n) =~= a);
        assert(s.skip(n + 2) =~= b);
    }
}

/// Every separator becomes a dot, and nothing else changes.
pub proof fn law_separators_become_dots(a: Seq<char>, b: Seq<char>)
    requires
        is_head(a),
    ensures
        dotted(a + "__"@ + b) == a + "."@ + dotted(b),
        dotted(a) == a,
    decreases a.len(),
{
    reveal_strlit("__");
    reveal_strlit(".");
    let s = a + "__"@ + b;
    if a.len() == 0 {
        assert(is_sep(s, 0));
        assert(s.skip(2) =~= b);
        assert(seq!['.'] + dotted(b) =~= a + "."@ + dotted(b));
    } else {
        let rest = a.skip(1);
        assert forall|i: int| !is_sep(rest, i) by {
            if is_sep(rest, i) {
                assert(is_sep(a, i + 1));
            }
        }
        if rest.len() > 0 {
            assert(rest.last() == a.last());
        }
        law_separators_become_dots(rest, b);
        assert(!is_sep(a, 0));
        assert(!is_sep(s, 0)) by {
            if a.len() == 1 {
                assert(s[0] == a.last());
            } else {
                assert(s[0] == a[0] && s[1] == a[1]);
            }
        }
        assert(s.skip(1) =~= rest + "__"@ + b);
        assert(seq![a[0]] + (rest + "."@ + dotted(b)) =~= a + "."@ + dotted(b));
        assert(seq![a[0]] + rest =~= a);
    }
}

/// The first place of a character is behind all that holds none.
pub proof fn law_first_place_of_a_character(a: Seq<char>, c: char, b: Seq<char>)
    requires
        !a.contains(c),
    ensures
        first_of(a.push(c) + b, c) == Some(a.len() as int),
        first_of(a, c) is None,
    decreases a.len(),
{
    let s = a.push(c) + b;
    if a.len() > 0 {
        let rest = a.skip(1);
        assert(!rest.contains(c)) by {
            if rest.contains(c) {
                let i = choose|i: int| 0 <= i < rest.len() && rest[i] == c;
                assert(a[i + 1] == c);
            }
        }
        law_first_place_of_a_character(rest, c, b);
        assert(s.skip(1) =~= rest.push(c) + b);
        assert(a.contains(a[0]));
        assert(s[0] == a[0]);
    }
}

/// Replacing a character changes every place at which it stands, and no other.
pub proof fn law_replacing_changes_one_character(s: Seq<char>, from: char, to: char, i: int)
    requires
        0 <= i < s.len(),
    ensures
        replaced(s, from, to).len() == s.len(),
        s[i] == from ==> replaced(s, from, to)[i] == to,
        s[i] != from ==> replaced(s, from, to)[i] == s[i],
{
}

/// The number that decimal digits stand for.
pub open spec fn number_of(s: Seq<char>) -> int
    decreases s.len(),
{
    if s.len() == 0 {
        0
    } else {
        number_of(s.drop_last()) * 10 + (s.last() as int - '0' as int)
    }
}

/// A natural number in decimal is made of digits that stand for it, without a zero in front; a negative
/// number has a minus sign in front of the digits.
pub proof fn law_decimal_texts_read_back(n: nat)
    ensures
        number_of(decimal(n as int)) == n,
        forall|i: int|
            0 <= i < decimal(n as int).len() ==> '0' <= #[trigger] decimal(n as int)[i] <= '9',
        decimal(n as int).len() >= 1,
        decimal(n as int).len() > 1 ==> decimal(n as int)[0] != '0',
        n > 0 ==> decimal(-(n as int)) == seq!['-'] + decimal(n as int),
    decreases n,
{
    let s = decimal_nat(n);
    if n < 10 {
        assert(s.drop_last() =~= Seq::empty());
        assert(number_of(s.drop_last()) == 0);
        assert(digit(n) as int == 48 + n);
    } else {
        law_decimal_texts_read_back(n / 10);
        let d = n % 10;
        assert(s.drop_last() =~= decimal_nat(n / 10));
        assert(digit(d) as int == 48 + d);
        assert forall|i: int| 0 <= i < s.len() implies '0' <= #[trigger] s[i] <= '9' by {
            if i < s.len() - 1 {
                assert(s[i] == decimal((n / 10) as int)[i]);
            }
        }
        let t = decimal((n / 10) as int);
        assert(s[0] == t[0]);
        if t.len() == 1 {
            assert(number_of(t) == t[0] as int - 48) by {
                reveal_with_fuel(number_of, 2);
                assert(t.drop_last() =~= Seq::empty());
            }
        }
    }
}

/// The number that a hexadecimal digit stands for.
pub open spec fn hex_value(c: char) -> int {
    if '0' <= c <= '9' {
        c as int - '0' as int
    } else if 'A' <= c <= 'F' {
        c as int - 'A' as int + 10
    } else {
        c as int - 'a' as int + 10
    }
}

/// The number that hexadecimal digits stand for.
pub open spec fn hex_number_of(s: Seq<char>) -> int
    decreases s.len(),
{
    if s.len() == 0 {
        0
    } else {
        hex_number_of(s.drop_last()) * 16 + hex_value(s.last())
    }
}

/// A number in hexadecimal is made of digits that stand for it, of the letters asked for, at least as
/// many as asked for; and no more than these if the number takes no more.
pub proof fn law_hexadecimal_texts_read_back(n: nat, digits: nat, upper: bool)
    ensures
        hex_number_of(hex(n, digits, upper)) == n,
        hex(n, digits, upper).len() >= digits,
        hex(n, digits, upper).len() >= 1,
        hex(n, digits, upper).len() > 1 && hex(n, digits, upper).len() > digits ==> hex(
            n,
            digits,
            upper,
        )[0] != '0',
        forall|i: int|
            0 <= i < hex(n, digits, upper).len() ==> '0' <= #[trigger] hex(n, digits, upper)[i] <= '9'
                || if upper {
                'A' <= hex(n, digits, upper)[i] <= 'F'
            } else {
                'a' <= hex(n, digits, upper)[i] <= 'f'
            },
    decreases n, digits,
{
    let s = hex(n, digits, upper);
    let d = n % 16;
    assert(hex_value(hex_digit(d, upper)) == d);
    if n < 16 && digits <= 1 {
        assert(s.drop_last() =~= Seq::empty());
        assert(hex_number_of(s.drop_last()) == 0);
    } else {
        let less = (if digits > 0 {
            digits - 1
        } else {
            0
        }) as nat;
        law_hexadecimal_texts_read_back(n / 16, less, upper);
        let t = hex(n / 16, less, upper);
        assert(s.drop_last() =~= t);
        assert forall|i: int| 0 <= i < s.len() implies '0' <= #[trigger] s[i] <= '9' || if upper {
            'A' <= s[i] <= 'F'
        } else {
            'a' <= s[i] <= 'f'
        } by {
            if i < s.len() - 1 {
                assert(s[i] == t[i]);
            }
        }
        assert(s[0] == t[0]);
        if s.len() > digits && t.len() == 1 {
            assert(hex_number_of(t) == hex_value(t[0])) by {
                reveal_with_fuel(hex_number_of, 2);
                assert(t.drop_last() =~= Seq::empty());
            }
        }
    }
}

/// The file name in a path is what stands behind the last backslash, whatever slashes it holds; in
/// a path without a backslash, what stands behind the last slash; and else all of it.
pub proof fn law_file_names_stand_behind_directories(directory: Seq<char>, file: Seq<char>)
    requires
        !file.contains('\\'),
    ensures
        file_name(directory.push('\\') + file) == file,
        !directory.contains('\\') && !file.contains('/') ==> file_name(directory.push('/') + file)
            == file,
        !file.contains('/') ==> file_name(file) == file,
{
    lemma_last_place(directory, '\\', file);
    let a = directory.push('\\') + file;
    let b = directory.push('/') + file;
    assert(a.skip((directory.len() + 1) as int) =~= file);
    assert(b.skip((directory.len() + 1) as int) =~= file);
    lemma_after_last(file, '\\');
    lemma_after_last(file, '/');
    if !file.contains('/') {
        lemma_last_place(directory, '/', file);
    }
    if !directory.contains('\\') {
        lemma_after_last(b, '\\');
        if let Some(p) = last_of(b, '\\') {
            if p < directory.len() {
                assert(b[p] == directory[p]);
            } else if p > directory.len() {
                assert(b[p] == file[p - directory.len() - 1]);
            }
        }
    }
}

proof fn lemma_last_place(a: Seq<char>, c: char, b: Seq<char>)
    requires
        !b.contains(c),
    ensures
        last_of(a.push(c) + b, c) == Some(a.len() as int),
{
    let s = a.push(c) + b;
    lemma_after_last(s, c);
    assert(s[a.len() as int] == c);
    if let Some(p) = last_of(s, c) {
        if p > a.len() {
            assert(s[p] == b[p - a.len() - 1]);
        }
    }
}

/// The simple name of a unit is its file name, as long as that, with underscores in the places of dots.
pub proof fn law_simple_names_keep_all_but_dots(directory: Seq<char>, file: Seq<char>, i: int)
    requires
        !file.contains('\\'),
        !file.contains('/'),
        0 <= i < file.len(),
    ensures
        simple_name(directory.push('\\') + file).len() == file.len(),
        file[i] == '.' ==> simple_name(directory.push('\\') + file)[i] == '_',
        file[i] != '.' ==> simple_name(directory.push('\\') + file)[i] == file[i],
        !directory.contains('\\') ==> simple_name(directory.push('/') + file) == simple_name(file),
        simple_name(directory.push('\\') + file) == simple_name(file),
{
    law_file_names_stand_behind_directories(directory, file);
}

/// A unit with a name is labelled with its simple name, any other one with its number.
pub proof fn law_units_are_labelled(dd: DebugData, unit_idx: int)
    requires
        0 <= unit_idx,
    ensures
        unit_idx < dd.unit_names@.len() ==> (dd.unit_names@[unit_idx] matches Some(path)
            ==> dd.unit_name(unit_idx) == Some(simple_name(path@)) && dd.unit_label(unit_idx)
            == simple_name(path@)),
        unit_idx >= dd.unit_names@.len() || dd.unit_names@[unit_idx] is None ==> dd.unit_name(
            unit_idx,
        ) is None && number_of(dd.unit_label(unit_idx)) == unit_idx,
{
    law_decimal_texts_read_back(unit_idx as nat);
}

/// The signature of the target stands in the first variable whose name begins with `XCPLITE__`, behind
/// that; without such a variable there is none.
pub proof fn law_signature_is_that_of_the_first_marker(
    vars: Seq<(Seq<char>, Seq<VarInfo>)>,
    i: int,
    k: int,
    signature: Seq<char>,
)
    requires
        0 <= i <= vars.len(),
    ensures
        i <= k < vars.len() && vars[k].0 == "XCPLITE__"@ + signature && (forall|j: int|
            i <= j < k ==> !begins_with((#[trigger] vars[j]).0, "XCPLITE__"@)) ==> signature_from(
            vars,
            i,
        ) == Some(signature),
        (forall|j: int|
            i <= j < vars.len() ==> !begins_with((#[trigger] vars[j]).0, "XCPLITE__"@))
            ==> signature_from(vars, i) is None,
    decreases vars.len() - i,
{
    if i < vars.len() {
        law_prefixes_come_off("XCPLITE__"@, signature, vars[i].0);
        law_signature_is_that_of_the_first_marker(vars, i + 1, k, signature);
    }
}

} // verus!
