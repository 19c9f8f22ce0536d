//! C++ names of variables, demangled by the `cpp_demangle` crate.
use vstd::prelude::*;

use crate::name_map::{lemma_upsert_mapped, mapped, upsert, NameMap};
use crate::text::{
    char_is_ascii, char_is_digit, chars_of, decimal, decimal_i64, has_char, is_digit, stands_at,
    starts_with, text_stands_at,
};

verus! {

/// What `cpp_demangle::Symbol::new` and `Symbol::demangle_with_options`, without parameters and
/// return types, make of a mangled name.
pub uninterp spec fn cpp_demangled(name: Seq<char>) -> Option<Seq<char>>;

/// The code of a template parameter with the highest number that `isize` takes.
pub open spec fn highest_param() -> Seq<char> {
    "T"@ + decimal(isize::MAX as int)
}

/// The code of that template parameter stands at a position, and the number ends with it.
pub open spec fn highest_param_at(name: Seq<char>, i: int) -> bool {
    let end = i + highest_param().len();
    stands_at(name, highest_param(), i) && !(end < name.len() && is_digit(name[end]))
}

/// The code of that template parameter stands in a name.
pub open spec fn has_highest_param(name: Seq<char>) -> bool {
    exists|i: int| #[trigger] highest_param_at(name, i)
}

/// Whether the code of the template parameter with the highest number stands in a name.
fn find_highest_param(name: &Vec<char>) -> (r: bool)
    ensures
        r == has_highest_param(name@),
{
    let mut param = "T".to_owned();
    let number = decimal_i64(isize::MAX as i64);
    param.append(number.as_str());
    let code = chars_of(param.as_str());
    assert(code@ == highest_param());
    let n: usize = name.len();
    let m: usize = code.len();
    for i in 0..n
        invariant
            n == name@.len(),
            m == code@.len(),
            code@ == highest_param(),
            m > 0,
            forall|k: int| 0 <= k < i ==> !#[trigger] highest_param_at(name@, k),
    {
        if text_stands_at(name, &code, i) && !(n - i > m && char_is_digit(name[i + m])) {
            assert(highest_param_at(name@, i as int));
            return true;
        }
    }
    false
}

/// The number that the digits from a position on stand for, behind the digits of `start`, and the
/// end of the digits.
pub open spec fn number_at(s: Seq<char>, i: int, start: nat) -> (nat, int)
    decreases s.len() - i,
{
    if 0 <= i < s.len() && is_digit(s[i]) {
        number_at(s, i + 1, start * 10 + (s[i] as int - 48) as nat)
    } else {
        (start, i)
    }
}

/// A number does not get smaller with more digits.
proof fn lemma_number_at(s: Seq<char>, i: int, start: nat)
    ensures
        number_at(s, i, start).0 >= start,
        number_at(s, i, start).1 >= i,
    decreases s.len() - i,
{
    if 0 <= i < s.len() && is_digit(s[i]) {
        lemma_number_at(s, i + 1, start * 10 + (s[i] as int - 48) as nat);
    }
}

/// The end of the source name that begins at a position: a length without leading zeros, and as many
/// characters.
pub open spec fn source_name_end(s: Seq<char>, i: int) -> Option<int> {
    let (n, end) = number_at(s, i, 0);
    if 0 <= i < s.len() && is_digit(s[i]) && s[i] != '0' && end + n <= s.len() {
        Some(end + n)
    } else {
        None
    }
}

/// The end of the source name that begins at a position.
fn find_source_name_end(s: &Vec<char>, i: usize) -> (r: Option<usize>)
    ensures
        match r {
            Some(end) => source_name_end(s@, i as int) == Some(end as int) && i < end <= s@.len(),
            None => source_name_end(s@, i as int) is None,
        },
{
    let len: usize = s.len();
    if i >= len || !char_is_digit(s[i]) || s[i] == '0' {
        return None;
    }
    let mut n: u128 = 0;
    let mut end: usize = i;
    while end < len && char_is_digit(s[end])
        invariant
            len == s@.len(),
            i < len,
            i <= end <= len,
            is_digit(s@[i as int]),
            n <= len,
            number_at(s@, i as int, 0) == number_at(s@, end as int, n as nat),
        decreases len - end,
    {
        n = n * 10 + (s[end] as u32 - 48) as u128;
        end = end + 1;
        proof {
            lemma_number_at(s@, end as int, n as nat);
        }
        if n > len as u128 {
            return None;
        }
    }
    if n > (len - end) as u128 {
        None
    } else {
        proof {
            if end == i {
                assert(is_digit(s@[end as int]));
            }
        }
        Some(end + n as usize)
    }
}

/// The end of the source name that begins at a position, with or without the `L` of a name that is
/// local to its file.
pub open spec fn plain_part_end(s: Seq<char>, i: int) -> Option<int> {
    if 0 <= i < s.len() && s[i] == 'L' {
        source_name_end(s, i + 1)
    } else {
        source_name_end(s, i)
    }
}

/// The end of the source name that begins at a position, with or without an `L`.
fn find_plain_part_end(s: &Vec<char>, i: usize) -> (r: Option<usize>)
    ensures
        match r {
            Some(end) => plain_part_end(s@, i as int) == Some(end as int) && i < end <= s@.len(),
            None => plain_part_end(s@, i as int) is None,
        },
{
    if i < s.len() && s[i] == 'L' {
        find_source_name_end(s, i + 1)
    } else {
        find_source_name_end(s, i)
    }
}

/// From a position on there are source names only.
pub open spec fn only_source_names(s: Seq<char>, i: int) -> bool
    decreases s.len() - i,
{
    i == s.len() || (plain_part_end(s, i) matches Some(end) && end > i && only_source_names(s, end))
}

/// Whether from a position on there are source names only.
fn find_only_source_names(s: &Vec<char>, start: usize) -> (r: bool)
    requires
        start <= s@.len(),
    ensures
        r == only_source_names(s@, start as int),
{
    let len: usize = s.len();
    let mut i: usize = start;
    while i < len
        invariant
            len == s@.len(),
            start <= i <= len,
            only_source_names(s@, start as int) == only_source_names(s@, i as int),
        decreases len - i,
    {
        match find_plain_part_end(s, i) {
            Some(end) => {
                i = end;
            },
            None => {
                return false;
            },
        }
    }
    true
}

/// A name is made of source names alone: `_Z` and one source name, or `_ZN`, source names and `E`,
/// in ASCII. An `L` may stand before a source name.
pub open spec fn is_plain(name: Seq<char>) -> bool {
    &&& forall|i: int| 0 <= i < name.len() ==> (#[trigger] name[i]) as int <= 127
    &&& {
        ||| "_Z"@.is_prefix_of(name) && plain_part_end(name, 2) == Some(name.len() as int)
        ||| "_ZN"@.is_prefix_of(name) && name.last() == 'E' && only_source_names(
            name.drop_last(),
            3,
        )
    }
}

/// Whether a name is made of source names alone.
fn find_plain(name: &str) -> (r: bool)
    ensures
        r == is_plain(name@),
{
    let mut v = chars_of(name);
    let n: usize = v.len();
    for i in 0..n
        invariant
            n == v@.len(),
            v@ == name@,
            forall|k: int| 0 <= k < i ==> (#[trigger] name@[k]) as int <= 127,
    {
        if !char_is_ascii(v[i]) {
            assert(name@[i as int] as int > 127);
            return false;
        }
    }
    proof {
        reveal_strlit("_ZN");
        reveal_strlit("_Z");
    }
    if starts_with(name, "_Z") {
        if let Some(end) = find_plain_part_end(&v, 2) {
            if end == n {
                return true;
            }
        }
    }
    if !starts_with(name, "_ZN") || v[n - 1] != 'E' {
        return false;
    }
    v.truncate(n - 1);
    assert(v@ =~= name@.drop_last());
    n > 3 && find_only_source_names(&v, 3)
}

/// A name can be handed to the demangler. Its parser adds 1 to the number of a template parameter,
/// which the highest number that `isize` takes does not allow. In a name that is made of source names
/// alone there are no template parameters to be read.
pub open spec fn can_parse(name: Seq<char>) -> bool {
    !has_highest_param(name) || is_plain(name)
}

/// Whether a name of a variable can be handed to the demangler, if it is a mangled one.
pub fn check_varname(name: &str) -> (r: bool)
    ensures
        r == ("_Z"@.is_prefix_of(name@) ==> can_parse(name@)),
{
    let v = chars_of(name);
    !starts_with(name, "_Z") || !find_highest_param(&v) || find_plain(name)
}

/// The mangled ones among names of variables can be handed to the demangler.
pub open spec fn can_parse_all(names: Seq<Seq<char>>) -> bool {
    forall|i: int|
        0 <= i < names.len() && "_Z"@.is_prefix_of(#[trigger] names[i]) ==> can_parse(names[i])
}

/// `cpp_demangle::Symbol::new` parses a mangled name and `Symbol::demangle_with_options`, with
/// `DemangleOptions::no_params` and `no_return_type`, writes it out; nothing if one of them fails.
/// Where the parser reads a template parameter it adds 1 to its number, as an `isize`: names in which
/// it could read the highest one are left out.
#[verifier::external_body]
fn demangle(name: &str) -> (r: Option<String>)
    requires
        can_parse(name@),
    ensures
        crate::debuginfo::opt_text(r) == cpp_demangled(name@),
{
    let options = cpp_demangle::DemangleOptions::new().no_params().no_return_type();
    cpp_demangle::Symbol::new(name).ok()?.demangle_with_options(&options).ok()
}

/// A demangled name that says something about a variable; not `typeinfo for ..` or `{vtable..}`.
pub open spec fn is_useful(demangled: Seq<char>) -> bool {
    !demangled.contains(' ') && !"{vtable"@.is_prefix_of(demangled)
}

/// Whether a demangled name says something about a variable.
pub fn is_useful_name(demangled: &str) -> (r: bool)
    ensures
        r == is_useful(demangled@),
{
    !has_char(demangled, ' ') && !starts_with(demangled, "{vtable")
}

/// The demangled name of a variable. Only names that begin with `_Z` are mangled: the demangler
/// would take simple names for the codes of types.
pub open spec fn variable_name(name: Seq<char>) -> Option<Seq<char>> {
    if "_Z"@.is_prefix_of(name) {
        match cpp_demangled(name) {
            Some(demangled) => if is_useful(demangled) {
                Some(demangled)
            } else {
                None
            },
            None => None,
        }
    } else {
        None
    }
}

/// The mangled names among the first `n` names with their demangled names.
pub open spec fn demangled_names(names: Seq<Seq<char>>, n: nat) -> Seq<(Seq<char>, Seq<char>)>
    decreases n,
{
    if n == 0 {
        Seq::empty()
    } else {
        let before = demangled_names(names, (n - 1) as nat);
        match variable_name(names[n - 1]) {
            Some(demangled) => upsert(before, names[n - 1], demangled),
            None => before,
        }
    }
}

/// The entries of a map of names to names.
pub open spec fn name_pairs(m: NameMap<String>) -> Seq<(Seq<char>, Seq<char>)> {
    mapped(m.order(), |s: String| s@)
}

/// The texts of a list of strings.
pub open spec fn texts(v: Seq<&String>) -> Seq<Seq<char>> {
    v.map_values(|s: &String| s@)
}

/// Demangles the names of C++ variables; the result maps each mangled name to its demangled name.
pub fn demangle_cpp_varnames(input: &[&String]) -> (m: NameMap<String>)
    requires
        can_parse_all(texts(input@)),
    ensures
        name_pairs(m) == demangled_names(texts(input@), input@.len()),
{
    let mut m: NameMap<String> = NameMap::new();
    let ghost names = texts(input@);
    let n: usize = input.len();
    assert(name_pairs(m) =~= demangled_names(names, 0));
    for i in 0..n
        invariant
            n == input@.len(),
            names == texts(input@),
            can_parse_all(names),
            name_pairs(m) == demangled_names(names, i as nat),
    {
        let varname = input[i];
        assert(names[i as int] == varname@);
        if starts_with(varname.as_str(), "_Z") {
            if let Some(demangled) = demangle(varname.as_str()) {
                if is_useful_name(demangled.as_str()) {
                    proof {
                        lemma_upsert_mapped(
                            m.order(),
                            |s: String| s@,
                            varname@,
                            demangled,
                        );
                    }
                    m.insert(varname.clone(), demangled);
                }
            }
        }
    }
    m
}

} // verus!
