//! Text as a sequence of characters: prefixes and suffixes, the `__` separator of marker
//! variable names, file names and decimal numbers.
use vstd::prelude::*;
use vstd::string::*;

verus! {

/// `String::push` appends one character to a string.
pub assume_specification[ String::push ](s: &mut String, c: char)
    ensures
        final(s)@ == old(s)@.push(c),
;

/// The characters of a string.
pub fn chars_of(s: &str) -> (v: Vec<char>)
    ensures
        v@ == s@,
{
    let mut v: Vec<char> = Vec::new();
    for c in it: s.chars()
        invariant
            it.seq() == s@,
            v@ == s@.take(it.index()),
    {
        assert(s@.take(it.index() + 1) =~= s@.take(it.index()).push(s@[it.index()]));
        v.push(c);
    }
    assert(s@.take(s@.len() as int) =~= s@);
    v
}

/// Whether two texts hold the same characters.
pub fn same_text(a: &str, b: &str) -> (r: bool)
    ensures
        r == (a@ == b@),
{
    a.to_owned() == b.to_owned()
}

/// Whether `s` begins with `prefix`.
pub fn starts_with(s: &str, prefix: &str) -> (r: bool)
    ensures
        r == prefix@.is_prefix_of(s@),
{
    let n: usize = prefix.unicode_len();
    if s.unicode_len() < n {
        return false;
    }
    same_text(s.substring_char(0, n), prefix)
}

/// Whether `s` ends with `suffix`.
pub fn ends_with(s: &str, suffix: &str) -> (r: bool)
    ensures
        r == suffix@.is_suffix_of(s@),
{
    let n: usize = suffix.unicode_len();
    let len: usize = s.unicode_len();
    if len < n {
        return false;
    }
    same_text(s.substring_char(len - n, len), suffix)
}

/// What follows `prefix` in `text`, if `text` begins with it.
pub open spec fn stripped(text: Seq<char>, prefix: Seq<char>) -> Option<Seq<char>> {
    if prefix.is_prefix_of(text) {
        Some(text.skip(prefix.len() as int))
    } else {
        None
    }
}

/// What follows `prefix` in `s`, if `s` begins with it.
pub fn strip_prefix<'a>(s: &'a str, prefix: &str) -> (r: Option<&'a str>)
    ensures
        r is Some <==> stripped(s@, prefix@) is Some,
        r matches Some(t) ==> stripped(s@, prefix@) == Some(t@),
{
    if starts_with(s, prefix) {
        let t = s.substring_char(prefix.unicode_len(), s.unicode_len());
        assert(t@ =~= s@.skip(prefix@.len() as int));
        Some(t)
    } else {
        None
    }
}

/// The separator `__` stands at position `i`.
pub open spec fn is_sep(s: Seq<char>, i: int) -> bool {
    0 <= i && i + 1 < s.len() && s[i] == '_' && s[i + 1] == '_'
}

/// The first position at or after `from` at which the separator stands.
pub open spec fn first_sep(s: Seq<char>, from: int) -> Option<int>
    decreases s.len() - from,
{
    if from < 0 || from + 1 >= s.len() {
        None
    } else if is_sep(s, from) {
        Some(from)
    } else {
        first_sep(s, from + 1)
    }
}

/// The text before the first separator, or all of it.
pub open spec fn before_sep(s: Seq<char>) -> Seq<char> {
    match first_sep(s, 0) {
        Some(i) => s.take(i),
        None => s,
    }
}

/// The text behind the first separator.
pub open spec fn after_sep(s: Seq<char>) -> Option<Seq<char>> {
    match first_sep(s, 0) {
        Some(i) => Some(s.skip(i + 2)),
        None => None,
    }
}

/// All of the text behind the first separator; empty if there is none.
pub open spec fn behind_sep(s: Seq<char>) -> Seq<char> {
    match after_sep(s) {
        Some(t) => t,
        None => Seq::empty(),
    }
}

/// A found separator is the first one: none stands between `from` and it.
pub proof fn lemma_first_sep(s: Seq<char>, from: int)
    requires
        0 <= from,
    ensures
        match first_sep(s, from) {
            Some(i) => from <= i && is_sep(s, i) && forall|k: int| from <= k < i ==> !is_sep(s, k),
            None => forall|k: int| from <= k ==> !is_sep(s, k),
        },
    decreases s.len() - from,
{
    if from + 1 >= s.len() || is_sep(s, from) {
    } else {
        lemma_first_sep(s, from + 1);
    }
}

/// A text is what stands before its first separator, the separator, and what stands behind it; and
/// no separator stands before the first.
pub proof fn law_cutting_at_a_separator_loses_nothing(s: Seq<char>)
    ensures
        after_sep(s) matches Some(t) ==> s == before_sep(s) + seq!['_', '_'] + t,
        forall|i: int| !is_sep(before_sep(s), i),
{
    lemma_first_sep(s, 0);
    if let Some(k) = first_sep(s, 0) {
        assert(s =~= before_sep(s) + seq!['_', '_'] + s.skip(k + 2));
        assert forall|i: int| !is_sep(before_sep(s), i) by {
            if is_sep(before_sep(s), i) {
                assert(is_sep(s, i));
            }
        }
    }
}

/// Cuts a text at its first separator.
pub fn split_sep(s: &str) -> (r: Option<(&str, &str)>)
    ensures
        r is Some <==> after_sep(s@) is Some,
        r matches Some((a, b)) ==> a@ == before_sep(s@) && Some(b@) == after_sep(s@),
{
    let v = chars_of(s);
    let n: usize = v.len();
    let mut i: usize = 0;
    while n - i >= 2
        invariant
            n == v.len(),
            v@ == s@,
            i <= n,
            first_sep(s@, 0) == first_sep(s@, i as int),
        decreases n - i,
    {
        if v[i] == '_' && v[i + 1] == '_' {
            let a = s.substring_char(0, i);
            let b = s.substring_char(i + 2, n);
            assert(a@ =~= s@.take(i as int));
            assert(b@ =~= s@.skip(i + 2));
            return Some((a, b));
        }
        i = i + 1;
    }
    None
}

/// The text before the first separator and all of the text behind it.
pub fn cut_at_sep(s: &str) -> (r: (&str, &str))
    ensures
        r.0@ == before_sep(s@),
        r.1@ == behind_sep(s@),
{
    match split_sep(s) {
        Some(pieces) => pieces,
        None => {
            let e = s.substring_char(0, 0);
            assert(e@ =~= Seq::<char>::empty());
            (s, e)
        },
    }
}

/// A text stands in `s`, at position `i`.
pub open spec fn stands_at(s: Seq<char>, t: Seq<char>, i: int) -> bool {
    0 <= i && i + t.len() <= s.len() && s.subrange(i, i + t.len()) == t
}

/// Whether a text stands in `s`, at position `i`.
pub fn text_stands_at(s: &Vec<char>, t: &Vec<char>, i: usize) -> (r: bool)
    ensures
        r == stands_at(s@, t@, i as int),
{
    let n: usize = s.len();
    let m: usize = t.len();
    if i > n || n - i < m {
        return false;
    }
    let ghost found = s@.subrange(i as int, i + t@.len());
    let mut j: usize = 0;
    while j < m
        invariant
            n == s@.len(),
            m == t@.len(),
            i + m <= n,
            j <= m,
            found == s@.subrange(i as int, i + t@.len()),
            forall|k: int| 0 <= k < j ==> found[k] == #[trigger] t@[k],
        decreases m - j,
    {
        if s[i + j] != t[j] {
            assert(found[j as int] != t@[j as int]);
            return false;
        }
        j = j + 1;
    }
    assert(found =~= t@);
    true
}

/// A decimal digit.
pub open spec fn is_digit(c: char) -> bool {
    48 <= c as int <= 57
}

/// Whether a character is an ASCII character.
pub fn char_is_ascii(c: char) -> (r: bool)
    ensures
        r == (c as int <= 127),
{
    c as u32 <= 127
}

/// Whether a character is a decimal digit.
pub fn char_is_digit(c: char) -> (r: bool)
    ensures
        r == is_digit(c),
{
    48 <= c as u32 && c as u32 <= 57
}

/// The text with every separator, read from the left, replaced by a dot.
pub open spec fn dotted(s: Seq<char>) -> Seq<char>
    decreases s.len(),
{
    if s.len() == 0 {
        s
    } else if is_sep(s, 0) {
        seq!['.'] + dotted(s.skip(2))
    } else {
        seq![s[0]] + dotted(s.skip(1))
    }
}

/// No separator is left in a text whose separators were replaced by dots.
pub proof fn law_no_separator_is_left(s: Seq<char>, i: int)
    ensures
        !is_sep(dotted(s), i),
    decreases s.len(),
{
    if s.len() > 0 {
        let d = dotted(s);
        let rest = if is_sep(s, 0) {
            s.skip(2)
        } else {
            s.skip(1)
        };
        law_no_separator_is_left(rest, i - 1);
        let r = dotted(rest);
        assert(d.len() == r.len() + 1);
        if 0 <= i - 1 && i < d.len() {
            assert(d[i] == r[i - 1]);
        }
        if 0 <= i && i + 1 < d.len() {
            assert(d[i + 1] == r[i]);
        }
        if i == 0 && !is_sep(s, 0) && r.len() > 0 {
            assert(d[0] == s[0]);
            if s[0] == '_' {
                assert(rest[0] == s[1]);
                assert(r[0] == '.' || r[0] == rest[0]);
            }
        }
    }
}

/// Replaces every separator by a dot.
pub fn dot_path(s: &str) -> (r: String)
    ensures
        r@ == dotted(s@),
{
    let v = chars_of(s);
    let n: usize = v.len();
    let mut out = String::new();
    let mut i: usize = 0;
    assert(s@.skip(0) =~= s@);
    while i < n
        invariant
            n == v.len(),
            v@ == s@,
            i <= n,
            out@ + dotted(s@.skip(i as int)) == dotted(s@),
        decreases n - i,
    {
        let ghost rest = s@.skip(i as int);
        if n - i >= 2 && v[i] == '_' && v[i + 1] == '_' {
            assert(is_sep(rest, 0));
            assert(rest.skip(2) =~= s@.skip(i + 2));
            let ghost before = out@;
            out.push('.');
            assert(before + (seq!['.'] + dotted(s@.skip(i + 2))) =~= out@ + dotted(s@.skip(i + 2)));
            i = i + 2;
        } else {
            assert(!is_sep(rest, 0));
            assert(rest.skip(1) =~= s@.skip(i + 1));
            let ghost before = out@;
            out.push(v[i]);
            assert(before + (seq![s@[i as int]] + dotted(s@.skip(i + 1))) =~= out@ + dotted(
                s@.skip(i + 1),
            ));
            i = i + 1;
        }
    }
    assert(s@.skip(n as int) =~= Seq::<char>::empty());
    assert(out@ =~= out@ + dotted(s@.skip(n as int)));
    out
}

/// The first position of a character.
pub open spec fn first_of(s: Seq<char>, c: char) -> Option<int>
    decreases s.len(),
{
    if s.len() == 0 {
        None
    } else if s[0] == c {
        Some(0int)
    } else {
        match first_of(s.skip(1), c) {
            Some(i) => Some(i + 1),
            None => None,
        }
    }
}

/// Cuts a text at the first occurrence of a character.
pub fn split_at_char(s: &str, c: char) -> (r: Option<(&str, &str)>)
    ensures
        r is Some <==> first_of(s@, c) is Some,
        r matches Some((a, b)) ==> {
            &&& a@ == s@.take(first_of(s@, c)->0)
            &&& b@ == s@.skip(first_of(s@, c)->0 + 1)
        },
{
    let v = chars_of(s);
    let n: usize = v.len();
    let mut i: usize = 0;
    assert(s@.skip(0) =~= s@);
    while i < n
        invariant
            n == v.len(),
            v@ == s@,
            i <= n,
            match first_of(s@.skip(i as int), c) {
                Some(k) => first_of(s@, c) == Some(i + k),
                None => first_of(s@, c) is None,
            },
        decreases n - i,
    {
        let ghost rest = s@.skip(i as int);
        assert(rest.skip(1) =~= s@.skip(i + 1));
        assert(rest[0] == v[i as int]);
        if v[i] == c {
            let a = s.substring_char(0, i);
            let b = s.substring_char(i + 1, n);
            assert(a@ =~= s@.take(i as int));
            assert(b@ =~= s@.skip(i + 1));
            return Some((a, b));
        }
        i = i + 1;
    }
    None
}

/// The last position of a character.
pub open spec fn last_of(s: Seq<char>, c: char) -> Option<int>
    decreases s.len(),
{
    if s.len() == 0 {
        None
    } else if s.last() == c {
        Some(s.len() - 1)
    } else {
        last_of(s.drop_last(), c)
    }
}

/// The last position that is found holds the character, and no later one does; none is missed.
pub proof fn lemma_after_last(s: Seq<char>, c: char)
    ensures
        match last_of(s, c) {
            Some(p) => 0 <= p < s.len() && s[p] == c && forall|i: int|
                p < i < s.len() ==> #[trigger] s[i] != c,
            None => forall|i: int| 0 <= i < s.len() ==> #[trigger] s[i] != c,
        },
    decreases s.len(),
{
    if s.len() > 0 && s.last() != c {
        lemma_after_last(s.drop_last(), c);
        assert forall|i: int| 0 <= i < s.len() - 1 implies s.drop_last()[i] == #[trigger] s[i] by {}
    }
}

/// The text behind the last occurrence of a character, if there is one.
pub fn after_last(s: &str, c: char) -> (r: Option<&str>)
    ensures
        r is Some <==> last_of(s@, c) is Some,
        r matches Some(t) ==> t@ == s@.skip(last_of(s@, c)->0 + 1),
{
    let v = chars_of(s);
    let n: usize = v.len();
    let mut i: usize = n;
    assert(s@.take(n as int) =~= s@);
    while i > 0
        invariant
            n == v.len(),
            v@ == s@,
            i <= n,
            last_of(s@, c) == last_of(s@.take(i as int), c),
        decreases i,
    {
        assert(s@.take(i as int).drop_last() =~= s@.take(i - 1));
        assert(s@.take(i as int).last() == v[i - 1]);
        if v[i - 1] == c {
            let t = s.substring_char(i, n);
            assert(t@ =~= s@.skip(i as int));
            return Some(t);
        }
        i = i - 1;
    }
    None
}

/// The text with every `from` replaced by `to`.
pub open spec fn replaced(s: Seq<char>, from: char, to: char) -> Seq<char> {
    s.map_values(
        |c: char|
            if c == from {
                to
            } else {
                c
            },
    )
}

/// Replaces every `from` by `to`.
pub fn replace_char(s: &str, from: char, to: char) -> (r: String)
    ensures
        r@ == replaced(s@, from, to),
{
    let mut out = String::new();
    for c in it: s.chars()
        invariant
            it.seq() == s@,
            out@ == replaced(s@, from, to).take(it.index()),
    {
        let ghost all = replaced(s@, from, to);
        assert(all.take(it.index() + 1) =~= all.take(it.index()).push(all[it.index()]));
        if c == from {
            out.push(to);
        } else {
            out.push(c);
        }
    }
    assert(replaced(s@, from, to).take(s@.len() as int) =~= replaced(s@, from, to));
    out
}

/// Whether a character occurs in a text.
pub fn has_char(s: &str, c: char) -> (r: bool)
    ensures
        r == s@.contains(c),
{
    let v = chars_of(s);
    let n: usize = v.len();
    for i in 0..n
        invariant
            n == v.len(),
            v@ == s@,
            forall|k: int| 0 <= k < i ==> s@[k] != c,
    {
        if v[i] == c {
            assert(s@[i as int] == c);
            return true;
        }
    }
    false
}

/// The decimal digit of a number below ten.
pub open spec fn digit(d: nat) -> char {
    (48 + d) as u8 as char
}

/// The decimal digits of a natural number, without leading zeros.
pub open spec fn decimal_nat(n: nat) -> Seq<char>
    decreases n,
{
    if n < 10 {
        seq![digit(n)]
    } else {
        decimal_nat(n / 10).push(digit(n % 10))
    }
}

/// An integer in decimal, with a leading minus sign if it is negative.
pub open spec fn decimal(i: int) -> Seq<char> {
    if i < 0 {
        seq!['-'] + decimal_nat((-i) as nat)
    } else {
        decimal_nat(i as nat)
    }
}

/// Appends the decimal digits of a number to a string.
fn push_decimal(s: &mut String, n: u64)
    ensures
        final(s)@ == old(s)@ + decimal_nat(n as nat),
    decreases n,
{
    if n >= 10 {
        push_decimal(s, n / 10);
    }
    let ghost before = s@;
    s.push((48u8 + (n % 10) as u8) as char);
    assert(s@ =~= old(s)@ + decimal_nat(n as nat));
}

/// A number in decimal.
pub fn decimal_u64(n: u64) -> (r: String)
    ensures
        r@ == decimal(n as int),
{
    let mut s = String::new();
    push_decimal(&mut s, n);
    assert(s@ =~= decimal(n as int));
    s
}

/// A signed number in decimal.
pub fn decimal_i64(n: i64) -> (r: String)
    ensures
        r@ == decimal(n as int),
{
    let mut s = String::new();
    if n < 0 {
        s.push('-');
        let m: i128 = -(n as i128);
        push_decimal(&mut s, m as u64);
    } else {
        push_decimal(&mut s, n as u64);
    }
    assert(s@ =~= decimal(n as int));
    s
}

/// The texts in a list.
pub open spec fn strings(v: Seq<String>) -> Seq<Seq<char>> {
    v.map_values(|s: String| s@)
}

/// The hexadecimal digit of a number below sixteen.
pub open spec fn hex_digit(d: nat, upper: bool) -> char {
    if d < 10 {
        (48 + d) as u8 as char
    } else if upper {
        (55 + d) as u8 as char
    } else {
        (87 + d) as u8 as char
    }
}

/// A natural number in hexadecimal, filled up with zeros to a number of digits.
pub open spec fn hex(n: nat, digits: nat, upper: bool) -> Seq<char>
    decreases n, digits,
{
    if n < 16 && digits <= 1 {
        seq![hex_digit(n, upper)]
    } else {
        hex(n / 16, (if digits > 0 { digits - 1 } else { 0 }) as nat, upper).push(
            hex_digit(n % 16, upper),
        )
    }
}

/// Appends a number in hexadecimal to a string, filled up with zeros to a number of digits.
fn push_hex(s: &mut String, n: u64, digits: u8, upper: bool)
    ensures
        final(s)@ == old(s)@ + hex(n as nat, digits as nat, upper),
    decreases n, digits,
{
    if n >= 16 || digits > 1 {
        push_hex(
            s,
            n / 16,
            if digits > 0 {
                digits - 1
            } else {
                0
            },
            upper,
        );
    }
    let d: u8 = (n % 16) as u8;
    let c: u8 = if d < 10 {
        48 + d
    } else if upper {
        55 + d
    } else {
        87 + d
    };
    s.push(c as char);
    assert(s@ =~= old(s)@ + hex(n as nat, digits as nat, upper));
}

/// A number in hexadecimal with at least eight digits.
pub fn hex8(n: u64, upper: bool) -> (r: String)
    ensures
        r@ == hex(n as nat, 8, upper),
{
    let mut s = String::new();
    push_hex(&mut s, n, 8, upper);
    assert(s@ =~= hex(n as nat, 8, upper));
    s
}

} // verus!
