//! What the `object` crate reads from the bytes of an object file: its sections and symbols.
use object::{Object, ObjectSection, ObjectSymbol};
use vstd::prelude::*;

use crate::debuginfo::opt_text;

verus! {

/// The error of the `object` crate.
#[verifier::external_type_specification]
#[verifier::external_body]
pub struct ExObjectError(object::read::Error);

/// Whether `object::File::parse` accepts the bytes of a file.
pub uninterp spec fn object_parses(data: Seq<u8>) -> bool;

/// Whether `Object::is_little_endian` holds of a file.
pub uninterp spec fn object_little_endian(data: Seq<u8>) -> bool;

/// The sections of a file that `Object::sections` goes through: name, if it can be read, address and
/// size.
pub uninterp spec fn object_sections(data: Seq<u8>) -> Seq<(Option<Seq<char>>, u64, u64)>;

/// The symbols of a file that `Object::symbols` goes through: name, if it can be read, and address.
pub uninterp spec fn object_symbols(data: Seq<u8>) -> Seq<(Option<Seq<char>>, u64)>;

/// The section that `Object::section_by_name` finds: its address, and its bytes if they can be read.
pub uninterp spec fn object_section(data: Seq<u8>, name: Seq<char>) -> Option<
    (u64, Option<Seq<u8>>),
>;

/// The sections in a list.
pub open spec fn section_views(v: Seq<(Option<String>, u64, u64)>) -> Seq<
    (Option<Seq<char>>, u64, u64),
> {
    v.map_values(|s: (Option<String>, u64, u64)| (opt_text(s.0), s.1, s.2))
}

/// The symbols in a list.
pub open spec fn symbol_views(v: Seq<(Option<String>, u64)>) -> Seq<(Option<Seq<char>>, u64)> {
    v.map_values(|s: (Option<String>, u64)| (opt_text(s.0), s.1))
}

/// `object::File::parse` accepts the bytes of a file or gives an error.
#[verifier::external_body]
pub(crate) fn parse_object(data: &[u8]) -> (r: Result<(), object::read::Error>)
    ensures
        r is Ok <==> object_parses(data@),
{
    object::File::parse(data).map(|_| ())
}

/// `Object::is_little_endian` tells the byte order of a file.
#[verifier::external_body]
pub(crate) fn is_little_endian(data: &[u8]) -> (r: bool)
    requires
        object_parses(data@),
    ensures
        r == object_little_endian(data@),
{
    object::File::parse(data).unwrap().is_little_endian()
}

/// `Object::sections` goes through the sections of a file; `ObjectSection::name`, `address` and
/// `size` tell of each.
#[verifier::external_body]
pub(crate) fn list_sections(data: &[u8]) -> (v: Vec<(Option<String>, u64, u64)>)
    requires
        object_parses(data@),
    ensures
        section_views(v@) == object_sections(data@),
{
    let file = object::File::parse(data).unwrap();
    let sections = file.sections();
    sections.map(|s| (s.name().ok().map(|n| n.to_string()), s.address(), s.size())).collect()
}

/// `Object::symbols` goes through the symbols of a file; `ObjectSymbol::name` and `address` tell of
/// each.
#[verifier::external_body]
pub(crate) fn list_symbols(data: &[u8]) -> (v: Vec<(Option<String>, u64)>)
    requires
        object_parses(data@),
    ensures
        symbol_views(v@) == object_symbols(data@),
{
    let file = object::File::parse(data).unwrap();
    let symbols = file.symbols();
    symbols.map(|s| (s.name().ok().map(|n| n.to_string()), s.address())).collect()
}

/// `Object::section_by_name` finds a section by its name; `ObjectSection::address` and `data` give
/// its address and its bytes, or an error for the bytes.
#[verifier::external_body]
pub(crate) fn find_section<'a>(data: &'a [u8], name: &str) -> (r: Option<
    (u64, Result<&'a [u8], object::read::Error>),
>)
    requires
        object_parses(data@),
    ensures
        match r {
            Some((addr, Ok(bytes))) => object_section(data@, name@) == Some((addr, Some(bytes@))),
            Some((addr, Err(_))) => object_section(data@, name@) == Some(
                (addr, None::<Seq<u8>>),
            ),
            None => object_section(data@, name@) is None,
        },
{
    let file = object::File::parse(data).unwrap();
    let section = file.section_by_name(name);
    section.map(|s| (s.address(), s.data()))
}

} // verus!
