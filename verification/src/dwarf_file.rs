//! What the `gimli` crate reads from the DWARF sections of a file: its units and their entries.
use gimli::Section;
use vstd::prelude::*;

use crate::object_file::{find_section, object_parses, object_section};

verus! {

/// The bytes of a section: empty if there is no such section, nothing if they cannot be read.
pub open spec fn section_bytes(data: Seq<u8>, name: Seq<char>) -> Option<Seq<u8>> {
    match object_section(data, name) {
        Some((_, bytes)) => bytes,
        None => Some(Seq::empty()),
    }
}

/// The sections that `gimli::Dwarf::load` loads.
pub open spec fn dwarf_section_names() -> Seq<Seq<char>> {
    seq![
        ".debug_abbrev"@,
        ".debug_addr"@,
        ".debug_aranges"@,
        ".debug_info"@,
        ".debug_line"@,
        ".debug_line_str"@,
        ".debug_macinfo"@,
        ".debug_macro"@,
        ".debug_names"@,
        ".debug_str"@,
        ".debug_str_offsets"@,
        ".debug_types"@,
        ".debug_loc"@,
        ".debug_loclists"@,
        ".debug_ranges"@,
        ".debug_rnglists"@,
    ]
}

/// All DWARF sections of a file can be read.
pub open spec fn dwarf_loads(data: Seq<u8>) -> bool {
    forall|i: int|
        0 <= i < dwarf_section_names().len() ==> section_bytes(
            data,
            #[trigger] dwarf_section_names()[i],
        ) is Some
}

/// The bytes of a section; empty if there is no such section.
pub(crate) fn get_file_section_reader<'a>(data: &'a [u8], section_name: &str) -> (r: Result<
    &'a [u8],
    object::read::Error,
>)
    requires
        object_parses(data@),
    ensures
        match r {
            Ok(bytes) => section_bytes(data@, section_name@) == Some(bytes@),
            Err(_) => section_bytes(data@, section_name@) is None,
        },
{
    match find_section(data, section_name) {
        Some((_, r)) => r,
        None => {
            let none: &[u8] = &[];
            assert(none@ =~= Seq::<u8>::empty());
            Ok(none)
        },
    }
}

/// `gimli::Dwarf::load` calls a loader for each DWARF section by its name, stops with the error of
/// the first that fails, and puts what was loaded in the place of each section. Here the loader
/// reads the sections of a file; the bytes of `.debug_info` and `.debug_abbrev` are given.
#[verifier::external_body]
pub(crate) fn load_dwarf_sections(data: &[u8]) -> (r: Result<
    (&[u8], &[u8]),
    object::read::Error,
>)
    requires
        object_parses(data@),
    ensures
        r is Ok <==> dwarf_loads(data@),
        r matches Ok((info, abbrev)) ==> section_bytes(data@, ".debug_info"@) == Some(info@)
            && section_bytes(data@, ".debug_abbrev"@) == Some(abbrev@),
{
    let dwarf = gimli::Dwarf::load(
        |id| get_file_section_reader(data, id.name()).map(|s| gimli::EndianSlice::new(s, gimli::LittleEndian)),
    )?;
    Ok((dwarf.debug_info.reader().slice(), dwarf.debug_abbrev.reader().slice()))
}

/// The units that `gimli::DebugInfo::units` goes through, up to the first that cannot be read: the
/// offset of each in the section, and its length with its header.
pub uninterp spec fn debug_info_units(info: Seq<u8>, little_endian: bool) -> Seq<(usize, usize)>;

/// The entries of the unit at an offset that `gimli::EntriesCursor::next_dfs` goes through, up to
/// the first that cannot be read: depth, tag and offset in the section of each. Nothing if the
/// header of the unit or its abbreviations (`gimli::UnitHeader::abbreviations`) cannot be read.
pub uninterp spec fn unit_entries(
    info: Seq<u8>,
    abbrev: Seq<u8>,
    little_endian: bool,
    offset: usize,
) -> Option<Seq<(isize, u16, Option<usize>)>>;

/// `gimli::DebugInfo::units` goes through the units of a section. A unit ends within the section.
#[verifier::external_body]
pub(crate) fn list_units(info: &[u8], little_endian: bool) -> (v: Vec<(usize, usize)>)
    ensures
        v@ == debug_info_units(info@, little_endian),
        forall|i: int|
            0 <= i < v@.len() ==> (#[trigger] v@[i]).0 + v@[i].1 <= info@.len(),
{
    let endian = if little_endian { gimli::RunTimeEndian::Little } else { gimli::RunTimeEndian::Big };
    let mut units = gimli::DebugInfo::new(info, endian).units();
    let mut v = Vec::new();
    while let Ok(Some(unit)) = units.next() {
        v.push((unit.offset().0, unit.length_including_self()));
    }
    v
}

/// `gimli::DebugInfo::header_from_offset` finds a unit, `gimli::UnitHeader::abbreviations` its
/// abbreviations, and `gimli::EntriesCursor::next_dfs` goes through its entries.
#[verifier::external_body]
pub(crate) fn list_entries(info: &[u8], abbrev: &[u8], little_endian: bool, offset: usize) -> (r:
    Option<Vec<(isize, u16, Option<usize>)>>)
    ensures
        match r {
            Some(v) => unit_entries(info@, abbrev@, little_endian, offset) == Some(v@),
            None => unit_entries(info@, abbrev@, little_endian, offset) is None,
        },
{
    let endian = if little_endian { gimli::RunTimeEndian::Little } else { gimli::RunTimeEndian::Big };
    let section = gimli::DebugInfo::new(info, endian);
    let unit = section.header_from_offset(gimli::DebugInfoOffset(offset)).ok()?;
    let abbreviations = unit.abbreviations(&gimli::DebugAbbrev::new(abbrev, endian)).ok()?;
    let mut cursor = unit.entries(&abbreviations);
    let mut v = Vec::new();
    while let Ok(Some(e)) = cursor.next_dfs() {
        v.push((e.depth(), e.tag().0, e.offset().to_debug_info_offset(&unit).map(|o| o.0)));
    }
    Some(v)
}

} // verus!
