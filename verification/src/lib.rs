pub mod bytes;
pub mod debuginfo;
pub mod demangle;
pub mod dwarf;
pub mod dwarf_file;
pub mod dwarf_laws;
pub mod elf_reader;
pub mod event_laws;
pub mod events;
pub mod filter;
pub mod metadata;
pub mod metadata_laws;
pub mod name_laws;
pub mod name_map;
pub mod object_file;
pub mod registry;
pub mod report;
pub mod report_laws;
pub mod scope_laws;
pub mod segment_laws;
pub mod segments;
pub mod text;
pub mod text_laws;
pub mod type_laws;
pub mod types;
pub mod variable_laws;
pub mod variable_map;
pub mod variables;
pub mod view_laws;
