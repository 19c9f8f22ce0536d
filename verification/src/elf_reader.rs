//! The reader of an ELF file, which fills a registry from its debug information.
use vstd::prelude::*;

use crate::debuginfo::{DebugData, VarInfo};
use crate::dwarf::LoadError;
use crate::registry::Registry;
use crate::text::{strip_prefix, stripped};
use crate::variable_map::{variable_at, variable_count};

verus! {

/// The debug information that a registry is filled from.
pub struct ElfReader {
    pub debug_data: DebugData,
}

/// The signature in the first of the names `XCPLITE__<signature>` at or after a position.
pub open spec fn signature_from(vars: Seq<(Seq<char>, Seq<VarInfo>)>, i: int) -> Option<Seq<char>>
    decreases vars.len() - i,
{
    if i < 0 || i >= vars.len() {
        None
    } else {
        match stripped(vars[i].0, "XCPLITE__"@) {
            Some(signature) => Some(signature),
            None => signature_from(vars, i + 1),
        }
    }
}

impl ElfReader {
    /// A reader of debug information that was loaded; none if it could not be loaded.
    pub fn new(loaded: Result<DebugData, LoadError>) -> (r: Option<ElfReader>)
        ensures
            match loaded {
                Ok(debug_data) => r == Some(ElfReader { debug_data }),
                Err(_) => r is None,
            },
    {
        match loaded {
            Ok(debug_data) => Some(ElfReader { debug_data }),
            Err(_) => None,
        }
    }

    /// The signature of the addressing mode (such as CASDD or ACSDD) that the target was built
    /// with, found by the naming convention `XCPLITE__<signature>` of its marker.
    pub fn get_target_signature(&self) -> (r: Option<&str>)
        ensures
            r is Some <==> signature_from(self.debug_data.vars(), 0) is Some,
            r matches Some(s) ==> signature_from(self.debug_data.vars(), 0) == Some(s@),
    {
        let ghost vars = self.debug_data.vars();
        let n: usize = variable_count(&self.debug_data.variables);
        let mut i: usize = 0;
        while i < n
            invariant
                n == vars.len(),
                vars == self.debug_data.vars(),
                i <= n,
                signature_from(vars, 0) == signature_from(vars, i as int),
            decreases n - i,
        {
            match variable_at(&self.debug_data.variables, i) {
                Some((name, _)) => {
                    assert(vars[i as int].0 == name@);
                    if let Some(signature) = strip_prefix(name.as_str(), "XCPLITE__") {
                        return Some(signature);
                    }
                },
                None => {},
            }
            i = i + 1;
        }
        None
    }

    /// Registers the EPK string of the program as its version, with the address of the string; if
    /// there is an EPK section.
    pub fn register_epk_addr_info(&self, reg: &mut Registry)
        requires
            self.debug_data.epk_addr <= u32::MAX,
        ensures
            if self.debug_data.epk_addr > 0 {
                final(reg).version matches Some((epk, addr)) && addr == self.debug_data.epk_addr
                    && epk@ == match self.debug_data.epk_string {
                    Some(s) => s@,
                    None => "<unknown>"@,
                }
            } else {
                final(reg).version == old(reg).version
            },
            final(reg).event_list == old(reg).event_list,
            final(reg).cal_seg_list == old(reg).cal_seg_list,
            final(reg).typedef_list == old(reg).typedef_list,
            final(reg).instance_list == old(reg).instance_list,
            final(reg).metadata == old(reg).metadata,
    {
        if self.debug_data.epk_addr > 0 {
            let epk = match &self.debug_data.epk_string {
                Some(s) => s.clone(),
                None => "<unknown>".to_owned(),
            };
            reg.version = Some((epk, self.debug_data.epk_addr as u32));
        }
    }
}

} // verus!
