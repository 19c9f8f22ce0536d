//! The debug information as text, line by line.
use vstd::prelude::*;
use vstd::string::*;

use crate::debuginfo::{type_size, type_text, CfaInfo, DebugData, VarInfo};
use crate::name_map::NameMap;
use crate::text::{decimal, decimal_i64, decimal_u64, hex, hex8, starts_with, strings};
use crate::variable_map::{variable_at, variable_count};
use crate::variables::count_in_units;

verus! {

/// The lines above a part of the report.
pub open spec fn heading(title: Seq<char>) -> Seq<Seq<char>> {
    seq![
        ""@,
        "===================================================================================================="@,
        title,
    ]
}

/// Adds a line.
fn push_line(out: &mut Vec<String>, line: String)
    ensures
        strings(final(out)@) == strings(old(out)@).push(line@),
{
    let ghost before = strings(out@);
    let ghost text = line@;
    out.push(line);
    assert(strings(out@) =~= before.push(text));
}

/// Adds the lines above a part of the report.
fn push_heading(out: &mut Vec<String>, title: &str)
    ensures
        strings(final(out)@) == strings(old(out)@) + heading(title@),
{
    let ghost before = strings(out@);
    push_line(out, "".to_owned());
    push_line(
        out,
        "====================================================================================================".to_owned(),
    );
    push_line(out, title.to_owned());
    assert(strings(out@) =~= before + heading(title@));
}

/// A text with a number in it.
fn numbered_line(before: &str, n: u64, after: &str) -> (s: String)
    ensures
        s@ == before@ + decimal(n as int) + after@,
{
    let mut s = before.to_owned();
    let d = decimal_u64(n);
    s.append(d.as_str());
    s.append(after);
    s
}

/// The number of instances of the first `n` variables.
pub open spec fn instance_count(vars: Seq<(Seq<char>, Seq<VarInfo>)>, n: nat) -> nat
    decreases n,
{
    if n == 0 {
        0
    } else {
        instance_count(vars, (n - 1) as nat) + vars[n - 1].1.len()
    }
}

/// More variables have no fewer instances.
proof fn lemma_instance_count(vars: Seq<(Seq<char>, Seq<VarInfo>)>, m: nat, n: nat)
    requires
        m <= n,
    ensures
        instance_count(vars, m) <= instance_count(vars, n),
    decreases n,
{
    if m < n {
        lemma_instance_count(vars, m, (n - 1) as nat);
    }
}

impl DebugData {
    /// All instances of variables can be counted.
    pub open spec fn instances_countable(&self) -> bool {
        instance_count(self.vars(), self.vars().len()) <= usize::MAX
    }

    /// The summary.
    pub open spec fn stats_lines(&self) -> Seq<Seq<char>> {
        heading("DebugData information summary:"@) + seq![
            "  Compilation units: "@ + decimal(self.unit_names@.len() as int) + " units"@,
            "  Sections: "@ + decimal(self.sections.order().len() as int) + " sections"@,
            if self.is_little_endian {
                "  Endianness: Little Endian"@
            } else {
                "  Endianness: Big Endian"@
            },
            "  Variables "@ + decimal(instance_count(self.vars(), self.vars().len()) as int)
                + " with "@ + decimal(self.vars().len() as int) + " unique names"@,
            "  Demangled names: "@ + decimal(self.demangled_names.order().len() as int)
                + " entries"@,
            "  Type names: "@ + decimal(self.typenames.order().len() as int) + " named types"@,
            "  Types: "@ + decimal(self.types@.len() as int) + " total types"@,
            "  CFA info: "@ + decimal(self.cfa_info@.len() as int) + " entries"@,
            "  EPK string: `"@ + (match self.epk_string {
                Some(s) => s@,
                None => "<not found>"@,
            }) + "` at address 0x"@ + hex(self.epk_addr as nat, 8, true),
            match self.xcp_meta_data {
                Some((addr, data)) => "  XCP metadata section (xcp_meta) found at address 0x"@
                    + hex(addr as nat, 8, true) + ", "@ + decimal(data@.len() as int) + " bytes"@,
                None => "  XCP metadata section (xcp_meta) not found"@,
            },
        ]
    }

    /// The number of instances of variables.
    pub fn count_instances(&self) -> (total: usize)
        requires
            self.instances_countable(),
        ensures
            total == instance_count(self.vars(), self.vars().len()),
    {
        let ghost vars = self.vars();
        let n: usize = variable_count(&self.variables);
        let mut total: usize = 0;
        for i in 0..n
            invariant
                n == vars.len(),
                vars == self.vars(),
                self.instances_countable(),
                total == instance_count(vars, i as nat),
        {
            if let Some((_, infos)) = variable_at(&self.variables, i) {
                proof {
                    assert(vars[i as int].1 == infos@);
                    lemma_instance_count(vars, (i + 1) as nat, n as nat);
                }
                total = total + infos.len();
            }
        }
        total
    }

    /// Adds the summary.
    fn push_stats(&self, out: &mut Vec<String>)
        requires
            self.instances_countable(),
        ensures
            strings(final(out)@) == strings(old(out)@) + self.stats_lines(),
    {
        broadcast use vstd::std_specs::hash::group_hash_axioms;

        let ghost before = strings(out@);
        push_heading(out, "DebugData information summary:");
        push_line(
            out,
            numbered_line("  Compilation units: ", self.unit_names.len() as u64, " units"),
        );
        push_line(out, numbered_line("  Sections: ", self.sections.len() as u64, " sections"));
        push_line(
            out,
            if self.is_little_endian {
                "  Endianness: Little Endian".to_owned()
            } else {
                "  Endianness: Big Endian".to_owned()
            },
        );
        let mut s = numbered_line("  Variables ", self.count_instances() as u64, " with ");
        let d = decimal_u64(variable_count(&self.variables) as u64);
        s.append(d.as_str());
        s.append(" unique names");
        push_line(out, s);
        push_line(
            out,
            numbered_line("  Demangled names: ", self.demangled_names.len() as u64, " entries"),
        );
        push_line(
            out,
            numbered_line("  Type names: ", self.typenames.len() as u64, " named types"),
        );
        push_line(out, numbered_line("  Types: ", self.types.len() as u64, " total types"));
        push_line(out, numbered_line("  CFA info: ", self.cfa_info.len() as u64, " entries"));
        let mut s = "  EPK string: `".to_owned();
        match &self.epk_string {
            Some(t) => s.append(t.as_str()),
            None => s.append("<not found>"),
        }
        s.append("` at address 0x");
        let h = hex8(self.epk_addr, true);
        s.append(h.as_str());
        push_line(out, s);
        match &self.xcp_meta_data {
            Some((addr, data)) => {
                let mut s = "  XCP metadata section (xcp_meta) found at address 0x".to_owned();
                let h = hex8(*addr, true);
                s.append(h.as_str());
                s.append(", ");
                let d = decimal_u64(data.len() as u64);
                s.append(d.as_str());
                s.append(" bytes");
                push_line(out, s);
            },
            None => {
                push_line(out, "  XCP metadata section (xcp_meta) not found".to_owned());
            },
        }
        assert(strings(out@) =~= before + self.stats_lines());
    }

    /// A summary of the debug information.
    pub fn debug_stats(&self) -> (lines: Vec<String>)
        requires
            self.instances_countable(),
        ensures
            strings(lines@) == self.stats_lines(),
    {
        let mut out: Vec<String> = Vec::new();
        self.push_stats(&mut out);
        assert(strings(out@) =~= self.stats_lines());
        out
    }

    /// The name of a compilation unit in the report.
    pub open spec fn unit_text(&self, unit_idx: int) -> Seq<char> {
        match self.unit_name(unit_idx) {
            Some(name) => name,
            None => "<unnamed>"@,
        }
    }

    /// The name of a compilation unit in the report.
    fn make_unit_text(&self, unit_idx: usize) -> (s: String)
        ensures
            s@ == self.unit_text(unit_idx as int),
    {
        match self.make_simple_unit_name(unit_idx) {
            Some(name) => name,
            None => "<unnamed>".to_owned(),
        }
    }

    /// The lines of the first `n` compilation units.
    pub open spec fn unit_lines(&self, n: nat) -> Seq<Seq<char>>
        decreases n,
    {
        if n == 0 {
            Seq::empty()
        } else {
            self.unit_lines((n - 1) as nat).push(
                "  Unit "@ + decimal(n - 1) + ": "@ + self.unit_text(n - 1),
            )
        }
    }

    /// Adds the compilation units.
    fn push_units(&self, out: &mut Vec<String>)
        ensures
            strings(final(out)@) == strings(old(out)@) + self.unit_lines(self.unit_names@.len()),
    {
        let ghost before = strings(out@);
        let n: usize = self.unit_names.len();
        assert(before =~= before + self.unit_lines(0));
        for i in 0..n
            invariant
                n == self.unit_names@.len(),
                strings(out@) == before + self.unit_lines(i as nat),
        {
            let mut s = numbered_line("  Unit ", i as u64, ": ");
            let name = self.make_unit_text(i);
            s.append(name.as_str());
            push_line(out, s);
            assert(strings(out@) =~= before + self.unit_lines((i + 1) as nat));
        }
    }

    /// The lines of the first `n` names of types, each with the known types of that name.
    pub open spec fn type_name_lines(&self, n: nat) -> Seq<Seq<char>>
        decreases n,
    {
        if n == 0 {
            Seq::empty()
        } else {
            let (name, refs) = self.typenames.order()[n - 1];
            self.type_name_lines((n - 1) as nat).push(
                "Type name '"@ + name + "': "@ + decimal(refs@.len() as int) + " references"@,
            ) + self.type_ref_lines(refs@, refs@.len())
        }
    }

    /// The lines of the known types among the first `n` references.
    pub open spec fn type_ref_lines(&self, refs: Seq<usize>, n: nat) -> Seq<Seq<char>>
        decreases n,
    {
        if n == 0 {
            Seq::empty()
        } else {
            let before = self.type_ref_lines(refs, (n - 1) as nat);
            let r = refs[n - 1];
            if self.types@.contains_key(r) {
                before.push(
                    "  -> type_ref="@ + decimal(r as int) + ", size="@ + decimal(
                        type_size(self.types@[r]) as int,
                    ) + " bytes, unit="@ + decimal(self.types@[r].unit_idx as int),
                )
            } else {
                before
            }
        }
    }

    /// Adds the known types among references.
    fn push_type_refs(&self, refs: &Vec<usize>, out: &mut Vec<String>)
        ensures
            strings(final(out)@) == strings(old(out)@) + self.type_ref_lines(refs@, refs@.len()),
    {
        broadcast use vstd::std_specs::hash::group_hash_axioms;

        let ghost before = strings(out@);
        let n: usize = refs.len();
        assert(before =~= before + self.type_ref_lines(refs@, 0));
        for i in 0..n
            invariant
                n == refs@.len(),
                strings(out@) == before + self.type_ref_lines(refs@, i as nat),
        {
            if let Some(t) = self.types.get(&refs[i]) {
                let mut s = numbered_line("  -> type_ref=", refs[i] as u64, ", size=");
                let d = decimal_u64(t.get_size());
                s.append(d.as_str());
                s.append(" bytes, unit=");
                let d = decimal_u64(t.unit_idx as u64);
                s.append(d.as_str());
                push_line(out, s);
            }
            assert(strings(out@) =~= before + self.type_ref_lines(refs@, (i + 1) as nat));
        }
    }

    /// Adds the names of types.
    fn push_type_names(&self, out: &mut Vec<String>)
        ensures
            strings(final(out)@) == strings(old(out)@) + self.type_name_lines(
                self.typenames.order().len(),
            ),
    {
        let ghost before = strings(out@);
        let n: usize = self.typenames.len();
        assert(before =~= before + self.type_name_lines(0));
        for i in 0..n
            invariant
                n == self.typenames.order().len(),
                strings(out@) == before + self.type_name_lines(i as nat),
        {
            let refs = self.typenames.value(i);
            let mut s = "Type name '".to_owned();
            s.append(self.typenames.name(i));
            s.append("': ");
            let d = decimal_u64(refs.len() as u64);
            s.append(d.as_str());
            s.append(" references");
            push_line(out, s);
            self.push_type_refs(refs, out);
            assert(strings(out@) =~= before + self.type_name_lines((i + 1) as nat));
        }
    }

    /// The lines of the first `n` types among references.
    pub open spec fn type_lines(&self, refs: Seq<usize>, n: nat) -> Seq<Seq<char>>
        decreases n,
    {
        if n == 0 {
            Seq::empty()
        } else {
            let r = refs[n - 1];
            let t = self.types@[r];
            self.type_lines(refs, (n - 1) as nat).push(
                "TypeRef "@ + decimal(r as int) + ": name = '"@ + (match t.name {
                    Some(s) => s@,
                    None => ""@,
                }) + "', size = "@ + decimal(type_size(t) as int) + " bytes, unit = "@ + decimal(
                    t.unit_idx as int,
                ) + ", type="@ + type_text(t),
            )
        }
    }

    /// Adds the types of references.
    fn push_types(&self, refs: &Vec<usize>, out: &mut Vec<String>)
        requires
            forall|i: int|
                0 <= i < refs@.len() ==> self.types@.contains_key(#[trigger] refs@[i]),
        ensures
            strings(final(out)@) == strings(old(out)@) + self.type_lines(refs@, refs@.len()),
    {
        broadcast use vstd::std_specs::hash::group_hash_axioms;

        let ghost before = strings(out@);
        let n: usize = refs.len();
        assert(before =~= before + self.type_lines(refs@, 0));
        for i in 0..n
            invariant
                n == refs@.len(),
                forall|i: int|
                    0 <= i < refs@.len() ==> self.types@.contains_key(#[trigger] refs@[i]),
                strings(out@) == before + self.type_lines(refs@, i as nat),
        {
            assert(self.types@.contains_key(refs@[i as int]));
            if let Some(t) = self.types.get(&refs[i]) {
                let mut s = numbered_line("TypeRef ", refs[i] as u64, ": name = '");
                match &t.name {
                    Some(name) => s.append(name.as_str()),
                    None => s.append(""),
                }
                s.append("', size = ");
                let d = decimal_u64(t.get_size());
                s.append(d.as_str());
                s.append(" bytes, unit = ");
                let d = decimal_u64(t.unit_idx as u64);
                s.append(d.as_str());
                s.append(", type=");
                let text = t.to_text();
                s.append(text.as_str());
                push_line(out, s);
            }
            assert(strings(out@) =~= before + self.type_lines(refs@, (i + 1) as nat));
        }
    }

    /// The lines of the first `n` demangled names.
    pub open spec fn demangled_lines(&self, n: nat) -> Seq<Seq<char>>
        decreases n,
    {
        if n == 0 {
            Seq::empty()
        } else {
            let (mangled, demangled) = self.demangled_names.order()[n - 1];
            self.demangled_lines((n - 1) as nat).push(
                "  '"@ + mangled + "' -> '"@ + demangled@ + "'"@,
            )
        }
    }

    /// Adds the demangled names.
    fn push_demangled(&self, out: &mut Vec<String>)
        ensures
            strings(final(out)@) == strings(old(out)@) + self.demangled_lines(
                self.demangled_names.order().len(),
            ),
    {
        let ghost before = strings(out@);
        let n: usize = self.demangled_names.len();
        assert(before =~= before + self.demangled_lines(0));
        for i in 0..n
            invariant
                n == self.demangled_names.order().len(),
                strings(out@) == before + self.demangled_lines(i as nat),
        {
            let mut s = "  '".to_owned();
            s.append(self.demangled_names.name(i));
            s.append("' -> '");
            s.append(self.demangled_names.value(i).as_str());
            s.append("'");
            push_line(out, s);
            assert(strings(out@) =~= before + self.demangled_lines((i + 1) as nat));
        }
    }
}

/// A section put into a list behind all that do not start later.
pub open spec fn insert_by_start(
    s: Seq<(Seq<char>, (u64, u64))>,
    e: (Seq<char>, (u64, u64)),
) -> Seq<(Seq<char>, (u64, u64))>
    decreases s.len(),
{
    if s.len() == 0 || s.last().1.0 <= e.1.0 {
        s.push(e)
    } else {
        insert_by_start(s.drop_last(), e).push(s.last())
    }
}

/// The sections in the order of their addresses.
pub open spec fn by_start(s: Seq<(Seq<char>, (u64, u64))>) -> Seq<(Seq<char>, (u64, u64))>
    decreases s.len(),
{
    if s.len() == 0 {
        s
    } else {
        insert_by_start(by_start(s.drop_last()), s.last())
    }
}

/// Starts of sections do not fall.
pub open spec fn starts_rise(s: Seq<(Seq<char>, (u64, u64))>) -> bool {
    forall|i: int, j: int| 0 <= i < j < s.len() ==> (#[trigger] s[i]).1.0 <= (#[trigger] s[j]).1.0
}

proof fn lemma_insert_by_start(s: Seq<(Seq<char>, (u64, u64))>, e: (Seq<char>, (u64, u64)))
    requires
        starts_rise(s),
    ensures
        starts_rise(insert_by_start(s, e)),
        insert_by_start(s, e).to_multiset() == s.to_multiset().insert(e),
        forall|i: int|
            0 <= i < insert_by_start(s, e).len() ==> {
                ||| (#[trigger] insert_by_start(s, e)[i]).1.0 <= e.1.0
                ||| s.len() > 0 && insert_by_start(s, e)[i].1.0 <= s.last().1.0
            },
    decreases s.len(),
{
    broadcast use vstd::seq_lib::group_to_multiset_ensures;

    if s.len() > 0 && s.last().1.0 > e.1.0 {
        let t = s.drop_last();
        let r = insert_by_start(t, e);
        lemma_insert_by_start(t, e);
        let all = r.push(s.last());
        assert forall|i: int, j: int| 0 <= i < j < all.len() implies (#[trigger] all[i]).1.0 <= (
        #[trigger] all[j]).1.0 by {
            if j == r.len() {
                assert(all[i] == r[i]);
                if t.len() > 0 {
                    assert(s[t.len() - 1].1.0 <= s[t.len() as int].1.0);
                }
            } else {
                assert(all[i] == r[i] && all[j] == r[j]);
            }
        }
        assert(s =~= t.push(s.last()));
        assert(all.to_multiset() =~= s.to_multiset().insert(e));
    }
}

/// Sections are listed in the order of their addresses, and none is lost or added.
pub proof fn law_sections_are_sorted_by_start(s: Seq<(Seq<char>, (u64, u64))>)
    ensures
        starts_rise(by_start(s)),
        by_start(s).to_multiset() == s.to_multiset(),
    decreases s.len(),
{
    broadcast use vstd::seq_lib::group_to_multiset_ensures;

    if s.len() > 0 {
        let t = s.drop_last();
        law_sections_are_sorted_by_start(t);
        lemma_insert_by_start(by_start(t), s.last());
        assert(s =~= t.push(s.last()));
    }
}

/// The entries at some positions.
spec fn entries_at(o: Seq<(Seq<char>, (u64, u64))>, v: Seq<usize>) -> Seq<
    (Seq<char>, (u64, u64)),
> {
    v.map_values(|p: usize| o[p as int])
}

/// Puts the position of a section into a list behind all that do not start later.
fn insert_position(sections: &NameMap<(u64, u64)>, v: &mut Vec<usize>, p: usize)
    requires
        p < sections.order().len(),
        forall|i: int|
            0 <= i < old(v)@.len() ==> #[trigger] old(v)@[i] < sections.order().len(),
    ensures
        forall|i: int|
            0 <= i < final(v)@.len() ==> #[trigger] final(v)@[i] < sections.order().len(),
        entries_at(sections.order(), final(v)@) == insert_by_start(
            entries_at(sections.order(), old(v)@),
            sections.order()[p as int],
        ),
{
    let ghost o = sections.order();
    let ghost all = entries_at(o, v@);
    let ghost e = o[p as int];
    let mut i: usize = v.len();
    assert(all.take(i as int) =~= all);
    assert(insert_by_start(all, e) =~= insert_by_start(all.take(i as int), e) + all.skip(i as int));
    while i > 0 && sections.value(v[i - 1]).0 > sections.value(p).0
        invariant
            i <= v@.len(),
            p < o.len(),
            o == sections.order(),
            e == o[p as int],
            forall|i: int| 0 <= i < v@.len() ==> #[trigger] v@[i] < o.len(),
            all == entries_at(o, v@),
            insert_by_start(all, e) == insert_by_start(all.take(i as int), e) + all.skip(i as int),
        decreases i,
    {
        proof {
            let t = all.take(i as int);
            assert(t.last() == o[v@[i - 1] as int]);
            assert(t.drop_last() =~= all.take(i - 1));
            assert(insert_by_start(all, e) =~= insert_by_start(all.take(i - 1), e) + all.skip(
                i - 1,
            ));
        }
        i = i - 1;
    }
    proof {
        let t = all.take(i as int);
        if i > 0 {
            assert(t.last() == o[v@[i - 1] as int]);
        }
        assert(insert_by_start(t, e) == t.push(e));
    }
    v.insert(i, p);
    assert(entries_at(o, v@) =~= all.take(i as int).push(e) + all.skip(i as int));
}

/// The positions of the sections in the order of their addresses.
fn sort_sections(sections: &NameMap<(u64, u64)>) -> (v: Vec<usize>)
    ensures
        forall|i: int| 0 <= i < v@.len() ==> #[trigger] v@[i] < sections.order().len(),
        entries_at(sections.order(), v@) == by_start(sections.order()),
{
    let ghost o = sections.order();
    let mut v: Vec<usize> = Vec::new();
    let n: usize = sections.len();
    assert(entries_at(o, v@) =~= by_start(o.take(0)));
    for i in 0..n
        invariant
            n == o.len(),
            o == sections.order(),
            forall|i: int| 0 <= i < v@.len() ==> #[trigger] v@[i] < o.len(),
            entries_at(o, v@) == by_start(o.take(i as int)),
    {
        assert(o.take(i + 1).drop_last() =~= o.take(i as int));
        insert_position(sections, &mut v, i);
    }
    assert(o.take(n as int) =~= o);
    v
}

/// The lines of the first `n` sections; each tells how far it lies behind the one before it.
pub open spec fn section_lines(s: Seq<(Seq<char>, (u64, u64))>, n: nat) -> Seq<Seq<char>>
    decreases n,
{
    if n == 0 {
        Seq::empty()
    } else {
        let (name, (start, end)) = s[n - 1];
        let last = if n == 1 {
            0
        } else {
            s[n - 2].1.0
        };
        section_lines(s, (n - 1) as nat).push(
            "  '"@ + name + "': 0x"@ + hex(start as nat, 8, false) + ", "@ + decimal(start - last)
                + " bytes ("@ + decimal(end as int) + ")"@,
        )
    }
}

/// Adds the sections in the order of their addresses.
fn push_sections(sections: &NameMap<(u64, u64)>, out: &mut Vec<String>)
    ensures
        strings(final(out)@) == strings(old(out)@) + section_lines(
            by_start(sections.order()),
            by_start(sections.order()).len(),
        ),
{
    let ghost before = strings(out@);
    let ghost o = sections.order();
    let ghost sorted = by_start(o);
    let v = sort_sections(sections);
    let n: usize = v.len();
    let mut last_addr: u64 = 0;
    proof {
        law_sections_are_sorted_by_start(o);
        assert(sorted.len() == n);
        assert(before =~= before + section_lines(sorted, 0));
    }
    for i in 0..n
        invariant
            n == v@.len(),
            n == sorted.len(),
            o == sections.order(),
            sorted == entries_at(o, v@),
            starts_rise(sorted),
            forall|i: int| 0 <= i < v@.len() ==> #[trigger] v@[i] < o.len(),
            last_addr == (if i == 0 {
                0
            } else {
                sorted[i - 1].1.0
            }),
            strings(out@) == before + section_lines(sorted, i as nat),
    {
        let (start, end) = *sections.value(v[i]);
        proof {
            assert(sorted[i as int] == o[v@[i as int] as int]);
            if i > 0 {
                assert(sorted[i - 1].1.0 <= sorted[i as int].1.0);
            }
        }
        let mut s = "  '".to_owned();
        s.append(sections.name(v[i]));
        s.append("': 0x");
        let h = hex8(start, false);
        s.append(h.as_str());
        s.append(", ");
        let d = decimal_u64(start - last_addr);
        s.append(d.as_str());
        s.append(" bytes (");
        let d = decimal_u64(end);
        s.append(d.as_str());
        s.append(")");
        push_line(out, s);
        last_addr = start;
        assert(strings(out@) =~= before + section_lines(sorted, (i + 1) as nat));
    }
}

/// Names joined by two colons.
pub open spec fn joined(names: Seq<Seq<char>>, n: nat) -> Seq<char>
    decreases n,
{
    if n == 0 {
        Seq::empty()
    } else if n == 1 {
        names[0]
    } else {
        joined(names, (n - 1) as nat) + "::"@ + names[n - 1]
    }
}

/// Joins names by two colons.
fn join(names: &Vec<String>) -> (s: String)
    ensures
        s@ == joined(strings(names@), names@.len()),
{
    let mut s = String::new();
    let n: usize = names.len();
    for i in 0..n
        invariant
            n == names@.len(),
            s@ == joined(strings(names@), i as nat),
    {
        assert(strings(names@)[i as int] == names@[i as int]@);
        if i > 0 {
            s.append("::");
        }
        s.append(names[i].as_str());
        assert(s@ =~= joined(strings(names@), (i + 1) as nat));
    }
    s
}

/// A marker of the XCP implementation.
pub open spec fn is_marker(name: Seq<char>) -> bool {
    ||| "xcp_meta__"@.is_prefix_of(name)
    ||| "calblk__"@.is_prefix_of(name)
    ||| "calseg__"@.is_prefix_of(name)
    ||| "evt__"@.is_prefix_of(name)
    ||| "trg__"@.is_prefix_of(name)
}

impl DebugData {
    /// Where an instance is defined and lies.
    pub open spec fn place_text(&self, info: VarInfo) -> Seq<char> {
        self.unit_text(info.unit_idx as int) + ":'"@ + (match info.function {
            Some(f) => f@,
            None => "<global>"@,
        }) + "' "@ + joined(strings(info.namespaces@), info.namespaces@.len()) + ": addr="@
            + decimal(info.address.0 as int) + ":0x"@ + hex(info.address.1 as nat, 8, true)
    }

    /// Appends where an instance is defined and lies to a string.
    fn push_place(&self, info: &VarInfo, s: &mut String)
        ensures
            final(s)@ == old(s)@ + self.place_text(*info),
    {
        let ghost before = s@;
        let unit = self.make_unit_text(info.unit_idx);
        s.append(unit.as_str());
        s.append(":'");
        match &info.function {
            Some(f) => s.append(f.as_str()),
            None => s.append("<global>"),
        }
        s.append("' ");
        let ns = join(&info.namespaces);
        s.append(ns.as_str());
        s.append(": addr=");
        let d = decimal_u64(info.address.0 as u64);
        s.append(d.as_str());
        s.append(":0x");
        let h = hex8(info.address.1, true);
        s.append(h.as_str());
        assert(s@ =~= before + self.place_text(*info));
    }

    /// The lines of the markers among the first `n` variables.
    pub open spec fn marker_lines(&self, n: nat) -> Seq<Seq<char>>
        decreases n,
    {
        if n == 0 {
            Seq::empty()
        } else {
            let before = self.marker_lines((n - 1) as nat);
            let (name, infos) = self.vars()[n - 1];
            if !is_marker(name) {
                before
            } else if infos.len() != 1 {
                before.push(
                    decimal(infos.len() as int) + " instances of '"@ + name + "' found, skipped"@,
                )
            } else {
                before.push(name + "':  "@ + self.place_text(infos[0]))
            }
        }
    }

    /// Adds the markers.
    fn push_markers(&self, out: &mut Vec<String>)
        ensures
            strings(final(out)@) == strings(old(out)@) + self.marker_lines(self.vars().len()),
    {
        let ghost before = strings(out@);
        let n: usize = variable_count(&self.variables);
        assert(before =~= before + self.marker_lines(0));
        for i in 0..n
            invariant
                n == self.vars().len(),
                strings(out@) == before + self.marker_lines(i as nat),
        {
            if let Some((name, infos)) = variable_at(&self.variables, i) {
                assert(self.vars()[i as int] == (name@, infos@));
                let name = name.as_str();
                if starts_with(name, "xcp_meta__") || starts_with(name, "calblk__") || starts_with(
                    name,
                    "calseg__",
                ) || starts_with(name, "evt__") || starts_with(name, "trg__") {
                    if infos.len() != 1 {
                        let mut s = decimal_u64(infos.len() as u64);
                        s.append(" instances of '");
                        s.append(name);
                        s.append("' found, skipped");
                        push_line(out, s);
                    } else {
                        let mut s = name.to_owned();
                        s.append("':  ");
                        self.push_place(&infos[0], &mut s);
                        push_line(out, s);
                    }
                }
            }
            assert(strings(out@) =~= before + self.marker_lines((i + 1) as nat));
        }
    }

    /// A variable is listed: it is no internal one, and has an instance in the units up to the
    /// limit.
    pub open spec fn is_listed(
        &self,
        level: usize,
        unit_idx_limit: usize,
        name: Seq<char>,
        infos: Seq<VarInfo>,
    ) -> bool {
        &&& !(level < 5 && "__"@.is_prefix_of(name))
        &&& !"gXcp"@.is_prefix_of(name)
        &&& !"gA2l"@.is_prefix_of(name)
        &&& count_in_units(infos, unit_idx_limit, infos.len()) > 0
    }

    /// The line of an instance: its place and, from level 2 on, its type.
    pub open spec fn instance_line(&self, level: usize, start: Seq<char>, info: VarInfo) -> Seq<char> {
        let place = start + self.place_text(info);
        if level >= 2 && self.types@.contains_key(info.typeref) {
            let t = self.types@[info.typeref];
            place + ", type='"@ + (match t.name {
                Some(s) => s@,
                None => ""@,
            }) + "', size="@ + decimal(type_size(t) as int)
        } else {
            place
        }
    }

    /// The lines of the instances in the units up to the limit, among the first `n`.
    pub open spec fn instance_lines(
        &self,
        level: usize,
        unit_idx_limit: usize,
        start: Seq<char>,
        infos: Seq<VarInfo>,
        n: nat,
    ) -> Seq<Seq<char>>
        decreases n,
    {
        if n == 0 {
            Seq::empty()
        } else {
            let before = self.instance_lines(level, unit_idx_limit, start, infos, (n - 1) as nat);
            if infos[n - 1].unit_idx <= unit_idx_limit {
                before.push(self.instance_line(level, start, infos[n - 1]))
            } else {
                before
            }
        }
    }

    /// The lines of a variable: a single instance is named on its own line, several stand under
    /// their name and number.
    pub open spec fn variable_lines_of(
        &self,
        level: usize,
        unit_idx_limit: usize,
        name: Seq<char>,
        infos: Seq<VarInfo>,
    ) -> Seq<Seq<char>> {
        let count = count_in_units(infos, unit_idx_limit, infos.len());
        if count > 1 {
            seq![name + " "@ + decimal(count as int) + ": "@] + self.instance_lines(
                level,
                unit_idx_limit,
                " "@,
                infos,
                infos.len(),
            )
        } else {
            self.instance_lines(level, unit_idx_limit, name + " :  "@, infos, infos.len())
        }
    }

    /// The lines of the listed variables among the first `n`.
    pub open spec fn variable_lines(&self, level: usize, unit_idx_limit: usize, n: nat) -> Seq<
        Seq<char>,
    >
        decreases n,
    {
        if n == 0 {
            Seq::empty()
        } else {
            let before = self.variable_lines(level, unit_idx_limit, (n - 1) as nat);
            let (name, infos) = self.vars()[n - 1];
            if self.is_listed(level, unit_idx_limit, name, infos) {
                before + self.variable_lines_of(level, unit_idx_limit, name, infos)
            } else {
                before
            }
        }
    }

    /// Adds the instances of a variable.
    fn push_instances(
        &self,
        level: usize,
        unit_idx_limit: usize,
        start: &str,
        infos: &Vec<VarInfo>,
        out: &mut Vec<String>,
    )
        ensures
            strings(final(out)@) == strings(old(out)@) + self.instance_lines(
                level,
                unit_idx_limit,
                start@,
                infos@,
                infos@.len(),
            ),
    {
        broadcast use vstd::std_specs::hash::group_hash_axioms;

        let ghost before = strings(out@);
        let n: usize = infos.len();
        assert(before =~= before + self.instance_lines(level, unit_idx_limit, start@, infos@, 0));
        for i in 0..n
            invariant
                n == infos@.len(),
                strings(out@) == before + self.instance_lines(
                    level,
                    unit_idx_limit,
                    start@,
                    infos@,
                    i as nat,
                ),
        {
            let info = &infos[i];
            if info.unit_idx <= unit_idx_limit {
                let mut s = start.to_owned();
                self.push_place(info, &mut s);
                if level >= 2 {
                    if let Some(t) = self.types.get(&info.typeref) {
                        s.append(", type='");
                        match &t.name {
                            Some(name) => s.append(name.as_str()),
                            None => s.append(""),
                        }
                        s.append("', size=");
                        let d = decimal_u64(t.get_size());
                        s.append(d.as_str());
                    }
                }
                assert(s@ == self.instance_line(level, start@, *info));
                push_line(out, s);
            }
            assert(strings(out@) =~= before + self.instance_lines(
                level,
                unit_idx_limit,
                start@,
                infos@,
                (i + 1) as nat,
            ));
        }
    }

    /// Adds the variables.
    fn push_variables(&self, level: usize, unit_idx_limit: usize, out: &mut Vec<String>)
        ensures
            strings(final(out)@) == strings(old(out)@) + self.variable_lines(
                level,
                unit_idx_limit,
                self.vars().len(),
            ),
    {
        let ghost before = strings(out@);
        let n: usize = variable_count(&self.variables);
        assert(before =~= before + self.variable_lines(level, unit_idx_limit, 0));
        for i in 0..n
            invariant
                n == self.vars().len(),
                strings(out@) == before + self.variable_lines(level, unit_idx_limit, i as nat),
        {
            if let Some((name, infos)) = variable_at(&self.variables, i) {
                assert(self.vars()[i as int] == (name@, infos@));
                let name = name.as_str();
                let len: usize = infos.len();
                let mut count: usize = 0;
                for j in 0..len
                    invariant
                        len == infos@.len(),
                        count == count_in_units(infos@, unit_idx_limit, j as nat),
                        count <= j,
                {
                    if infos[j].unit_idx <= unit_idx_limit {
                        count = count + 1;
                    }
                }
                if !(level < 5 && starts_with(name, "__")) && !starts_with(name, "gXcp")
                    && !starts_with(name, "gA2l") && count > 0 {
                    let mut s = name.to_owned();
                    if count > 1 {
                        s.append(" ");
                        let d = decimal_u64(count as u64);
                        s.append(d.as_str());
                        s.append(": ");
                        push_line(out, s);
                        self.push_instances(level, unit_idx_limit, " ", infos, out);
                    } else {
                        s.append(" :  ");
                        self.push_instances(level, unit_idx_limit, s.as_str(), infos, out);
                    }
                }
            }
            assert(strings(out@) =~= before + self.variable_lines(
                level,
                unit_idx_limit,
                (i + 1) as nat,
            ));
        }
    }
}

/// The line of a function.
pub open spec fn function_line(f: CfaInfo) -> Seq<char> {
    "  "@ + f.function@ + " (0x"@ + hex(f.low_pc as nat, 8, false) + "-0x"@ + hex(
        f.high_pc as nat,
        8,
        false,
    ) + ") ["@ + (match f.cfa_offset {
        Some(offset) => "CFA+"@ + decimal(offset as int),
        None => "CFA unknown"@,
    }) + "]"@
}

/// The lines of the functions of a compilation unit among the first `n` functions.
pub open spec fn function_lines(v: Seq<CfaInfo>, unit_idx: usize, n: nat) -> Seq<Seq<char>>
    decreases n,
{
    if n == 0 {
        Seq::empty()
    } else {
        let before = function_lines(v, unit_idx, (n - 1) as nat);
        if v[n - 1].unit_idx == unit_idx {
            before.push(function_line(v[n - 1]))
        } else {
            before
        }
    }
}

/// One of the first `n` functions is of a compilation unit.
pub open spec fn unit_seen(v: Seq<CfaInfo>, unit_idx: usize, n: int) -> bool {
    exists|i: int| 0 <= i < n && i < v.len() && (#[trigger] v[i]).unit_idx == unit_idx
}

/// The lines of the compilation units of the first `n` functions, each with all its functions, in
/// the order in which the units come.
pub open spec fn function_groups(v: Seq<CfaInfo>, n: nat) -> Seq<Seq<char>>
    decreases n,
{
    if n == 0 {
        Seq::empty()
    } else {
        let before = function_groups(v, (n - 1) as nat);
        let unit_idx = v[n - 1].unit_idx;
        if unit_seen(v, unit_idx, n - 1) {
            before
        } else {
            let lines = function_lines(v, unit_idx, v.len());
            before.push(
                "Compilation Unit "@ + decimal(unit_idx as int) + ": "@ + decimal(
                    lines.len() as int,
                ) + " functions"@,
            ) + lines
        }
    }
}

/// Adds the functions of a compilation unit.
fn push_unit_functions(v: &Vec<CfaInfo>, unit_idx: usize, out: &mut Vec<String>)
    ensures
        strings(final(out)@) == strings(old(out)@) + function_lines(v@, unit_idx, v@.len()),
{
    let ghost before = strings(out@);
    let n: usize = v.len();
    assert(before =~= before + function_lines(v@, unit_idx, 0));
    for i in 0..n
        invariant
            n == v@.len(),
            strings(out@) == before + function_lines(v@, unit_idx, i as nat),
    {
        if v[i].unit_idx == unit_idx {
            let f = &v[i];
            let mut s = "  ".to_owned();
            s.append(f.function.as_str());
            s.append(" (0x");
            let h = hex8(f.low_pc, false);
            s.append(h.as_str());
            s.append("-0x");
            let h = hex8(f.high_pc, false);
            s.append(h.as_str());
            s.append(") [");
            match f.cfa_offset {
                Some(offset) => {
                    let mut c = "CFA+".to_owned();
                    let d = decimal_i64(offset);
                    c.append(d.as_str());
                    s.append(c.as_str());
                },
                None => s.append("CFA unknown"),
            }
            s.append("]");
            push_line(out, s);
        }
        assert(strings(out@) =~= before + function_lines(v@, unit_idx, (i + 1) as nat));
    }
}

/// Adds the functions, grouped by compilation unit.
fn push_functions(v: &Vec<CfaInfo>, out: &mut Vec<String>)
    ensures
        strings(final(out)@) == strings(old(out)@) + function_groups(v@, v@.len()),
{
    let ghost before = strings(out@);
    let n: usize = v.len();
    assert(before =~= before + function_groups(v@, 0));
    for i in 0..n
        invariant
            n == v@.len(),
            strings(out@) == before + function_groups(v@, i as nat),
    {
        let unit_idx: usize = v[i].unit_idx;
        let mut seen = false;
        for k in 0..i
            invariant
                i < n,
                n == v@.len(),
                seen == unit_seen(v@, unit_idx, k as int),
        {
            if v[k].unit_idx == unit_idx {
                seen = true;
                assert(v@[k as int].unit_idx == unit_idx);
            }
        }
        if !seen {
            let mut lines: Vec<String> = Vec::new();
            push_unit_functions(v, unit_idx, &mut lines);
            assert(strings(lines@) =~= function_lines(v@, unit_idx, v@.len()));
            let mut s = numbered_line("Compilation Unit ", unit_idx as u64, ": ");
            let d = decimal_u64(lines.len() as u64);
            s.append(d.as_str());
            s.append(" functions");
            push_line(out, s);
            push_unit_functions(v, unit_idx, out);
        }
        assert(strings(out@) =~= before + function_groups(v@, (i + 1) as nat));
    }
}

/// The references are those of a set, in ascending order.
pub open spec fn lists(refs: Seq<usize>, all: Set<usize>) -> bool {
    &&& forall|i: int, j: int| 0 <= i < j < refs.len() ==> #[trigger] refs[i] < #[trigger] refs[j]
    &&& forall|r: usize| #[trigger] refs.contains(r) <==> all.contains(r)
}

/// A reference is one of the first `n`.
spec fn among(keys: Seq<&usize>, n: int, q: usize) -> bool {
    exists|k: int| 0 <= k < n && k < keys.len() && *(#[trigger] keys[k]) == q
}

/// The references of a set are among those that it is made of.
proof fn lemma_among(keys: Seq<&usize>, all: Set<usize>)
    requires
        keys.unref().to_set() == all,
    ensures
        forall|q: usize| #[trigger] all.contains(q) <==> among(keys, keys.len() as int, q),
{
    assert forall|q: usize| #[trigger] all.contains(q) <==> among(keys, keys.len() as int, q) by {
        let u = keys.unref();
        if all.contains(q) {
            assert(u.contains(q));
            let k = choose|k: int| 0 <= k < u.len() && u[k] == q;
            assert(*keys[k] == q);
        }
        if among(keys, keys.len() as int, q) {
            let k = choose|k: int| 0 <= k < keys.len() && k < keys.len() && *(#[trigger] keys[k]) == q;
            assert(u[k] == q);
            assert(u.contains(q));
        }
    }
}

/// Puts a reference into an ascending list that does not hold it.
fn insert_ref(refs: &mut Vec<usize>, r: usize)
    requires
        forall|i: int, j: int|
            0 <= i < j < old(refs)@.len() ==> #[trigger] old(refs)@[i] < #[trigger] old(refs)@[j],
        !old(refs)@.contains(r),
    ensures
        forall|i: int, j: int|
            0 <= i < j < final(refs)@.len() ==> #[trigger] final(refs)@[i]
                < #[trigger] final(refs)@[j],
        forall|q: usize| #[trigger]
            final(refs)@.contains(q) <==> old(refs)@.contains(q) || q == r,
{
    let ghost before = refs@;
    let mut i: usize = refs.len();
    while i > 0 && refs[i - 1] > r
        invariant
            i <= refs@.len(),
            refs@ == before,
            forall|k: int| i <= k < before.len() ==> #[trigger] before[k] > r,
        decreases i,
    {
        i = i - 1;
    }
    refs.insert(i, r);
    proof {
        let after = refs@;
        assert forall|a: int, b: int| 0 <= a < b < after.len() implies #[trigger] after[a]
            < #[trigger] after[b] by {
            let x = if a < i {
                before[a]
            } else if a == i {
                r
            } else {
                before[a - 1]
            };
            let y = if b < i {
                before[b]
            } else if b == i {
                r
            } else {
                before[b - 1]
            };
            assert(after[a] == x && after[b] == y);
            if i > 0 {
                assert(before.contains(before[i - 1]));
            }
        }
        assert forall|q: usize| #[trigger] after.contains(q) <==> before.contains(q) || q == r by {
            if after.contains(q) {
                let k = choose|k: int| 0 <= k < after.len() && after[k] == q;
                if k < i {
                    assert(before[k] == q);
                } else if k > i {
                    assert(before[k - 1] == q);
                }
            }
            if before.contains(q) {
                let k = choose|k: int| 0 <= k < before.len() && before[k] == q;
                if k < i {
                    assert(after[k] == q);
                } else {
                    assert(after[k + 1] == q);
                }
            }
            assert(after[i as int] == r);
        }
    }
}

impl DebugData {
    /// The references of the known types in ascending order.
    fn sorted_refs(&self) -> (refs: Vec<usize>)
        ensures
            lists(refs@, self.types@.dom()),
    {
        broadcast use vstd::std_specs::hash::group_hash_axioms;

        let mut refs: Vec<usize> = Vec::new();
        for r in it: self.types.keys()
            invariant
                it.seq().no_duplicates(),
                it.seq().unref().to_set() == self.types@.dom(),
                it.index() == it.seq().len() ==> forall|q: usize| #[trigger]
                    refs@.contains(q) <==> self.types@.dom().contains(q),
                forall|i: int, j: int|
                    0 <= i < j < refs@.len() ==> #[trigger] refs@[i] < #[trigger] refs@[j],
                forall|q: usize| #[trigger]
                    refs@.contains(q) <==> among(it.seq(), it.index() as int, q),
        {
            let ghost keys = it.seq();
            let ghost at = it.index() as int;
            let ghost before = refs@;
            proof {
                if before.contains(*r) {
                    let k = choose|k: int| 0 <= k < at && k < keys.len() && *(#[trigger] keys[k]) == *r;
                    assert(keys[k] == keys[at]);
                }
            }
            insert_ref(&mut refs, *r);
            proof {
                assert forall|q: usize| #[trigger] refs@.contains(q) <==> among(
                    keys,
                    at + 1,
                    q,
                ) by {
                    if among(keys, at, q) {
                        let k = choose|k: int|
                            0 <= k < at && k < keys.len() && *(#[trigger] keys[k]) == q;
                        assert(*keys[k] == q);
                    }
                    if among(keys, at + 1, q) {
                        let k = choose|k: int|
                            0 <= k < at + 1 && k < keys.len() && *(#[trigger] keys[k]) == q;
                        if k < at {
                            assert(among(keys, at, q));
                        }
                    }
                    assert(*keys[at] == *r);
                    assert(refs@.contains(q) <==> before.contains(q) || q == *r);
                    assert(before.contains(q) <==> among(keys, at, q));
                }
                lemma_among(keys, self.types@.dom());
            }
        }
        refs
    }
}

impl DebugData {
    /// The report at a level: the summary, the compilation units, the sections and the markers; from
    /// level 1 on the variables, from 2 on their types and the functions, from 3 on the demangled
    /// names, from 4 on the names of types, from 5 on the types.
    pub open spec fn info_lines(&self, level: usize, unit_idx_limit: usize, refs: Seq<usize>) -> Seq<
        Seq<char>,
    > {
        let none = Seq::<Seq<char>>::empty();
        let sections = by_start(self.sections.order());
        self.stats_lines() + heading("Compilation units in debug_data.unit_names:"@)
            + self.unit_lines(self.unit_names@.len()) + seq![""@] + heading(
            "Memory Sections in debug_data.sections:"@,
        ) + section_lines(sections, sections.len()) + (if level >= 4 {
            heading("Type names in debug_data.typenames:"@) + self.type_name_lines(
                self.typenames.order().len(),
            )
        } else {
            none
        }) + (if level >= 5 {
            heading("Types in debug_data.types:"@) + self.type_lines(refs, refs.len())
        } else {
            none
        }) + (if level >= 3 {
            heading(""@) + seq!["Demangled Names:"@] + self.demangled_lines(
                self.demangled_names.order().len(),
            )
        } else {
            none
        }) + heading("A2L Creator variables:"@) + self.marker_lines(self.vars().len()) + (if level
            >= 1 {
            heading("Variables:"@) + seq![
                "  (Skipping system variables '__<name>' and global XCP variables 'gXcp..' and 'gA2l..')"@,
            ] + self.variable_lines(level, unit_idx_limit, self.vars().len())
        } else {
            none
        }) + (if level >= 2 {
            heading("Functions and CFA information by compilation unit:"@) + function_groups(
                self.cfa_info@,
                self.cfa_info@.len(),
            )
        } else {
            none
        })
    }

    /// The debug information as text, more of it the higher the level; variables only of compilation
    /// units up to a limit.
    pub fn debug_info(&self, level: usize, unit_idx_limit: usize) -> (lines: Vec<String>)
        requires
            self.instances_countable(),
        ensures
            exists|refs: Seq<usize>|
                lists(refs, self.types@.dom()) && strings(lines@) == #[trigger] self.info_lines(
                    level,
                    unit_idx_limit,
                    refs,
                ),
    {
        let ghost none = Seq::<Seq<char>>::empty();
        let mut out = self.debug_stats();
        push_heading(&mut out, "Compilation units in debug_data.unit_names:");
        self.push_units(&mut out);
        let ghost before = strings(out@);
        push_line(&mut out, "".to_owned());
        assert(strings(out@) =~= before + seq![""@]);
        push_heading(&mut out, "Memory Sections in debug_data.sections:");
        push_sections(&self.sections, &mut out);
        let ghost before = strings(out@);
        let ghost part = if level >= 4 {
            heading("Type names in debug_data.typenames:"@) + self.type_name_lines(
                self.typenames.order().len(),
            )
        } else {
            none
        };
        if level >= 4 {
            push_heading(&mut out, "Type names in debug_data.typenames:");
            self.push_type_names(&mut out);
        }
        assert(strings(out@) =~= before + part);
        let refs = self.sorted_refs();
        let ghost before = strings(out@);
        let ghost part = if level >= 5 {
            heading("Types in debug_data.types:"@) + self.type_lines(refs@, refs@.len())
        } else {
            none
        };
        if level >= 5 {
            push_heading(&mut out, "Types in debug_data.types:");
            assert forall|i: int| 0 <= i < refs@.len() implies self.types@.contains_key(
                #[trigger] refs@[i],
            ) by {
                assert(refs@.contains(refs@[i]));
            }
            self.push_types(&refs, &mut out);
        }
        assert(strings(out@) =~= before + part);
        let ghost before = strings(out@);
        let ghost part = if level >= 3 {
            heading(""@) + seq!["Demangled Names:"@] + self.demangled_lines(
                self.demangled_names.order().len(),
            )
        } else {
            none
        };
        if level >= 3 {
            push_heading(&mut out, "");
            push_line(&mut out, "Demangled Names:".to_owned());
            self.push_demangled(&mut out);
        }
        assert(strings(out@) =~= before + part);
        push_heading(&mut out, "A2L Creator variables:");
        self.push_markers(&mut out);
        let ghost before = strings(out@);
        let ghost part = if level >= 1 {
            heading("Variables:"@) + seq![
                "  (Skipping system variables '__<name>' and global XCP variables 'gXcp..' and 'gA2l..')"@,
            ] + self.variable_lines(level, unit_idx_limit, self.vars().len())
        } else {
            none
        };
        if level >= 1 {
            push_heading(&mut out, "Variables:");
            push_line(
                &mut out,
                "  (Skipping system variables '__<name>' and global XCP variables 'gXcp..' and 'gA2l..')".to_owned(),
            );
            self.push_variables(level, unit_idx_limit, &mut out);
        }
        assert(strings(out@) =~= before + part);
        let ghost before = strings(out@);
        let ghost part = if level >= 2 {
            heading("Functions and CFA information by compilation unit:"@) + function_groups(
                self.cfa_info@,
                self.cfa_info@.len(),
            )
        } else {
            none
        };
        if level >= 2 {
            push_heading(&mut out, "Functions and CFA information by compilation unit:");
            push_functions(&self.cfa_info, &mut out);
        }
        assert(strings(out@) =~= before + part);
        assert(strings(out@) == self.info_lines(level, unit_idx_limit, refs@));
        out
    }
}

} // verus!
