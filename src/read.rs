//! The read model: a read's edit script with its position, flags, mate and
//! auxiliary tags, and its compact one-line wire form.

use vstd::prelude::*;
use crate::cigar::{cigar_text, PlotCigar};
use crate::text::{decimal, push_decimal, push_signed, push_str, signed_decimal, string_from_chars};

verus! {

/// Auxiliary tag values of a read, as `(tag, value)` pairs in the order the
/// tags were asked for.
#[derive(Debug)]
pub struct AuxRecord(pub Vec<(String, String)>);

/// The text of one auxiliary entry, `tag: value`.
pub open spec fn aux_entry_text(e: (Seq<char>, Seq<char>)) -> Seq<char> {
    e.0 + seq![':', ' '] + e.1
}

/// The text of the auxiliary entries, joined by `, `.
pub open spec fn aux_text(es: Seq<(Seq<char>, Seq<char>)>) -> Seq<char>
    decreases es.len(),
{
    if es.len() == 0 {
        seq![]
    } else if es.len() == 1 {
        aux_entry_text(es[0])
    } else {
        aux_text(es.drop_last()) + seq![',', ' '] + aux_entry_text(es.last())
    }
}

/// The entries after recording `value` for `tag`: a tag seen before keeps its
/// place and takes the new value, a new tag goes last.
pub open spec fn aux_insert(es: Seq<(Seq<char>, Seq<char>)>, tag: Seq<char>, value: Seq<char>) -> Seq<
    (Seq<char>, Seq<char>),
> {
    if exists|i: int| 0 <= i < es.len() && #[trigger] es[i].0 == tag {
        let i = choose|i: int| 0 <= i < es.len() && #[trigger] es[i].0 == tag;
        es.update(i, (tag, value))
    } else {
        es.push((tag, value))
    }
}

/// The value recorded for a tag lookup: the value found, or `None` when the
/// read does not carry the tag.
pub open spec fn lookup_value(v: Option<String>) -> Seq<char> {
    match v {
        Some(s) => s@,
        None => seq!['N', 'o', 'n', 'e'],
    }
}

/// The entries that a list of tag lookups records, in order.
pub open spec fn aux_entries(lookups: Seq<(String, Option<String>)>) -> Seq<(Seq<char>, Seq<char>)>
    decreases lookups.len(),
{
    if lookups.len() == 0 {
        seq![]
    } else {
        aux_insert(
            aux_entries(lookups.drop_last()),
            lookups.last().0@,
            lookup_value(lookups.last().1),
        )
    }
}

impl View for AuxRecord {
    type V = Seq<(Seq<char>, Seq<char>)>;

    open spec fn view(&self) -> Seq<(Seq<char>, Seq<char>)> {
        self.0@.map_values(|e: (String, String)| (e.0@, e.1@))
    }
}

impl AuxRecord {
    /// The record of the asked-for tags, from the lookups made on a read: each
    /// tag with the value found, or with `None` where the read lacks it.
    pub fn new(aux_tags: Option<Vec<(String, Option<String>)>>) -> (r: AuxRecord)
        ensures
            aux_tags matches Some(lookups) ==> r@ == aux_entries(lookups@),
            aux_tags is None ==> r@.len() == 0,
    {
        let mut entries: Vec<(String, String)> = Vec::new();
        match aux_tags {
            None => {
                assert(AuxRecord(entries)@ =~= seq![]);
            },
            Some(lookups) => {
                let ghost all = lookups@;
                for item in it: lookups.into_iter()
                    invariant
                        it.seq() == all,
                        entries@.map_values(|e: (String, String)| (e.0@, e.1@)) == aux_entries(
                            all.take(it.index() as int),
                        ),
                        forall|a: int, b: int|
                            0 <= a < b < entries.len() ==> #[trigger] entries@[a].0@
                                != #[trigger] entries@[b].0@,
                {
                    let ghost k = it.index();
                    let (tag, found) = item;
                    let value = match found {
                        Some(v) => v,
                        None => String::from_str("None"),
                    };
                    proof {
                        reveal_strlit("None");
                    }
                    let ghost before = entries@.map_values(|e: (String, String)| (e.0@, e.1@));
                    let ghost tv = tag@;
                    let ghost vv = value@;
                    assert(all.take(k + 1).drop_last() =~= all.take(k as int));
                    assert(vv == lookup_value(all[k as int].1));
                    let mut i: usize = 0;
                    let mut found_at: Option<usize> = None;
                    while i < entries.len()
                        invariant
                            i <= entries.len(),
                            tv == tag@,
                            before == entries@.map_values(|e: (String, String)| (e.0@, e.1@)),
                            found_at matches Some(j) ==> j < entries.len() && before[j as int].0 == tv,
                            found_at is None ==> forall|j: int| 0 <= j < i ==> before[j].0 != tv,
                        decreases entries.len() - i,
                    {
                        assert(before[i as int] == (entries@[i as int].0@, entries@[i as int].1@));
                        if found_at.is_none() && entries[i].0 == tag {
                            found_at = Some(i);
                        }
                        i = i + 1;
                    }
                    match found_at {
                        Some(j) => {
                            proof {
                                let w = choose|w: int| 0 <= w < before.len() && #[trigger] before[w].0 == tv;
                                assert(before[w].0 == tv);
                                assert(entries@[w].0@ == entries@[j as int].0@);
                                assert(w == j);
                            }
                            let ghost old_entries = entries@;
                            entries.set(j, (tag, value));
                            assert(entries@.map_values(|e: (String, String)| (e.0@, e.1@)) =~= before.update(j as int, (tv, vv)));
                            assert forall|a: int, b: int| 0 <= a < b < entries.len() implies #[trigger] entries@[a].0@
                                != #[trigger] entries@[b].0@ by {
                                if a != j && b != j {
                                    assert(entries@[a] == old_entries[a]);
                                    assert(entries@[b] == old_entries[b]);
                                } else if a == j {
                                    assert(entries@[b] == old_entries[b]);
                                    assert(old_entries[a].0@ == tv);
                                } else {
                                    assert(entries@[a] == old_entries[a]);
                                    assert(old_entries[b].0@ == tv);
                                }
                            }
                        },
                        None => {
                            let ghost old_entries = entries@;
                            entries.push((tag, value));
                            assert(entries@.map_values(|e: (String, String)| (e.0@, e.1@)) =~= before.push((tv, vv)));
                            assert forall|a: int, b: int| 0 <= a < b < entries.len() implies #[trigger] entries@[a].0@
                                != #[trigger] entries@[b].0@ by {
                                assert(entries@[a] == old_entries.push(entries@[old_entries.len() as int])[a]);
                                if b < old_entries.len() {
                                    assert(entries@[b] == old_entries[b]);
                                    assert(entries@[a] == old_entries[a]);
                                } else {
                                    assert(entries@[a] == old_entries[a]);
                                    assert(before[a].0 != tv);
                                }
                            }
                        },
                    }
                }
                assert(all.take(all.len() as int) =~= all);
            },
        }
        AuxRecord(entries)
    }
}

impl AuxRecord {
    /// Appends the text of the entries.
    fn push_text(&self, out: &mut Vec<char>)
        ensures
            final(out)@ == old(out)@ + aux_text(self@),
    {
        let ghost start = out@;
        let mut i: usize = 0;
        while i < self.0.len()
            invariant
                i <= self.0.len(),
                out@ == start + aux_text(self@.take(i as int)),
            decreases self.0.len() - i,
        {
            let ghost prev = out@;
            if i > 0 {
                out.push(',');
                out.push(' ');
            }
            push_str(out, self.0[i].0.as_str());
            out.push(':');
            out.push(' ');
            push_str(out, self.0[i].1.as_str());
            proof {
                let t = self@.take(i + 1);
                assert(t.drop_last() =~= self@.take(i as int));
                assert(t.last() == (self.0@[i as int].0@, self.0@[i as int].1@));
                if i == 0 {
                    assert(out@ =~= start + aux_entry_text(t[0]));
                } else {
                    assert(out@ =~= start + (aux_text(t.drop_last()) + seq![',', ' '] + aux_entry_text(t.last())));
                }
            }
            i = i + 1;
        }
        assert(self@.take(self.0.len() as int) =~= self@);
    }

    /// The entries as text: `tag: value` pairs joined by `, `.
    pub fn to_string(&self) -> (r: String)
        ensures
            r@ == aux_text(self@),
    {
        let mut out: Vec<char> = Vec::new();
        self.push_text(&mut out);
        string_from_chars(&out)
    }
}

impl PartialEq for AuxRecord {
    fn eq(&self, other: &AuxRecord) -> (r: bool)
        ensures
            r == (self@ == other@),
    {
        if self.0.len() != other.0.len() {
            proof {
                assert(self@.len() != other@.len());
            }
            return false;
        }
        let mut i: usize = 0;
        while i < self.0.len()
            invariant
                self.0.len() == other.0.len(),
                i <= self.0.len(),
                forall|j: int| 0 <= j < i ==> self@[j] == other@[j],
            decreases self.0.len() - i,
        {
            if !(self.0[i].0 == other.0[i].0 && self.0[i].1 == other.0[i].1) {
                proof {
                    assert(self@[i as int] != other@[i as int]);
                }
                return false;
            }
            i = i + 1;
        }
        assert(self@ =~= other@);
        true
    }
}

impl vstd::std_specs::cmp::PartialEqSpecImpl for AuxRecord {
    open spec fn obeys_eq_spec() -> bool {
        true
    }

    open spec fn eq_spec(&self, other: &AuxRecord) -> bool {
        self@ == other@
    }
}

impl Default for AuxRecord {
    fn default() -> (r: AuxRecord)
        ensures
            r@.len() == 0,
    {
        AuxRecord(Vec::new())
    }
}

/// A read as the plot shows it: its edit script, its displayed span
/// `[position, end_position)` (soft clips included), flags, mapping quality,
/// mate position (`-1` when unpaired), display row and auxiliary tags.
#[derive(Debug)]
pub struct Read {
    pub name: String,
    pub cigar: PlotCigar,
    pub position: i64,
    pub flags: u16,
    pub mapq: u8,
    pub row: Option<u32>,
    pub end_position: i64,
    pub mpos: i64,
    pub aux: AuxRecord,
    pub raw_cigar: String,
}

/// The text of a row: its number, or `.` when unassigned.
pub open spec fn row_text(row: Option<u32>) -> Seq<char> {
    match row {
        Some(r) => decimal(r as nat),
        None => seq!['.'],
    }
}

/// `s` with every space replaced by an underscore.
pub open spec fn underscored(s: Seq<char>) -> Seq<char> {
    s.map_values(|c: char| if c == ' ' { '_' } else { c })
}

/// The wire form of a read: the fields `aux cigar flags mapq mpos name
/// position row raw_cigar` separated by single spaces, with the spaces of the
/// auxiliary text turned into underscores.
pub open spec fn read_text(r: Read) -> Seq<char> {
    underscored(aux_text(r.aux@)) + seq![' '] + cigar_text(r.cigar@) + seq![' '] + decimal(
        r.flags as nat,
    ) + seq![' '] + decimal(r.mapq as nat) + seq![' '] + signed_decimal(r.mpos as int) + seq![' ']
        + r.name@ + seq![' '] + signed_decimal(r.position as int) + seq![' '] + row_text(r.row)
        + seq![' '] + r.raw_cigar@
}

/// Appends `s` with spaces turned into underscores.
fn push_underscored(out: &mut Vec<char>, s: &Vec<char>)
    ensures
        final(out)@ == old(out)@ + underscored(s@),
{
    let ghost start = out@;
    let mut i: usize = 0;
    while i < s.len()
        invariant
            i <= s.len(),
            out@ == start + underscored(s@.take(i as int)),
        decreases s.len() - i,
    {
        let c = s[i];
        if c == ' ' {
            out.push('_');
        } else {
            out.push(c);
        }
        assert(underscored(s@.take(i + 1)) =~= underscored(s@.take(i as int)).push(
            if c == ' ' { '_' } else { c },
        ));
        i = i + 1;
    }
    assert(s@.take(s.len() as int) =~= s@);
}

impl Read {
    /// Appends the wire form of the read.
    fn push_encoded(&self, out: &mut Vec<char>)
        ensures
            final(out)@ == old(out)@ + read_text(*self),
    {
        let ghost start = out@;
        let mut aux: Vec<char> = Vec::new();
        self.aux.push_text(&mut aux);
        push_underscored(out, &aux);
        out.push(' ');
        let cig = self.cigar.to_chars();
        let mut i: usize = 0;
        let ghost mid = out@;
        while i < cig.len()
            invariant
                i <= cig.len(),
                out@ == mid + cig@.take(i as int),
            decreases cig.len() - i,
        {
            assert(cig@.take(i + 1) =~= cig@.take(i as int).push(cig@[i as int]));
            out.push(cig[i]);
            i = i + 1;
        }
        assert(cig@.take(cig.len() as int) =~= cig@);
        let ghost sp = seq![' '];
        let ghost t1 = underscored(aux_text(self.aux@)) + sp + cigar_text(self.cigar@);
        assert(out@ =~= start + t1);
        out.push(' ');
        push_decimal(out, self.flags as u64);
        let ghost t2 = t1 + sp + decimal(self.flags as nat);
        assert(out@ =~= start + t2);
        out.push(' ');
        push_decimal(out, self.mapq as u64);
        let ghost t3 = t2 + sp + decimal(self.mapq as nat);
        assert(out@ =~= start + t3);
        out.push(' ');
        push_signed(out, self.mpos);
        let ghost t4 = t3 + sp + signed_decimal(self.mpos as int);
        assert(out@ =~= start + t4);
        out.push(' ');
        push_str(out, self.name.as_str());
        let ghost t5 = t4 + sp + self.name@;
        assert(out@ =~= start + t5);
        out.push(' ');
        push_signed(out, self.position);
        let ghost t6 = t5 + sp + signed_decimal(self.position as int);
        assert(out@ =~= start + t6);
        out.push(' ');
        match self.row {
            Some(r) => push_decimal(out, r as u64),
            None => out.push('.'),
        }
        let ghost t7 = t6 + sp + row_text(self.row);
        assert(out@ =~= start + t7);
        out.push(' ');
        push_str(out, self.raw_cigar.as_str());
        let ghost t8 = t7 + sp + self.raw_cigar@;
        assert(out@ =~= start + t8);
        assert(t8 == read_text(*self));
    }

    /// The wire form of the read.
    pub fn encode(&self) -> (r: String)
        ensures
            r@ == read_text(*self),
    {
        let mut out: Vec<char> = Vec::new();
        self.push_encoded(&mut out);
        string_from_chars(&out)
    }

    /// Assigns the read its display row.
    pub fn set_row(&mut self, row: u32)
        ensures
            *final(self) == (Read { row: Some(row), ..*old(self) }),
    {
        self.row = Some(row);
    }
}

/// Several reads in wire form, joined by `§`.
#[derive(Debug)]
pub struct EncodedRead {
    pub values: String,
}

/// The wire forms of reads, joined by `§`.
pub open spec fn reads_text(rs: Seq<Read>) -> Seq<char>
    decreases rs.len(),
{
    if rs.len() == 0 {
        seq![]
    } else if rs.len() == 1 {
        read_text(rs[0])
    } else {
        reads_text(rs.drop_last()) + seq!['§'] + read_text(rs.last())
    }
}

impl EncodedRead {
    /// All reads in wire form, joined by `§`.
    pub fn from_reads(reads: Vec<Read>) -> (r: EncodedRead)
        ensures
            r.values@ == reads_text(reads@),
    {
        let mut out: Vec<char> = Vec::new();
        let mut i: usize = 0;
        while i < reads.len()
            invariant
                i <= reads.len(),
                out@ == reads_text(reads@.take(i as int)),
            decreases reads.len() - i,
        {
            let ghost prev = out@;
            if i > 0 {
                out.push('§');
            }
            reads[i].push_encoded(&mut out);
            proof {
                let t = reads@.take(i + 1);
                assert(t.drop_last() =~= reads@.take(i as int));
                if i == 0 {
                    assert(out@ =~= read_text(t[0]));
                } else {
                    assert(out@ =~= reads_text(t.drop_last()) + seq!['§'] + read_text(t.last()));
                }
            }
            i = i + 1;
        }
        assert(reads@.take(reads.len() as int) =~= reads@);
        EncodedRead { values: string_from_chars(&out) }
    }
}

impl PartialEq for EncodedRead {
    fn eq(&self, other: &EncodedRead) -> (r: bool)
        ensures
            r == (self.values@ == other.values@),
    {
        self.values == other.values
    }
}

impl vstd::std_specs::cmp::PartialEqSpecImpl for EncodedRead {
    open spec fn obeys_eq_spec() -> bool {
        true
    }

    open spec fn eq_spec(&self, other: &EncodedRead) -> bool {
        self.values@ == other.values@
    }
}

} // verus!
