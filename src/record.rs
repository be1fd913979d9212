//! Alignment records as the plot reads them, and their conversion into reads:
//! the displayed span with soft clips, the native CIGAR text, and the diff.

use vstd::prelude::*;
use crate::cigar::PlotCigar;
use crate::diff::{diff_edits, read_consumed, ref_consumed, AlignOp};
use crate::read::{AuxRecord, Read};
use crate::text::{decimal, push_decimal, string_from_chars};

verus! {

/// The fields of an alignment record that a plot uses.
#[derive(Debug)]
pub struct AlignmentRecord {
    /// Query name.
    pub name: String,
    /// Native alignment operations.
    pub cigar: Vec<AlignOp>,
    /// Stored read bases.
    pub seq: Vec<char>,
    /// 0-based start of the alignment, soft clips excluded.
    pub pos: i64,
    /// End of the alignment on the reference, soft clips excluded.
    pub reference_end: i64,
    pub flags: u16,
    pub mapq: u8,
    /// Whether the read has a mate.
    pub paired: bool,
    /// Mate position as recorded.
    pub mpos: i64,
    pub aux: AuxRecord,
}

/// Why a record cannot become a read.
#[derive(Debug, Clone, Copy, PartialEq, Eq, Structural)]
pub enum RecordError {
    /// The displayed span does not fit in 64-bit coordinates.
    SpanOutOfRange,
    /// The operations consume more read bases than the record stores.
    ReadTooShort,
    /// The operations consume more reference bases than were fetched.
    ReferenceTooShort,
}

pub open spec fn op_length(op: AlignOp) -> nat {
    match op {
        AlignOp::Match(l) => l as nat,
        AlignOp::Ins(l) => l as nat,
        AlignOp::Del(l) => l as nat,
        AlignOp::RefSkip(l) => l as nat,
        AlignOp::SoftClip(l) => l as nat,
        AlignOp::HardClip(l) => l as nat,
        AlignOp::Pad(l) => l as nat,
        AlignOp::Equal(l) => l as nat,
        AlignOp::Diff(l) => l as nat,
    }
}

/// The letter of an operation in CIGAR text.
pub open spec fn op_letter(op: AlignOp) -> char {
    match op {
        AlignOp::Match(_) => 'M',
        AlignOp::Ins(_) => 'I',
        AlignOp::Del(_) => 'D',
        AlignOp::RefSkip(_) => 'N',
        AlignOp::SoftClip(_) => 'S',
        AlignOp::HardClip(_) => 'H',
        AlignOp::Pad(_) => 'P',
        AlignOp::Equal(_) => '=',
        AlignOp::Diff(_) => 'X',
    }
}

/// CIGAR text: each operation as its length followed by its letter.
pub open spec fn native_cigar_text(ops: Seq<AlignOp>) -> Seq<char>
    decreases ops.len(),
{
    if ops.len() == 0 {
        seq![]
    } else {
        native_cigar_text(ops.drop_last()) + decimal(op_length(ops.last())).push(op_letter(ops.last()))
    }
}

/// Soft-clipped bases at one end: the first operation when it is a soft
/// clip, or the second when the first is a hard clip.
pub open spec fn end_clip(first: Option<AlignOp>, second: Option<AlignOp>) -> nat {
    match (first, second) {
        (Some(AlignOp::SoftClip(s)), _) => s as nat,
        (Some(AlignOp::HardClip(_)), Some(AlignOp::SoftClip(s))) => s as nat,
        _ => 0,
    }
}

pub open spec fn nth_op(ops: Seq<AlignOp>, i: int) -> Option<AlignOp> {
    if 0 <= i < ops.len() {
        Some(ops[i])
    } else {
        None
    }
}

pub open spec fn leading_clip(ops: Seq<AlignOp>) -> nat {
    end_clip(nth_op(ops, 0), nth_op(ops, 1))
}

pub open spec fn trailing_clip(ops: Seq<AlignOp>) -> nat {
    end_clip(nth_op(ops, ops.len() - 1), nth_op(ops, ops.len() - 2))
}

fn end_clip_exec(first: Option<AlignOp>, second: Option<AlignOp>) -> (r: u32)
    ensures
        r as nat == end_clip(first, second),
{
    match (first, second) {
        (Some(AlignOp::SoftClip(s)), _) => s,
        (Some(AlignOp::HardClip(_)), Some(AlignOp::SoftClip(s))) => s,
        _ => 0,
    }
}

fn nth_op_exec(ops: &Vec<AlignOp>, i: usize, present: bool) -> (r: Option<AlignOp>)
    requires
        present ==> i < ops.len(),
    ensures
        present ==> r == nth_op(ops@, i as int),
        !present ==> r is None,
{
    if present {
        Some(ops[i])
    } else {
        None
    }
}

/// Appends the CIGAR text of the operations.
fn push_native_cigar(out: &mut Vec<char>, ops: &Vec<AlignOp>)
    ensures
        final(out)@ == old(out)@ + native_cigar_text(ops@),
{
    let ghost start = out@;
    let mut j: usize = 0;
    while j < ops.len()
        invariant
            j <= ops.len(),
            out@ == start + native_cigar_text(ops@.take(j as int)),
        decreases ops.len() - j,
    {
        let op = ops[j];
        let (len, letter): (u32, char) = match op {
            AlignOp::Match(l) => (l, 'M'),
            AlignOp::Ins(l) => (l, 'I'),
            AlignOp::Del(l) => (l, 'D'),
            AlignOp::RefSkip(l) => (l, 'N'),
            AlignOp::SoftClip(l) => (l, 'S'),
            AlignOp::HardClip(l) => (l, 'H'),
            AlignOp::Pad(l) => (l, 'P'),
            AlignOp::Equal(l) => (l, '='),
            AlignOp::Diff(l) => (l, 'X'),
        };
        push_decimal(out, len as u64);
        out.push(letter);
        proof {
            let t = ops@.take(j + 1);
            assert(t.drop_last() =~= ops@.take(j as int));
            assert(t.last() == op);
            assert(out@ =~= start + native_cigar_text(t));
        }
        j = j + 1;
    }
    assert(ops@.take(ops.len() as int) =~= ops@);
}

/// The read and reference bases the diff engine consumes for the operations.
fn consumed(ops: &Vec<AlignOp>) -> (r: (u128, u128))
    ensures
        r.0 == read_consumed(ops@),
        r.1 == ref_consumed(ops@),
{
    let mut reads: u128 = 0;
    let mut refs: u128 = 0;
    let mut j: usize = 0;
    while j < ops.len()
        invariant
            j <= ops.len(),
            reads == read_consumed(ops@.take(j as int)),
            refs == ref_consumed(ops@.take(j as int)),
            reads <= j * 0xFFFF_FFFF,
            refs <= j * 0xFFFF_FFFF,
        decreases ops.len() - j,
    {
        proof {
            let t = ops@.take(j + 1);
            assert(t.drop_last() =~= ops@.take(j as int));
            assert(t.last() == ops@[j as int]);
            assert(j * 0xFFFF_FFFF <= 0xFFFF_FFFF_FFFF_FFFF * 0xFFFF_FFFF) by (nonlinear_arith)
                requires j <= 0xFFFF_FFFF_FFFF_FFFF;
        }
        match ops[j] {
            AlignOp::Match(l) | AlignOp::SoftClip(l) => {
                reads = reads + l as u128;
                refs = refs + l as u128;
            },
            AlignOp::Ins(l) => {
                reads = reads + l as u128;
            },
            AlignOp::Del(l) => {
                refs = refs + l as u128;
            },
            _ => {},
        }
        j = j + 1;
    }
    assert(ops@.take(ops.len() as int) =~= ops@);
    (reads, refs)
}

/// Whether an operation is one that the diff engine does not render: a
/// reference skip, clip of bases not stored, padding, or explicit
/// match/mismatch.
pub open spec fn unsupported_op(op: AlignOp) -> bool {
    !(op is Match || op is SoftClip || op is Ins || op is Del)
}

impl AlignmentRecord {
    /// Soft-clipped bases before the alignment (after a leading hard clip).
    pub fn leading_softclips(&self) -> (r: u32)
        ensures
            r as nat == leading_clip(self.cigar@),
    {
        let n = self.cigar.len();
        let first = nth_op_exec(&self.cigar, 0, n > 0);
        let second = nth_op_exec(&self.cigar, 1, n > 1);
        end_clip_exec(first, second)
    }

    /// Soft-clipped bases after the alignment (before a trailing hard clip).
    pub fn trailing_softclips(&self) -> (r: u32)
        ensures
            r as nat == trailing_clip(self.cigar@),
    {
        let n = self.cigar.len();
        let last = if n > 0 {
            nth_op_exec(&self.cigar, n - 1, true)
        } else {
            None
        };
        let before = if n > 1 {
            nth_op_exec(&self.cigar, n - 2, true)
        } else {
            None
        };
        end_clip_exec(last, before)
    }

    /// The displayed span `[pos - leading clips, reference_end + trailing
    /// clips)`, when it fits in 64-bit coordinates.
    pub fn displayed_span(&self) -> (r: Option<(i64, i64)>)
        ensures
            ({
                let lo = self.pos - leading_clip(self.cigar@);
                let hi = self.reference_end + trailing_clip(self.cigar@);
                if i64::MIN <= lo && hi <= i64::MAX {
                    r == Some((lo as i64, hi as i64))
                } else {
                    r is None
                }
            }),
    {
        let lo: i128 = self.pos as i128 - self.leading_softclips() as i128;
        let hi: i128 = self.reference_end as i128 + self.trailing_softclips() as i128;
        if lo >= i64::MIN as i128 && hi <= i64::MAX as i128 {
            Some((lo as i64, hi as i64))
        } else {
            None
        }
    }

    /// Whether any operation is one the diff engine does not render, so that
    /// callers can flag such reads.
    pub fn has_unsupported_ops(&self) -> (r: bool)
        ensures
            r == exists|i: int| 0 <= i < self.cigar.len() && unsupported_op(#[trigger] self.cigar@[i]),
    {
        let mut j: usize = 0;
        while j < self.cigar.len()
            invariant
                j <= self.cigar.len(),
                forall|i: int| 0 <= i < j ==> !unsupported_op(#[trigger] self.cigar@[i]),
            decreases self.cigar.len() - j,
        {
            match self.cigar[j] {
                AlignOp::Match(_) | AlignOp::SoftClip(_) | AlignOp::Ins(_) | AlignOp::Del(_) => {},
                _ => {
                    return true;
                },
            }
            j = j + 1;
        }
        false
    }

    /// The CIGAR text of the record, e.g. `16M2I82M`.
    pub fn cigar_string(&self) -> (r: String)
        ensures
            r@ == native_cigar_text(self.cigar@),
    {
        let mut out: Vec<char> = Vec::new();
        push_native_cigar(&mut out, &self.cigar);
        string_from_chars(&out)
    }
}

impl Read {
    /// The read that a record shows, given the reference bases of its
    /// displayed span (see `AlignmentRecord::displayed_span`): its edit script,
    /// that span as position and end, and mate position `-1` when unpaired.
    pub fn from_record(record: AlignmentRecord, ref_seq: &Vec<char>) -> (r: Result<Read, RecordError>)
        ensures
            ({
                let lo = record.pos - leading_clip(record.cigar@);
                let hi = record.reference_end + trailing_clip(record.cigar@);
                if !(i64::MIN <= lo && hi <= i64::MAX) {
                    r == Err::<Read, RecordError>(RecordError::SpanOutOfRange)
                } else if read_consumed(record.cigar@) > record.seq.len() {
                    r == Err::<Read, RecordError>(RecordError::ReadTooShort)
                } else if ref_consumed(record.cigar@) > ref_seq.len() {
                    r == Err::<Read, RecordError>(RecordError::ReferenceTooShort)
                } else {
                    r matches Ok(read) && read.name == record.name && read.cigar@ == diff_edits(
                        record.cigar@,
                        record.seq@,
                        ref_seq@,
                    ) && read.position == lo && read.end_position == hi && read.flags
                        == record.flags && read.mapq == record.mapq && read.row is None
                        && read.mpos == (if record.paired { record.mpos as int } else { -1 })
                        && read.aux == record.aux && read.raw_cigar@ == native_cigar_text(
                        record.cigar@,
                    )
                }
            }),
    {
        let (lo, hi) = match record.displayed_span() {
            Some(span) => span,
            None => {
                return Err(RecordError::SpanOutOfRange);
            },
        };
        let (reads_used, refs_used) = consumed(&record.cigar);
        if reads_used > record.seq.len() as u128 {
            return Err(RecordError::ReadTooShort);
        }
        if refs_used > ref_seq.len() as u128 {
            return Err(RecordError::ReferenceTooShort);
        }
        let cigar = PlotCigar::from_cigar(&record.cigar, &record.seq, ref_seq);
        let raw_cigar = record.cigar_string();
        let mpos = if record.paired {
            record.mpos
        } else {
            -1
        };
        Ok(Read {
            name: record.name,
            cigar,
            position: lo,
            flags: record.flags,
            mapq: record.mapq,
            row: None,
            end_position: hi,
            mpos,
            aux: record.aux,
            raw_cigar,
        })
    }
}

} // verus!
