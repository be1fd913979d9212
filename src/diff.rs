//! The diff engine: turns a read's native alignment operations, its bases and
//! the reference bases under its displayed span into an edit script.

use vstd::prelude::*;
use crate::cigar::{edit_span, edits_span, Edit, EditOp, PlotCigar};

verus! {

/// A native alignment operation with its length.
#[derive(Debug, Clone, Copy, PartialEq, Eq, Structural)]
pub enum AlignOp {
    Match(u32),
    Ins(u32),
    Del(u32),
    RefSkip(u32),
    SoftClip(u32),
    HardClip(u32),
    Pad(u32),
    Equal(u32),
    Diff(u32),
}

/// Read bases that the diff engine consumes for `op`.
pub open spec fn read_step(op: AlignOp) -> nat {
    match op {
        AlignOp::Match(l) => l as nat,
        AlignOp::SoftClip(l) => l as nat,
        AlignOp::Ins(l) => l as nat,
        _ => 0,
    }
}

/// Reference bases that the diff engine consumes for `op`.
pub open spec fn ref_step(op: AlignOp) -> nat {
    match op {
        AlignOp::Match(l) => l as nat,
        AlignOp::SoftClip(l) => l as nat,
        AlignOp::Del(l) => l as nat,
        _ => 0,
    }
}

pub open spec fn read_consumed(ops: Seq<AlignOp>) -> nat
    decreases ops.len(),
{
    if ops.len() == 0 {
        0
    } else {
        read_consumed(ops.drop_last()) + read_step(ops.last())
    }
}

pub open spec fn ref_consumed(ops: Seq<AlignOp>) -> nat
    decreases ops.len(),
{
    if ops.len() == 0 {
        0
    } else {
        ref_consumed(ops.drop_last()) + ref_step(ops.last())
    }
}

/// Whether a run edit goes on with one more compared position, `None`
/// standing for a base equal to the reference and `Some(b)` for a read base
/// `b` that differs from it.
pub open spec fn continues_run(e: Edit, key: Option<char>) -> bool {
    match (e, key) {
        (Edit::Match(_), None) => true,
        (Edit::Sub(_, b), Some(c)) => b == c,
        _ => false,
    }
}

pub open spec fn grow_run(e: Edit) -> Edit {
    match e {
        Edit::Match(n) => Edit::Match(n + 1),
        Edit::Sub(n, b) => Edit::Sub(n + 1, b),
        _ => e,
    }
}

pub open spec fn start_run(key: Option<char>) -> Edit {
    match key {
        None => Edit::Match(1),
        Some(b) => Edit::Sub(1, b),
    }
}

pub open spec fn compare_key(read_base: char, ref_base: char) -> Option<char> {
    if read_base == ref_base {
        None
    } else {
        Some(read_base)
    }
}

/// The runs of a position-by-position comparison of equally long read and
/// reference bases: maximal runs of equal bases become one match, maximal
/// runs of one differing read base become one substitution.
pub open spec fn compare_runs(read: Seq<char>, reference: Seq<char>) -> Seq<Edit>
    decreases read.len(),
{
    if read.len() == 0 {
        seq![]
    } else {
        let runs = compare_runs(read.drop_last(), reference.drop_last());
        let key = compare_key(read.last(), reference.last());
        if runs.len() > 0 && continues_run(runs.last(), key) {
            runs.update(runs.len() - 1, grow_run(runs.last()))
        } else {
            runs.push(start_run(key))
        }
    }
}

/// The edits that one alignment operation contributes, given the read and
/// reference offsets that the operations before it consumed.
pub open spec fn op_edits(
    op: AlignOp,
    read: Seq<char>,
    reference: Seq<char>,
    ri: int,
    fi: int,
) -> Seq<Edit> {
    match op {
        AlignOp::Match(l) => compare_runs(
            read.subrange(ri, ri + l),
            reference.subrange(fi, fi + l),
        ),
        AlignOp::SoftClip(l) => compare_runs(
            read.subrange(ri, ri + l),
            reference.subrange(fi, fi + l),
        ),
        AlignOp::Ins(l) => seq![Edit::Ins(read.subrange(ri, ri + l))],
        AlignOp::Del(l) => seq![Edit::Del(l as nat)],
        _ => seq![],
    }
}

/// The edit script of a read: the edits of its operations, in order.
pub open spec fn diff_edits(ops: Seq<AlignOp>, read: Seq<char>, reference: Seq<char>) -> Seq<Edit>
    decreases ops.len(),
{
    if ops.len() == 0 {
        seq![]
    } else {
        let prev = ops.drop_last();
        diff_edits(prev, read, reference) + op_edits(
            ops.last(),
            read,
            reference,
            read_consumed(prev) as int,
            ref_consumed(prev) as int,
        )
    }
}

spec fn run_within(e: Edit, k: nat) -> bool {
    match e {
        Edit::Match(n) => n <= k,
        Edit::Sub(n, _) => n <= k,
        _ => false,
    }
}

proof fn lemma_compare_runs_within(read: Seq<char>, reference: Seq<char>)
    ensures
        forall|j: int|
            0 <= j < compare_runs(read, reference).len() ==> run_within(
                #[trigger] compare_runs(read, reference)[j],
                read.len(),
            ),
    decreases read.len(),
{
    if read.len() > 0 {
        let prev = compare_runs(read.drop_last(), reference.drop_last());
        lemma_compare_runs_within(read.drop_last(), reference.drop_last());
        let runs = compare_runs(read, reference);
        assert forall|j: int| 0 <= j < runs.len() implies run_within(
            #[trigger] runs[j],
            read.len(),
        ) by {
            if j < prev.len() {
                assert(run_within(prev[j], (read.len() - 1) as nat));
            }
        }
    }
}

/// The one-position run that a read base `a` over a reference base `b` starts.
fn new_run(a: char, b: char) -> (r: EditOp)
    ensures
        r@ == start_run(compare_key(a, b)),
{
    if a == b {
        EditOp::Match { length: 1 }
    } else {
        EditOp::Sub { length: 1, base: a }
    }
}

/// Compares `read[rs..rs + len]` with `reference[fs..fs + len]` into runs.
fn compare_segment(
    read: &Vec<char>,
    rs: usize,
    reference: &Vec<char>,
    fs: usize,
    len: usize,
) -> (r: Vec<EditOp>)
    requires
        rs + len <= read.len(),
        fs + len <= reference.len(),
        len <= u32::MAX,
    ensures
        r@.map_values(|e: EditOp| e@) == compare_runs(
            read@.subrange(rs as int, rs + len),
            reference@.subrange(fs as int, fs + len),
        ),
{
    let mut runs: Vec<EditOp> = Vec::new();
    let mut k: usize = 0;
    while k < len
        invariant
            k <= len <= u32::MAX,
            rs + len <= read.len(),
            fs + len <= reference.len(),
            runs@.map_values(|e: EditOp| e@) == compare_runs(
                read@.subrange(rs as int, rs + k),
                reference@.subrange(fs as int, fs + k),
            ),
        decreases len - k,
    {
        let a = read[rs + k];
        let b = reference[fs + k];
        let key: Option<char> = if a == b {
            None
        } else {
            Some(a)
        };
        let ghost rd = read@.subrange(rs as int, rs + k + 1);
        let ghost rf = reference@.subrange(fs as int, fs + k + 1);
        let ghost before = runs@.map_values(|e: EditOp| e@);
        proof {
            assert(rd.drop_last() =~= read@.subrange(rs as int, rs + k));
            assert(rf.drop_last() =~= reference@.subrange(fs as int, fs + k));
            assert(rd.last() == a);
            assert(rf.last() == b);
            assert(key == compare_key(a, b));
        }
        let n = runs.len();
        proof {
            lemma_compare_runs_within(
                read@.subrange(rs as int, rs + k),
                reference@.subrange(fs as int, fs + k),
            );
            if n > 0 {
                assert(runs@[n - 1]@ == before[n - 1]);
            }
        }
        let grown: Option<EditOp> = if n == 0 {
            None
        } else {
            match &runs[n - 1] {
                EditOp::Match { length } => {
                    if a == b {
                        Some(EditOp::Match { length: *length + 1 })
                    } else {
                        None
                    }
                },
                EditOp::Sub { length, base } => {
                    if a != b && *base == a {
                        Some(EditOp::Sub { length: *length + 1, base: a })
                    } else {
                        None
                    }
                },
                _ => None,
            }
        };
        if let Some(g) = grown {
            proof {
                assert(continues_run(before.last(), key));
                assert(g@ == grow_run(before.last()));
            }
            runs.set(n - 1, g);
            assert(runs@.map_values(|e: EditOp| e@) =~= before.update(n - 1, grow_run(before.last())));
        } else {
            let fresh = new_run(a, b);
            proof {
                assert(!(before.len() > 0 && continues_run(before.last(), key)));
                assert(fresh@ == start_run(key));
            }
            runs.push(fresh);
            assert(runs@.map_values(|e: EditOp| e@) =~= before.push(start_run(key)));
        }
        k = k + 1;
    }
    runs
}

/// The runs of matches and substitutions of `read_seq` against `ref_seq`,
/// compared position by position.
pub fn match_bases(read_seq: &Vec<char>, ref_seq: &Vec<char>) -> (r: Vec<EditOp>)
    requires
        read_seq.len() == ref_seq.len(),
        read_seq.len() <= u32::MAX,
    ensures
        r@.map_values(|e: EditOp| e@) == compare_runs(read_seq@, ref_seq@),
{
    let r = compare_segment(read_seq, 0, ref_seq, 0, read_seq.len());
    assert(read_seq@.subrange(0, read_seq.len() as int) =~= read_seq@);
    assert(ref_seq@.subrange(0, ref_seq.len() as int) =~= ref_seq@);
    r
}

proof fn lemma_consumed_prefix(ops: Seq<AlignOp>, j: int)
    requires
        0 <= j <= ops.len(),
    ensures
        read_consumed(ops.take(j)) <= read_consumed(ops),
        ref_consumed(ops.take(j)) <= ref_consumed(ops),
    decreases ops.len(),
{
    if j < ops.len() {
        assert(ops.drop_last().take(j) =~= ops.take(j));
        lemma_consumed_prefix(ops.drop_last(), j);
    } else {
        assert(ops.take(j) =~= ops);
    }
}

impl PlotCigar {
    /// The edit script of a read from its alignment operations, its bases and
    /// the reference bases under its displayed span. Matches and soft clips
    /// compare read and reference base by base, an insertion takes the read
    /// bases, a deletion skips reference bases; other operations add nothing.
    pub fn from_cigar(cigar: &Vec<AlignOp>, read_seq: &Vec<char>, ref_seq: &Vec<char>) -> (r:
        PlotCigar)
        requires
            read_consumed(cigar@) <= read_seq.len(),
            ref_consumed(cigar@) <= ref_seq.len(),
        ensures
            r@ == diff_edits(cigar@, read_seq@, ref_seq@),
    {
        let mut out: Vec<EditOp> = Vec::new();
        let mut ri: usize = 0;
        let mut fi: usize = 0;
        let mut j: usize = 0;
        while j < cigar.len()
            invariant
                j <= cigar.len(),
                read_consumed(cigar@) <= read_seq.len(),
                ref_consumed(cigar@) <= ref_seq.len(),
                ri == read_consumed(cigar@.take(j as int)),
                fi == ref_consumed(cigar@.take(j as int)),
                out@.map_values(|e: EditOp| e@) == diff_edits(cigar@.take(j as int), read_seq@, ref_seq@),
            decreases cigar.len() - j,
        {
            let ghost t = cigar@.take(j + 1);
            proof {
                assert(t.drop_last() =~= cigar@.take(j as int));
                assert(t.last() == cigar@[j as int]);
                lemma_consumed_prefix(cigar@, j + 1);
            }
            let ghost before = out@.map_values(|e: EditOp| e@);
            match cigar[j] {
                AlignOp::Match(l) | AlignOp::SoftClip(l) => {
                    let len = l as usize;
                    let mut runs = compare_segment(read_seq, ri, ref_seq, fi, len);
                    let ghost added = runs@.map_values(|e: EditOp| e@);
                    out.append(&mut runs);
                    assert(out@.map_values(|e: EditOp| e@) =~= before + added);
                    ri = ri + len;
                    fi = fi + len;
                },
                AlignOp::Ins(l) => {
                    let len = l as usize;
                    let mut bases: Vec<char> = Vec::new();
                    let mut k: usize = 0;
                    while k < len
                        invariant
                            k <= len,
                            ri + len <= read_seq.len(),
                            bases@ == read_seq@.subrange(ri as int, ri + k),
                        decreases len - k,
                    {
                        bases.push(read_seq[ri + k]);
                        k = k + 1;
                        assert(bases@ =~= read_seq@.subrange(ri as int, ri + k));
                    }
                    out.push(EditOp::Ins { bases });
                    assert(out@.map_values(|e: EditOp| e@) =~= before + seq![
                        Edit::Ins(read_seq@.subrange(ri as int, ri + len)),
                    ]);
                    ri = ri + len;
                },
                AlignOp::Del(l) => {
                    out.push(EditOp::Del { length: l });
                    assert(out@.map_values(|e: EditOp| e@) =~= before + seq![Edit::Del(l as nat)]);
                    fi = fi + l as usize;
                },
                _ => {
                    assert(out@.map_values(|e: EditOp| e@) =~= before + seq![]);
                },
            }
            j = j + 1;
        }
        assert(cigar@.take(cigar.len() as int) =~= cigar@);
        PlotCigar(out)
    }
}

/// The read bases an edit stands for, reference bases being read from offset `at`.
pub open spec fn edit_bases(e: Edit, reference: Seq<char>, at: int) -> Seq<char> {
    match e {
        Edit::Match(n) => reference.subrange(at, at + n),
        Edit::Sub(n, b) => Seq::new(n, |_i: int| b),
        Edit::Ins(bs) => bs,
        Edit::Del(_) => seq![],
    }
}

/// The read bases an edit script spells out when replayed over `reference`
/// from offset `at`: matches copy reference bases, substitutions repeat their
/// base, insertions add theirs, deletions skip reference bases.
pub open spec fn replay(es: Seq<Edit>, reference: Seq<char>, at: int) -> Seq<char>
    decreases es.len(),
{
    if es.len() == 0 {
        seq![]
    } else {
        replay(es.drop_last(), reference, at) + edit_bases(
            es.last(),
            reference,
            at + edits_span(es.drop_last()),
        )
    }
}

proof fn lemma_replay_concat(a: Seq<Edit>, b: Seq<Edit>, reference: Seq<char>, at: int)
    ensures
        replay(a + b, reference, at) == replay(a, reference, at) + replay(
            b,
            reference,
            at + edits_span(a),
        ),
        edits_span(a + b) == edits_span(a) + edits_span(b),
    decreases b.len(),
{
    if b.len() == 0 {
        assert(a + b =~= a);
        assert(replay(a, reference, at) + seq![] =~= replay(a, reference, at));
    } else {
        lemma_replay_concat(a, b.drop_last(), reference, at);
        assert((a + b).drop_last() =~= a + b.drop_last());
        assert((a + b).last() == b.last());
        assert(replay(a + b, reference, at) =~= replay(a, reference, at) + replay(
            b,
            reference,
            at + edits_span(a),
        ));
    }
}

proof fn lemma_compare_runs_replay(r: Seq<char>, f: Seq<char>, reference: Seq<char>, at: int)
    requires
        r.len() == f.len(),
        0 <= at,
        at + f.len() <= reference.len(),
        f == reference.subrange(at, at + f.len()),
    ensures
        replay(compare_runs(r, f), reference, at) == r,
        edits_span(compare_runs(r, f)) == r.len(),
    decreases r.len(),
{
    if r.len() > 0 {
        let k = r.len();
        let r0 = r.drop_last();
        let f0 = f.drop_last();
        assert(f0 =~= reference.subrange(at, at + f0.len()));
        lemma_compare_runs_replay(r0, f0, reference, at);
        let runs = compare_runs(r0, f0);
        let key = compare_key(r.last(), f.last());
        assert(f.last() == reference[at + k - 1]);
        if runs.len() > 0 && continues_run(runs.last(), key) {
            let l = runs.len() - 1;
            let e = runs.last();
            let next = runs.update(l, grow_run(e));
            let c = at + edits_span(runs.drop_last());
            assert(next.drop_last() =~= runs.drop_last());
            assert(next.last() == grow_run(e));
            match e {
                Edit::Match(n) => {
                    assert(c + n == at + k - 1);
                    assert(reference.subrange(c, c + n + 1) =~= reference.subrange(c, c + n).push(
                        reference[c + n],
                    ));
                },
                Edit::Sub(n, b) => {
                    assert(Seq::new(n + 1, |_i: int| b) =~= Seq::new(n, |_i: int| b).push(b));
                },
                _ => {},
            }
            assert(replay(next, reference, at) =~= r0.push(r.last()));
        } else {
            let next = runs.push(start_run(key));
            assert(next.drop_last() =~= runs);
            match key {
                None => {
                    assert(reference.subrange(at + k - 1, at + k) =~= seq![reference[at + k - 1]]);
                },
                Some(b) => {
                    assert(Seq::new(1, |_i: int| b) =~= seq![b]);
                },
            }
            assert(replay(next, reference, at) =~= r0.push(r.last()));
        }
        assert(r0.push(r.last()) =~= r);
    }
}

/// The edit script accounts for the alignment exactly: replayed over the
/// reference it spells the read bases that the operations consume, and its
/// matches, substitutions and deletions cover exactly the reference bases
/// that the operations consume.
pub proof fn lemma_diff_reconstructs(ops: Seq<AlignOp>, read: Seq<char>, reference: Seq<char>)
    requires
        read_consumed(ops) <= read.len(),
        ref_consumed(ops) <= reference.len(),
    ensures
        replay(diff_edits(ops, read, reference), reference, 0) == read.take(
            read_consumed(ops) as int,
        ),
        edits_span(diff_edits(ops, read, reference)) == ref_consumed(ops),
    decreases ops.len(),
{
    if ops.len() == 0 {
        assert(read.take(0) =~= seq![]);
    } else {
        let prev = ops.drop_last();
        let op = ops.last();
        lemma_diff_reconstructs(prev, read, reference);
        let ri = read_consumed(prev) as int;
        let fi = ref_consumed(prev) as int;
        let a = diff_edits(prev, read, reference);
        let b = op_edits(op, read, reference, ri, fi);
        lemma_replay_concat(a, b, reference, 0);
        match op {
            AlignOp::Match(l) => {
                lemma_compare_runs_replay(
                    read.subrange(ri, ri + l),
                    reference.subrange(fi, fi + l),
                    reference,
                    fi,
                );
                assert(read.take(ri) + read.subrange(ri, ri + l) =~= read.take(ri + l));
            },
            AlignOp::SoftClip(l) => {
                lemma_compare_runs_replay(
                    read.subrange(ri, ri + l),
                    reference.subrange(fi, fi + l),
                    reference,
                    fi,
                );
                assert(read.take(ri) + read.subrange(ri, ri + l) =~= read.take(ri + l));
            },
            AlignOp::Ins(l) => {
                assert(b.drop_last() =~= seq![]);
                assert(replay(b.drop_last(), reference, fi) =~= seq![]);
                assert(b.last() == Edit::Ins(read.subrange(ri, ri + l)));
                assert(read.take(ri) + read.subrange(ri, ri + l) =~= read.take(ri + l));
                assert(replay(b, reference, fi) =~= seq![] + read.subrange(ri, ri + l));
                assert(replay(b, reference, fi) =~= read.subrange(ri, ri + l));
            },
            AlignOp::Del(l) => {
                assert(b.drop_last() =~= seq![]);
                assert(replay(b.drop_last(), reference, fi) =~= seq![]);
                assert(b.last() == Edit::Del(l as nat));
                assert(replay(b, reference, fi) =~= seq![]);
                assert(read.take(ri) + seq![] =~= read.take(ri));
            },
            _ => {
                assert(read.take(ri) + seq![] =~= read.take(ri));
            },
        }
    }
}

} // verus!
