//! The coverage aggregator: folds the edit scripts of all reads into a
//! per-position count of matching and substituted bases over a region.

use vstd::prelude::*;
use crate::cigar::{edit_span, edits_span, Edit, EditOp, PlotCigar};
use crate::read::Read;
use crate::region::Region;
use crate::text::{decimal, push_decimal, string_from_chars};

verus! {

/// The counter a base goes to: one per substituted base `A`, `T`, `G`, `C`,
/// and `M` for bases matching the reference (and other substitutions).
#[derive(Debug, Clone, Copy, PartialEq, Eq, Structural)]
pub enum Slot {
    A,
    T,
    G,
    C,
    M,
}

/// The counter of a substituted base.
pub open spec fn base_slot(b: char) -> Slot {
    if b == 'A' {
        Slot::A
    } else if b == 'T' {
        Slot::T
    } else if b == 'G' {
        Slot::G
    } else if b == 'C' {
        Slot::C
    } else {
        Slot::M
    }
}

/// The counter an edit's bases go to; insertions and deletions count nowhere.
pub open spec fn edit_slot(e: Edit) -> Option<Slot> {
    match e {
        Edit::Match(_) => Some(Slot::M),
        Edit::Sub(_, b) => Some(base_slot(b)),
        _ => None,
    }
}

/// The counter that reference position `p` goes to when the edit script is
/// replayed from reference position `start`, if any.
pub open spec fn slot_at(es: Seq<Edit>, start: int, p: int) -> Option<Slot>
    decreases es.len(),
{
    if es.len() == 0 {
        None
    } else {
        let c = start + edits_span(es.drop_last());
        let e = es.last();
        if c <= p < c + edit_span(e) && edit_slot(e) is Some {
            edit_slot(e)
        } else {
            slot_at(es.drop_last(), start, p)
        }
    }
}

/// Whether a read's displayed span meets the region.
pub open spec fn overlaps_region(r: Read, region: Region) -> bool {
    !(r.end_position <= region.start || r.position >= region.end)
}

/// How many of the reads that meet the region put position `p` into counter `s`.
pub open spec fn slot_count(reads: Seq<Read>, region: Region, p: int, s: Slot) -> nat
    decreases reads.len(),
{
    if reads.len() == 0 {
        0
    } else {
        let r = reads.last();
        slot_count(reads.drop_last(), region, p, s) + if overlaps_region(r, region) && slot_at(
            r.cigar@,
            r.position as int,
            p,
        ) == Some(s) {
            1nat
        } else {
            0nat
        }
    }
}

/// The number of positions of a region, 0 when its end is not after its start.
pub open spec fn region_len(region: Region) -> int {
    if region.end > region.start {
        region.end - region.start
    } else {
        0
    }
}

/// The base counts at one position.
#[derive(Debug, Clone, Copy, PartialEq, Eq, Structural)]
pub struct BaseCoverage {
    pub a: usize,
    pub t: usize,
    pub g: usize,
    pub c: usize,
    pub m: usize,
}

/// The count held for counter `s`.
pub open spec fn count_of(bc: BaseCoverage, s: Slot) -> nat {
    match s {
        Slot::A => bc.a as nat,
        Slot::T => bc.t as nat,
        Slot::G => bc.g as nat,
        Slot::C => bc.c as nat,
        Slot::M => bc.m as nat,
    }
}

fn slot_of_base(b: char) -> (r: Slot)
    ensures
        r == base_slot(b),
{
    if b == 'A' {
        Slot::A
    } else if b == 'T' {
        Slot::T
    } else if b == 'G' {
        Slot::G
    } else if b == 'C' {
        Slot::C
    } else {
        Slot::M
    }
}

/// One more base in counter `s`.
fn bump(bc: &mut BaseCoverage, s: Slot)
    requires
        count_of(*old(bc), s) < usize::MAX,
    ensures
        forall|x: Slot| #[trigger] count_of(*final(bc), x) == count_of(*old(bc), x) + if x == s {
            1nat
        } else {
            0nat
        },
{
    match s {
        Slot::A => bc.a = bc.a + 1,
        Slot::T => bc.t = bc.t + 1,
        Slot::G => bc.g = bc.g + 1,
        Slot::C => bc.c = bc.c + 1,
        Slot::M => bc.m = bc.m + 1,
    }
}

/// Counts one base in counter `s` at every position of `[lo, hi)` inside the
/// histogram, whose first entry is reference position `base`.
fn bump_range(cov: &mut Vec<BaseCoverage>, base: i64, lo: i128, hi: i128, s: Slot)
    requires
        forall|q: int|
            0 <= q < old(cov).len() && lo <= base + q < hi ==> count_of(#[trigger] old(cov)@[q], s)
                < usize::MAX,
    ensures
        final(cov).len() == old(cov).len(),
        forall|q: int, x: Slot|
            0 <= q < final(cov).len() ==> #[trigger] count_of(final(cov)@[q], x) == count_of(
                old(cov)@[q],
                x,
            ) + if x == s && lo <= base + q < hi {
                1nat
            } else {
                0nat
            },
{
    let ghost start = cov@;
    let n = cov.len();
    let top: i128 = base as i128 + n as i128;
    let from: i128 = if lo > base as i128 {
        lo
    } else {
        base as i128
    };
    let to: i128 = if hi < top {
        hi
    } else {
        top
    };
    let mut p: i128 = from;
    while p < to
        invariant
            cov.len() == n,
            top == base + n,
            from >= base,
            from >= lo,
            to <= hi,
            to <= top,
            from <= p,
            p <= to || p == from,
            forall|q: int|
                0 <= q < n && lo <= base + q < hi ==> count_of(#[trigger] start[q], s) < usize::MAX,
            forall|q: int, x: Slot|
                0 <= q < n ==> #[trigger] count_of(cov@[q], x) == count_of(start[q], x) + if x == s
                    && from <= base + q < p {
                    1nat
                } else {
                    0nat
                },
        decreases to - p,
    {
        let idx = (p - base as i128) as usize;
        let mut bc = cov[idx];
        assert(count_of(bc, s) == count_of(start[idx as int], s));
        bump(&mut bc, s);
        cov.set(idx, bc);
        p = p + 1;
    }
    assert forall|q: int, x: Slot| 0 <= q < n implies #[trigger] count_of(cov@[q], x) == count_of(
        start[q],
        x,
    ) + if x == s && lo <= base + q < hi {
        1nat
    } else {
        0nat
    } by {
        assert(p >= to);
        if x == s && lo <= base + q < hi {
            assert(from <= base + q);
            assert(base + q < to);
        }
    }
}

proof fn lemma_slot_at_past_end(es: Seq<Edit>, start: int, p: int)
    requires
        p >= start + edits_span(es),
    ensures
        slot_at(es, start, p) is None,
    decreases es.len(),
{
    if es.len() > 0 {
        lemma_slot_at_past_end(es.drop_last(), start, p);
    }
}

proof fn lemma_edits_span_bound(ops: Seq<EditOp>)
    ensures
        edits_span(ops.map_values(|e: EditOp| e@)) <= ops.len() * 0xFFFF_FFFF,
    decreases ops.len(),
{
    if ops.len() > 0 {
        let es = ops.map_values(|e: EditOp| e@);
        assert(es.drop_last() =~= ops.drop_last().map_values(|e: EditOp| e@));
        lemma_edits_span_bound(ops.drop_last());
        assert(edit_span(es.last()) <= 0xFFFF_FFFF);
    }
}

proof fn lemma_slot_count_bound(reads: Seq<Read>, region: Region, p: int, s: Slot)
    ensures
        slot_count(reads, region, p, s) <= reads.len(),
    decreases reads.len(),
{
    if reads.len() > 0 {
        lemma_slot_count_bound(reads.drop_last(), region, p, s);
    }
}

/// Counts the bases of one read's edit script, replayed from `position`,
/// into the histogram whose first entry is reference position `base`.
fn add_read(cov: &mut Vec<BaseCoverage>, cigar: &PlotCigar, position: i64, base: i64)
    requires
        forall|q: int, x: Slot| 0 <= q < old(cov).len() ==> #[trigger] count_of(old(cov)@[q], x) < usize::MAX,
    ensures
        final(cov).len() == old(cov).len(),
        forall|q: int, x: Slot|
            0 <= q < final(cov).len() ==> #[trigger] count_of(final(cov)@[q], x) == count_of(
                old(cov)@[q],
                x,
            ) + if slot_at(cigar@, position as int, base + q) == Some(x) {
                1nat
            } else {
                0nat
            },
{
    let ghost start = cov@;
    let ghost es = cigar@;
    let n = cov.len();
    let mut cursor: i128 = position as i128;
    let mut j: usize = 0;
    proof {
        assert(es.take(0) =~= seq![]);
    }
    while j < cigar.0.len()
        invariant
            cov.len() == n,
            es == cigar@,
            j <= cigar.0.len(),
            cursor == position + edits_span(es.take(j as int)),
            forall|q: int, x: Slot| 0 <= q < n ==> #[trigger] count_of(start[q], x) < usize::MAX,
            forall|q: int, x: Slot|
                0 <= q < n ==> #[trigger] count_of(cov@[q], x) == count_of(start[q], x) + if slot_at(
                    es.take(j as int),
                    position as int,
                    base + q,
                ) == Some(x) {
                    1nat
                } else {
                    0nat
                },
        decreases cigar.0.len() - j,
    {
        let ghost t = es.take(j + 1);
        let ghost before = cov@;
        proof {
            assert(t.drop_last() =~= es.take(j as int));
            assert(t.last() == cigar.0@[j as int]@);
            lemma_edits_span_bound(cigar.0@.take(j as int));
            assert(cigar.0@.take(j as int).map_values(|e: EditOp| e@) =~= es.take(j as int));
            assert(j * 0xFFFF_FFFF <= 0xFFFF_FFFF_FFFF_FFFF * 0xFFFF_FFFF) by (nonlinear_arith)
                requires j <= 0xFFFF_FFFF_FFFF_FFFF;
        }
        let (step, slot): (u32, Option<Slot>) = match &cigar.0[j] {
            EditOp::Match { length } => (*length, Some(Slot::M)),
            EditOp::Sub { length, base: b } => (*length, Some(slot_of_base(*b))),
            EditOp::Del { length } => (*length, None),
            EditOp::Ins { .. } => (0, None),
        };
        proof {
            assert(step == edit_span(t.last()));
            assert(slot == edit_slot(t.last()));
        }
        match slot {
            Some(x) => {
                proof {
                    assert forall|q: int|
                        0 <= q < n && cursor <= base + q < cursor + step implies count_of(
                        #[trigger] cov@[q],
                        x,
                    ) < usize::MAX by {
                        lemma_slot_at_past_end(es.take(j as int), position as int, base + q);
                    }
                }
                bump_range(cov, base, cursor, cursor + step as i128, x);
            },
            None => {},
        }
        proof {
            assert forall|q: int, x: Slot| 0 <= q < n implies #[trigger] count_of(cov@[q], x) == count_of(
                start[q],
                x,
            ) + if slot_at(t, position as int, base + q) == Some(x) {
                1nat
            } else {
                0nat
            } by {
                if cursor <= base + q < cursor + step && slot is Some {
                    lemma_slot_at_past_end(es.take(j as int), position as int, base + q);
                }
            }
        }
        cursor = cursor + step as i128;
        j = j + 1;
    }
    assert(es.take(cigar.0.len() as int) =~= es);
}

/// The base counts of every position of the region, in order.
pub fn base_coverage(reads: &Vec<Read>, region: &Region) -> (r: Vec<BaseCoverage>)
    requires
        region_len(*region) <= usize::MAX,
    ensures
        r.len() == region_len(*region),
        forall|q: int, x: Slot|
            0 <= q < r.len() ==> #[trigger] count_of(r@[q], x) == slot_count(
                reads@,
                *region,
                region.start + q,
                x,
            ),
{
    let len: usize = if region.end > region.start {
        (region.end as i128 - region.start as i128) as usize
    } else {
        0
    };
    let mut cov: Vec<BaseCoverage> = Vec::new();
    while cov.len() < len
        invariant
            cov.len() <= len,
            forall|q: int, x: Slot| 0 <= q < cov.len() ==> #[trigger] count_of(cov@[q], x) == 0,
        decreases len - cov.len(),
    {
        cov.push(BaseCoverage { a: 0, t: 0, g: 0, c: 0, m: 0 });
    }
    let mut i: usize = 0;
    while i < reads.len()
        invariant
            i <= reads.len(),
            cov.len() == len,
            len == region_len(*region),
            forall|q: int, x: Slot|
                0 <= q < len ==> #[trigger] count_of(cov@[q], x) == slot_count(
                    reads@.take(i as int),
                    *region,
                    region.start + q,
                    x,
                ),
        decreases reads.len() - i,
    {
        let read = &reads[i];
        proof {
            let t = reads@.take(i + 1);
            assert(t.drop_last() =~= reads@.take(i as int));
            assert(t.last() == reads@[i as int]);
            assert forall|q: int, x: Slot| 0 <= q < len implies #[trigger] count_of(cov@[q], x) < usize::MAX by {
                lemma_slot_count_bound(reads@.take(i as int), *region, region.start + q, x);
            }
        }
        if !(read.end_position <= region.start || read.position >= region.end) {
            add_read(&mut cov, &read.cigar, read.position, region.start);
        }
        i = i + 1;
    }
    assert(reads@.take(reads.len() as int) =~= reads@);
    cov
}

/// The text of one position's counts, `a|t|g|c|m`.
pub open spec fn counts_text(bc: BaseCoverage) -> Seq<char> {
    decimal(bc.a as nat) + seq!['|'] + decimal(bc.t as nat) + seq!['|'] + decimal(bc.g as nat)
        + seq!['|'] + decimal(bc.c as nat) + seq!['|'] + decimal(bc.m as nat)
}

/// The text of a histogram: the counts of each position joined by `§`.
pub open spec fn coverage_text(h: Seq<BaseCoverage>) -> Seq<char>
    decreases h.len(),
{
    if h.len() == 0 {
        seq![]
    } else if h.len() == 1 {
        counts_text(h[0])
    } else {
        coverage_text(h.drop_last()) + seq!['§'] + counts_text(h.last())
    }
}

/// Appends the text of one position's counts.
fn push_counts(out: &mut Vec<char>, bc: &BaseCoverage)
    ensures
        final(out)@ == old(out)@ + counts_text(*bc),
{
    let ghost start = out@;
    push_decimal(out, bc.a as u64);
    out.push('|');
    push_decimal(out, bc.t as u64);
    out.push('|');
    push_decimal(out, bc.g as u64);
    let ghost mid = decimal(bc.a as nat) + seq!['|'] + decimal(bc.t as nat) + seq!['|'] + decimal(
        bc.g as nat,
    );
    assert(out@ =~= start + mid);
    out.push('|');
    push_decimal(out, bc.c as u64);
    out.push('|');
    push_decimal(out, bc.m as u64);
    assert(out@ =~= start + counts_text(*bc));
}

/// The coverage of a region in text form, with the region's start.
#[derive(Debug)]
pub struct Coverage {
    pub start: i64,
    pub coverage: String,
}

/// Whether `c` is the coverage of `reads` over `region`: it starts at the
/// region's start, and its text is that of the histogram holding, for every
/// position and counter, the number of reads putting a base there.
pub open spec fn coverage_of(c: Coverage, reads: Seq<Read>, region: Region) -> bool {
    &&& c.start == region.start
    &&& exists|h: Seq<BaseCoverage>|
        {
            &&& h.len() == region_len(region)
            &&& forall|q: int, x: Slot|
                0 <= q < h.len() ==> #[trigger] count_of(h[q], x) == slot_count(
                    reads,
                    region,
                    region.start + q,
                    x,
                )
            &&& c.coverage@ == coverage_text(h)
        }
}

impl Coverage {
    /// Counts, for each position of the region, the bases of all reads that
    /// meet it (matching ones in `m`, substituted ones by base), and writes the
    /// histogram as text.
    pub fn from_reads(reads: &Vec<Read>, region: &Region) -> (r: Coverage)
        requires
            region_len(*region) <= usize::MAX,
        ensures
            coverage_of(r, reads@, *region),
    {
        let h = base_coverage(reads, region);
        let mut out: Vec<char> = Vec::new();
        let mut i: usize = 0;
        while i < h.len()
            invariant
                i <= h.len(),
                out@ == coverage_text(h@.take(i as int)),
            decreases h.len() - i,
        {
            if i > 0 {
                out.push('§');
            }
            push_counts(&mut out, &h[i]);
            proof {
                let t = h@.take(i + 1);
                assert(t.drop_last() =~= h@.take(i as int));
                if i == 0 {
                    assert(out@ =~= counts_text(t[0]));
                } else {
                    assert(out@ =~= coverage_text(t.drop_last()) + seq!['§'] + counts_text(t.last()));
                }
            }
            i = i + 1;
        }
        assert(h@.take(h.len() as int) =~= h@);
        Coverage { start: region.start, coverage: string_from_chars(&out) }
    }
}

/// Whether a read's script is made of matches only and spans exactly its
/// displayed span.
pub open spec fn match_only(r: Read) -> bool {
    &&& forall|i: int| 0 <= i < r.cigar@.len() ==> (#[trigger] r.cigar@[i]) is Match
    &&& r.end_position == r.position + edits_span(r.cigar@)
}

/// Whether two reads' displayed spans are disjoint.
pub open spec fn spans_disjoint(a: Read, b: Read) -> bool {
    a.end_position <= b.position || b.end_position <= a.position
}

/// The total of the match counts over the positions `[lo, hi)`.
pub open spec fn match_total(reads: Seq<Read>, region: Region, lo: int, hi: int) -> nat
    decreases hi - lo,
{
    if hi <= lo {
        0
    } else {
        match_total(reads, region, lo, hi - 1) + slot_count(reads, region, hi - 1, Slot::M)
    }
}

proof fn lemma_slot_at_matches(es: Seq<Edit>, start: int, p: int)
    requires
        forall|i: int| 0 <= i < es.len() ==> (#[trigger] es[i]) is Match,
    ensures
        start <= p < start + edits_span(es) ==> slot_at(es, start, p) == Some(Slot::M),
        p < start ==> slot_at(es, start, p) is None,
    decreases es.len(),
{
    if es.len() > 0 {
        assert forall|i: int| 0 <= i < es.drop_last().len() implies (#[trigger] es.drop_last()[i]) is Match by {
            assert(es.drop_last()[i] == es[i]);
        }
        assert(es.last() == es[es.len() - 1]);
        lemma_slot_at_matches(es.drop_last(), start, p);
    }
}

proof fn lemma_single_cover(reads: Seq<Read>, region: Region, p: int, k: int)
    requires
        region.start <= p < region.end,
        forall|i: int| 0 <= i < reads.len() ==> match_only(#[trigger] reads[i]),
        forall|i: int|
            0 <= i < reads.len() && i != k ==> !((#[trigger] reads[i]).position <= p
                < reads[i].end_position),
        0 <= k < reads.len() ==> reads[k].position <= p < reads[k].end_position,
    ensures
        slot_count(reads, region, p, Slot::M) == if 0 <= k < reads.len() {
            1nat
        } else {
            0nat
        },
    decreases reads.len(),
{
    if reads.len() > 0 {
        let n = reads.len() - 1;
        let prev = reads.drop_last();
        assert forall|i: int| 0 <= i < prev.len() implies match_only(#[trigger] prev[i]) by {
            assert(prev[i] == reads[i]);
        }
        assert forall|i: int| 0 <= i < prev.len() && i != k implies !((#[trigger] prev[i]).position
            <= p < prev[i].end_position) by {
            assert(prev[i] == reads[i]);
        }
        if 0 <= k < n {
            assert(prev[k] == reads[k]);
        }
        lemma_single_cover(prev, region, p, k);
        let r = reads.last();
        assert(r == reads[n]);
        assert(match_only(r));
        lemma_slot_at_matches(r.cigar@, r.position as int, p);
        if p >= r.position + edits_span(r.cigar@) {
            lemma_slot_at_past_end(r.cigar@, r.position as int, p);
        }
    }
}

/// Coverage conservation: when every read's script is matches only, spanning
/// its displayed span, and no two reads overlap, the match counts over the
/// part of a read's span inside the region add up to that part's length.
pub proof fn lemma_coverage_conservation(reads: Seq<Read>, region: Region, k: int)
    requires
        forall|i: int| 0 <= i < reads.len() ==> match_only(#[trigger] reads[i]),
        forall|a: int, b: int|
            0 <= a < reads.len() && 0 <= b < reads.len() && a != b ==> spans_disjoint(
                #[trigger] reads[a],
                #[trigger] reads[b],
            ),
        0 <= k < reads.len(),
    ensures
        ({
            let lo: int = if reads[k].position > region.start {
                reads[k].position as int
            } else {
                region.start as int
            };
            let hi: int = if reads[k].end_position < region.end {
                reads[k].end_position as int
            } else {
                region.end as int
            };
            match_total(reads, region, lo, hi) == if hi > lo {
                hi - lo
            } else {
                0
            }
        }),
{
    let lo: int = if reads[k].position > region.start {
        reads[k].position as int
    } else {
        region.start as int
    };
    let hi: int = if reads[k].end_position < region.end {
        reads[k].end_position as int
    } else {
        region.end as int
    };
    lemma_match_total_span(reads, region, k, lo, hi);
}

proof fn lemma_match_total_span(reads: Seq<Read>, region: Region, k: int, lo: int, hi: int)
    requires
        forall|i: int| 0 <= i < reads.len() ==> match_only(#[trigger] reads[i]),
        forall|a: int, b: int|
            0 <= a < reads.len() && 0 <= b < reads.len() && a != b ==> spans_disjoint(
                #[trigger] reads[a],
                #[trigger] reads[b],
            ),
        0 <= k < reads.len(),
        lo >= reads[k].position,
        lo >= region.start,
        hi <= reads[k].end_position,
        hi <= region.end,
    ensures
        match_total(reads, region, lo, hi) == if hi > lo {
            hi - lo
        } else {
            0
        },
    decreases hi - lo,
{
    if hi > lo {
        lemma_match_total_span(reads, region, k, lo, hi - 1);
        let p = hi - 1;
        assert forall|i: int|
            0 <= i < reads.len() && i != k implies !((#[trigger] reads[i]).position <= p
            < reads[i].end_position) by {
            assert(spans_disjoint(reads[i], reads[k]));
        }
        lemma_single_cover(reads, region, p, k);
    }
}

} // verus!
