//! The row layout engine: gives each read a display row so that reads sharing
//! a row do not overlap, keeps mates together, and subsamples rows
//! reproducibly when there are more than the plot may show.

use vstd::prelude::*;
use vstd::hash_map::StringHashMap;
use vstd::set_lib::lemma_len_subset;
use crate::read::Read;
use rand::seq::IteratorRandom;
use rand::SeedableRng;

verus! {

/// Seed of the row subsampling: a fixed value, so a layout can be reproduced.
pub const LAYOUT_SEED: u64 = 42;

/// Space kept free between the end of one read and the start of the next read
/// in the same row.
pub const ROW_GAP: i64 = 5;

/// The rows that a seeded sample of `amount` distinct rows out of `lo..hi`
/// yields; it depends on its arguments alone.
pub uninterp spec fn seeded_sample(seed: nat, lo: nat, hi: nat, amount: nat) -> Seq<u32>;

/// Relies on rand's `StdRng::seed_from_u64` and
/// `IteratorRandom::choose_multiple`: a reservoir sample of the range, driven
/// by a generator seeded with `seed`. It returns `amount` distinct values of
/// the range, or all of them when the range is shorter.
#[verifier::external_body]
fn sample_rows(seed: u64, lo: u32, hi: u32, amount: usize) -> (r: Vec<u32>)
    requires
        lo <= hi,
    ensures
        r@ == seeded_sample(seed as nat, lo as nat, hi as nat, amount as nat),
        r.len() == if amount < hi - lo { amount as int } else { hi - lo },
        r@.no_duplicates(),
        forall|i: int| 0 <= i < r.len() ==> lo <= #[trigger] r@[i] < hi,
{
    let mut rng = rand::rngs::StdRng::seed_from_u64(seed);
    (lo..hi).choose_multiple(&mut rng, amount)
}

/// The layout after some reads: the end watermark of each row (index 0 is
/// never used), the row of each read name placed so far, and the row of each
/// read in order.
pub struct LayoutState {
    pub row_ends: Seq<int>,
    pub placed: Map<Seq<char>, int>,
    pub rows: Seq<int>,
}

/// Whether a read starting at `pos` with mate position `mpos` fits in a row
/// whose watermark is `w`: both it and its mate start past the watermark and
/// the gap, or it is unpaired and starts past them, or the row is empty.
pub open spec fn fits_row(w: int, pos: int, mpos: int) -> bool {
    (if pos < mpos { pos } else { mpos }) > w + ROW_GAP || (mpos <= -1 && pos > w + ROW_GAP) || w
        == 0
}

/// The first row from `r` upward that fits the read.
pub open spec fn first_fit(ends: Seq<int>, pos: int, mpos: int, r: int) -> int
    decreases ends.len() - r,
{
    if r >= ends.len() {
        r
    } else if fits_row(ends[r], pos, mpos) {
        r
    } else {
        first_fit(ends, pos, mpos, r + 1)
    }
}

/// Places one more read: with its mate's row when the mate was placed
/// (stretching the watermark to the read's end), else in the first row that
/// fits, whose watermark then reserves space up to the read's end and its
/// mate's start. Placing in the last row adds a fresh empty row.
pub open spec fn place(s: LayoutState, read: Read) -> LayoutState {
    if s.placed.contains_key(read.name@) {
        let r = s.placed[read.name@];
        LayoutState {
            row_ends: if s.row_ends[r] < read.end_position {
                s.row_ends.update(r, read.end_position as int)
            } else {
                s.row_ends
            },
            placed: s.placed,
            rows: s.rows.push(r),
        }
    } else {
        let r = first_fit(s.row_ends, read.position as int, read.mpos as int, 1);
        let w = if read.end_position > read.mpos {
            read.end_position as int
        } else {
            read.mpos as int
        };
        let ends = s.row_ends.update(r, w);
        LayoutState {
            row_ends: if r == s.row_ends.len() - 1 {
                ends.push(0)
            } else {
                ends
            },
            placed: s.placed.insert(read.name@, r),
            rows: s.rows.push(r),
        }
    }
}

/// The layout of reads placed one after the other, in order.
pub open spec fn layout(reads: Seq<Read>) -> LayoutState
    decreases reads.len(),
{
    if reads.len() == 0 {
        LayoutState { row_ends: seq![0, 0], placed: Map::empty(), rows: seq![] }
    } else {
        place(layout(reads.drop_last()), reads.last())
    }
}

/// The highest row used, 0 when there is none.
pub open spec fn max_row(rows: Seq<int>) -> int
    decreases rows.len(),
{
    if rows.len() == 0 {
        0
    } else {
        let m = max_row(rows.drop_last());
        if rows.last() > m {
            rows.last()
        } else {
            m
        }
    }
}

/// The reads with their rows assigned.
pub open spec fn with_rows(reads: Seq<Read>, rows: Seq<int>) -> Seq<Read> {
    Seq::new(reads.len(), |i: int| Read { row: Some(rows[i] as u32), ..reads[i] })
}

/// The reads whose row is among `chosen`, in order.
pub open spec fn keep_rows(reads: Seq<Read>, chosen: Seq<u32>) -> Seq<Read>
    decreases reads.len(),
{
    if reads.len() == 0 {
        seq![]
    } else {
        let rest = keep_rows(reads.drop_last(), chosen);
        if reads.last().row matches Some(r) && chosen.contains(r) {
            rest.push(reads.last())
        } else {
            rest
        }
    }
}

/// The rows kept when `used` rows exceed `max_rows`: a seeded sample of
/// `max_rows` of the rows `1..=used`.
pub open spec fn kept_rows(used: int, max_rows: nat) -> Seq<u32> {
    seeded_sample(LAYOUT_SEED as nat, 1, (used + 1) as nat, max_rows)
}

/// The result of laying out `reads` with at most `max_rows` rows: every read
/// with its row, or, when more rows were used, only the reads in the kept rows.
pub open spec fn ordered(reads: Seq<Read>, max_rows: nat) -> Seq<Read> {
    let st = layout(reads);
    let placed = with_rows(reads, st.rows);
    let used = max_row(st.rows);
    if used <= max_rows {
        placed
    } else {
        keep_rows(placed, kept_rows(used, max_rows))
    }
}

/// The shape that every layout keeps: a spare empty row at the end, and every
/// read and placed name on a row between 1 and the spare one.
pub open spec fn layout_wf(st: LayoutState, n: nat) -> bool {
    &&& st.row_ends.len() >= 2
    &&& st.row_ends.len() <= n + 2
    &&& st.row_ends.last() == 0
    &&& st.rows.len() == n
    &&& forall|k: int| 0 <= k < st.rows.len() ==> 1 <= #[trigger] st.rows[k] < st.row_ends.len() - 1
    &&& forall|name: Seq<char>|
        #[trigger] st.placed.contains_key(name) ==> 1 <= st.placed[name] < st.row_ends.len() - 1
}

proof fn lemma_first_fit_bounds(ends: Seq<int>, pos: int, mpos: int, r: int)
    requires
        1 <= r <= ends.len() - 1,
        ends.last() == 0,
    ensures
        r <= first_fit(ends, pos, mpos, r) <= ends.len() - 1,
        fits_row(ends[first_fit(ends, pos, mpos, r)], pos, mpos),
    decreases ends.len() - r,
{
    if !fits_row(ends[r], pos, mpos) {
        lemma_first_fit_bounds(ends, pos, mpos, r + 1);
    }
}

proof fn lemma_layout_wf(reads: Seq<Read>)
    ensures
        layout_wf(layout(reads), reads.len()),
    decreases reads.len(),
{
    if reads.len() > 0 {
        let prev = layout(reads.drop_last());
        lemma_layout_wf(reads.drop_last());
        let read = reads.last();
        let st = layout(reads);
        if !prev.placed.contains_key(read.name@) {
            lemma_first_fit_bounds(prev.row_ends, read.position as int, read.mpos as int, 1);
        }
        assert forall|k: int| 0 <= k < st.rows.len() implies 1 <= #[trigger] st.rows[k]
            < st.row_ends.len() - 1 by {
            if k < prev.rows.len() {
                assert(st.rows[k] == prev.rows[k]);
            }
        }
    }
}

proof fn lemma_max_row_bounded(rows: Seq<int>, b: int)
    requires
        b >= 0,
        forall|k: int| 0 <= k < rows.len() ==> #[trigger] rows[k] <= b,
    ensures
        max_row(rows) <= b,
    decreases rows.len(),
{
    if rows.len() > 0 {
        assert forall|k: int| 0 <= k < rows.len() - 1 implies #[trigger] rows.drop_last()[k] <= b by {
            assert(rows.drop_last()[k] == rows[k]);
        }
        lemma_max_row_bounded(rows.drop_last(), b);
    }
}

/// The highest row bounds every row.
proof fn lemma_max_row(rows: Seq<int>)
    ensures
        forall|k: int| 0 <= k < rows.len() ==> #[trigger] rows[k] <= max_row(rows),
        max_row(rows) >= 0,
    decreases rows.len(),
{
    if rows.len() > 0 {
        lemma_max_row(rows.drop_last());
        assert forall|k: int| 0 <= k < rows.len() implies #[trigger] rows[k] <= max_row(rows) by {
            if k < rows.len() - 1 {
                assert(rows[k] == rows.drop_last()[k]);
            }
        }
    }
}

/// Whether a read at `pos` with mate position `mpos` fits a row with watermark `w`.
fn row_fits(w: i64, pos: i64, mpos: i64) -> (r: bool)
    ensures
        r == fits_row(w as int, pos as int, mpos as int),
{
    let lead: i64 = if pos < mpos {
        pos
    } else {
        mpos
    };
    let limit: i128 = w as i128 + ROW_GAP as i128;
    (lead as i128) > limit || (mpos <= -1 && (pos as i128) > limit) || w == 0
}

/// Places every read in order, returning the reads with their rows and the
/// highest row used.
fn place_reads(reads: Vec<Read>) -> (r: (Vec<Read>, usize))
    requires
        reads.len() < u32::MAX,
    ensures
        r.0@ == with_rows(reads@, layout(reads@).rows),
        r.1 as int == max_row(layout(reads@).rows),
{
    let ghost all = reads@;
    let mut row_ends: Vec<i64> = Vec::new();
    row_ends.push(0);
    row_ends.push(0);
    let mut placed: StringHashMap<usize> = StringHashMap::new();
    let mut used: usize = 0;
    let mut out: Vec<Read> = Vec::new();
    proof {
        assert(all.take(0) =~= seq![]);
        assert(row_ends@.map_values(|w: i64| w as int) =~= layout(all.take(0)).row_ends);
        assert(out@ =~= with_rows(all.take(0), layout(all.take(0)).rows));
    }
    for item in it: reads.into_iter()
        invariant
            it.seq() == all,
            all.len() < u32::MAX,
            row_ends@.map_values(|w: i64| w as int) == layout(all.take(it.index() as int)).row_ends,
            forall|name: Seq<char>|
                #![trigger placed@.contains_key(name)]
                placed@.contains_key(name) <==> layout(
                    all.take(it.index() as int),
                ).placed.contains_key(name),
            forall|name: Seq<char>|
                #![trigger placed@.contains_key(name)]
                placed@.contains_key(name) ==> placed@[name] as int == layout(
                    all.take(it.index() as int),
                ).placed[name],
            out@ == with_rows(all.take(it.index() as int), layout(all.take(it.index() as int)).rows),
            used as int == max_row(layout(all.take(it.index() as int)).rows),
    {
        let ghost k = it.index() as int;
        let ghost prev = layout(all.take(k));
        let ghost ends_before = row_ends@.map_values(|w: i64| w as int);
        proof {
            lemma_layout_wf(all.take(k));
            lemma_layout_wf(all.take(k + 1));
            assert(all.take(k + 1).drop_last() =~= all.take(k));
            assert(all.take(k + 1).last() == item);
            assert(row_ends@.len() == prev.row_ends.len());
        }
        let mut read = item;
        let found: Option<usize> = match placed.get(read.name.as_str()) {
            Some(r) => Some(*r),
            None => None,
        };
        let row: usize = match found {
            Some(r) => {
                proof {
                    assert(placed@.contains_key(read.name@));
                    assert(r as int == prev.placed[read.name@]);
                    assert(row_ends@[r as int] as int == prev.row_ends[r as int]);
                }
                if row_ends[r] < read.end_position {
                    row_ends.set(r, read.end_position);
                }
                assert(row_ends@.map_values(|w: i64| w as int) =~= layout(all.take(k + 1)).row_ends);
                r
            },
            None => {
                let ghost pos = read.position as int;
                let ghost mpos = read.mpos as int;
                proof {
                    lemma_first_fit_bounds(prev.row_ends, pos, mpos, 1);
                }
                let mut r: usize = 1;
                while r < row_ends.len() - 1 && !row_fits(row_ends[r], read.position, read.mpos)
                    invariant
                        1 <= r <= row_ends.len() - 1,
                        row_ends@.map_values(|w: i64| w as int) == prev.row_ends,
                        prev.row_ends.len() >= 2,
                        prev.row_ends.last() == 0,
                        pos == read.position as int,
                        mpos == read.mpos as int,
                        first_fit(prev.row_ends, pos, mpos, 1) == first_fit(prev.row_ends, pos, mpos, r as int),
                    decreases row_ends.len() - r,
                {
                    r = r + 1;
                }
                proof {
                    assert(row_ends@[r as int] as int == prev.row_ends[r as int]);
                    assert(first_fit(prev.row_ends, pos, mpos, r as int) == r);
                }
                let w: i64 = if read.end_position > read.mpos {
                    read.end_position
                } else {
                    read.mpos
                };
                row_ends.set(r, w);
                if r == row_ends.len() - 1 {
                    row_ends.push(0);
                }
                assert(row_ends@.map_values(|w: i64| w as int) =~= layout(all.take(k + 1)).row_ends);
                let key = read.name.clone();
                placed.insert(key, r);
                r
            },
        };
        proof {
            let st = layout(all.take(k + 1));
            assert(st.rows =~= prev.rows.push(row as int));
            assert(st.rows.drop_last() =~= prev.rows);
        }
        if row > used {
            used = row;
        }
        let ghost before_out = out@;
        read.set_row(row as u32);
        out.push(read);
        proof {
            let st = layout(all.take(k + 1));
            assert(out@ =~= with_rows(all.take(k + 1), st.rows)) by {
                assert forall|q: int| 0 <= q < out@.len() implies out@[q] == with_rows(
                    all.take(k + 1),
                    st.rows,
                )[q] by {
                    if q < k {
                        assert(out@[q] == before_out[q]);
                        assert(st.rows[q] == prev.rows[q]);
                    }
                }
            }
        }
    }
    proof {
        assert(all.take(all.len() as int) =~= all);
    }
    (out, used)
}

impl Read {
    /// Whether the read has a row, no higher than `max`.
    pub open spec fn row_at_most(self, max: int) -> bool {
        self.row matches Some(q) && q <= max
    }
}

/// The reads whose row is among `chosen`, in order.
fn retain_rows(placed: Vec<Read>, chosen: &Vec<u32>, used: usize) -> (r: Vec<Read>)
    requires
        used < u32::MAX,
        forall|k: int| 0 <= k < placed.len() ==> (#[trigger] placed@[k]).row_at_most(used as int),
        forall|i: int| 0 <= i < chosen.len() ==> #[trigger] chosen@[i] <= used,
    ensures
        r@ == keep_rows(placed@, chosen@),
{
    let mut mask: Vec<bool> = Vec::new();
    while mask.len() <= used
        invariant
            mask.len() <= used + 1,
            forall|q: int| 0 <= q < mask.len() ==> !(#[trigger] mask@[q]),
        decreases used + 1 - mask.len(),
    {
        mask.push(false);
    }
    let mut i: usize = 0;
    while i < chosen.len()
        invariant
            i <= chosen.len(),
            mask.len() == used + 1,
            used < u32::MAX,
            forall|i: int| 0 <= i < chosen.len() ==> #[trigger] chosen@[i] <= used,
            forall|q: int| 0 <= q <= used ==> (#[trigger] mask@[q] <==> chosen@.take(i as int).contains(q as u32)),
        decreases chosen.len() - i,
    {
        let c = chosen[i] as usize;
        let ghost old_mask = mask@;
        mask.set(c, true);
        proof {
            assert forall|q: int| 0 <= q <= used implies (#[trigger] mask@[q] <==> chosen@.take(i + 1).contains(q as u32)) by {
                let t = chosen@.take(i + 1);
                let p = chosen@.take(i as int);
                assert(t[i as int] == chosen@[i as int]);
                if q == c {
                    assert(t[i as int] == q as u32);
                } else {
                    assert(mask@[q] == old_mask[q]);
                    if p.contains(q as u32) {
                        let w = choose|w: int| 0 <= w < p.len() && p[w] == q as u32;
                        assert(t[w] == q as u32);
                    }
                    if t.contains(q as u32) {
                        let w = choose|w: int| 0 <= w < t.len() && t[w] == q as u32;
                        assert(w != i);
                        assert(p[w] == q as u32);
                    }
                }
            }
        }
        i = i + 1;
    }
    assert(chosen@.take(chosen.len() as int) =~= chosen@);
    let ghost all = placed@;
    let mut out: Vec<Read> = Vec::new();
    for read in it: placed.into_iter()
        invariant
            it.seq() == all,
            mask.len() == used + 1,
            forall|k: int| 0 <= k < all.len() ==> (#[trigger] all[k]).row_at_most(used as int),
            forall|q: int| 0 <= q <= used ==> (#[trigger] mask@[q] <==> chosen@.contains(q as u32)),
            out@ == keep_rows(all.take(it.index() as int), chosen@),
    {
        let ghost k = it.index() as int;
        proof {
            assert(all.take(k + 1).drop_last() =~= all.take(k));
            assert(all.take(k + 1).last() == read);
            assert(all[k] == read);
        }
        let keep = match read.row {
            Some(q) => mask[q as usize],
            None => false,
        };
        if keep {
            out.push(read);
        }
    }
    assert(all.take(all.len() as int) =~= all);
    out
}

/// The rows that the reads occupy.
pub open spec fn row_set(reads: Seq<Read>) -> Set<u32> {
    Set::new(|q: u32| exists|k: int| 0 <= k < reads.len() && (#[trigger] reads[k]).row == Some(q))
}

/// The rows of reads kept by `keep_rows` are among the chosen ones, and come
/// from the reads given.
proof fn lemma_keep_rows(reads: Seq<Read>, chosen: Seq<u32>)
    ensures
        forall|k: int| 0 <= k < keep_rows(reads, chosen).len() ==> ((#[trigger] keep_rows(reads, chosen)[k]).row matches Some(q) && chosen.contains(q)),
    decreases reads.len(),
{
    if reads.len() > 0 {
        lemma_keep_rows(reads.drop_last(), chosen);
    }
}

/// Assigns display rows to an ordered list of reads.
pub trait PlotOrder {
    /// Gives every read its row, keeping at most `max_read_depth` rows.
    fn order(&mut self, max_read_depth: usize);
}

impl PlotOrder for Vec<Read> {
    /// Lays the reads out row by row in their order (see `layout`); when more
    /// than `max_read_depth` rows are used, keeps only the reads of a seeded
    /// sample of `max_read_depth` rows.
    fn order(&mut self, max_read_depth: usize)
        ensures
            old(self).len() < u32::MAX ==> final(self)@ == ordered(old(self)@, max_read_depth as nat),
            old(self).len() >= u32::MAX ==> final(self)@ == old(self)@,
            old(self).len() < u32::MAX ==> row_set(final(self)@).finite() && row_set(final(self)@).len()
                <= max_read_depth,
            old(self).len() < u32::MAX && max_row(layout(old(self)@).rows) <= max_read_depth
                ==> final(self).len() == old(self).len(),
    {
        if self.len() >= u32::MAX as usize {
            return;
        }
        let mut reads: Vec<Read> = Vec::new();
        std::mem::swap(self, &mut reads);
        let ghost all = reads@;
        proof {
            lemma_layout_wf(all);
            lemma_max_row(layout(all).rows);
            lemma_max_row_bounded(layout(all).rows, all.len() as int);
        }
        let (placed, used) = place_reads(reads);
        if used <= max_read_depth {
            proof {
                let st = layout(all);
                let range = Seq::new(used as nat, |i: int| (i + 1) as u32);
                assert forall|q: u32| row_set(placed@).contains(q) implies range.to_set().contains(q) by {
                    let k = choose|k: int| 0 <= k < placed@.len() && (#[trigger] placed@[k]).row == Some(q);
                    assert(st.rows[k] <= max_row(st.rows));
                    assert(1 <= st.rows[k]);
                    assert(range[q - 1] == q);
                }
                range.lemma_cardinality_of_set();
                lemma_len_subset(row_set(placed@), range.to_set());
            }
            *self = placed;
        } else {
            let chosen = sample_rows(LAYOUT_SEED, 1, (used + 1) as u32, max_read_depth);
            proof {
                let st = layout(all);
                assert forall|k: int| 0 <= k < placed.len() implies (#[trigger] placed@[k]).row_at_most(used as int) by {
                    assert(st.rows[k] <= max_row(st.rows));
                }
            }
            let kept = retain_rows(placed, &chosen, used);
            proof {
                lemma_keep_rows(placed@, chosen@);
                assert forall|q: u32| row_set(kept@).contains(q) implies chosen@.to_set().contains(q) by {
                    let k = choose|k: int| 0 <= k < kept@.len() && (#[trigger] kept@[k]).row == Some(q);
                    assert(chosen@.contains(q));
                }
                chosen@.lemma_cardinality_of_set();
                lemma_len_subset(row_set(kept@), chosen@.to_set());
            }
            *self = kept;
        }
    }
}

/// Every read's displayed span is well formed: `0 <= position <= end_position`.
pub open spec fn spans_valid(reads: Seq<Read>) -> bool {
    forall|k: int| 0 <= k < reads.len() ==> 0 <= (#[trigger] reads[k]).position <= reads[k].end_position
}

/// No two reads share a name, i.e. no read has its mate in the list.
pub open spec fn names_distinct(reads: Seq<Read>) -> bool {
    forall|a: int, b: int| 0 <= a < b < reads.len() ==> (#[trigger] reads[a]).name@ != (#[trigger] reads[b]).name@
}

proof fn lemma_layout_spans(reads: Seq<Read>)
    requires
        spans_valid(reads),
        names_distinct(reads),
    ensures
        forall|name: Seq<char>|
            #[trigger] layout(reads).placed.contains_key(name) ==> exists|k: int|
                0 <= k < reads.len() && (#[trigger] reads[k]).name@ == name,
        forall|k: int|
            0 <= k < reads.len() ==> (#[trigger] reads[k]).end_position <= layout(reads).row_ends[layout(
                reads,
            ).rows[k]],
        forall|i: int, j: int|
            0 <= i < j < reads.len() && layout(reads).rows[i] == layout(reads).rows[j]
                ==> (#[trigger] reads[i]).end_position <= (#[trigger] reads[j]).position,
    decreases reads.len(),
{
    if reads.len() > 0 {
        let prev_reads = reads.drop_last();
        assert forall|k: int| 0 <= k < prev_reads.len() implies 0 <= (#[trigger] prev_reads[k]).position
            <= prev_reads[k].end_position by {
            assert(prev_reads[k] == reads[k]);
        }
        assert forall|a: int, b: int| 0 <= a < b < prev_reads.len() implies (#[trigger] prev_reads[a]).name@
            != (#[trigger] prev_reads[b]).name@ by {
            assert(prev_reads[a] == reads[a]);
            assert(prev_reads[b] == reads[b]);
        }
        lemma_layout_spans(prev_reads);
        lemma_layout_wf(prev_reads);
        lemma_layout_wf(reads);
        let prev = layout(prev_reads);
        let st = layout(reads);
        let n = reads.len() - 1;
        let read = reads.last();
        assert(read == reads[n]);
        if prev.placed.contains_key(read.name@) {
            let k = choose|k: int| 0 <= k < prev_reads.len() && (#[trigger] prev_reads[k]).name@ == read.name@;
            assert(prev_reads[k] == reads[k]);
            assert(false);
        }
        let r = first_fit(prev.row_ends, read.position as int, read.mpos as int, 1);
        lemma_first_fit_bounds(prev.row_ends, read.position as int, read.mpos as int, 1);
        let w = prev.row_ends[r];
        assert(read.position >= w);
        assert forall|name: Seq<char>| #[trigger] st.placed.contains_key(name) implies exists|k: int|
            0 <= k < reads.len() && (#[trigger] reads[k]).name@ == name by {
            if name != read.name@ {
                assert(prev.placed.contains_key(name));
                let k = choose|k: int| 0 <= k < prev_reads.len() && (#[trigger] prev_reads[k]).name@ == name;
                assert(prev_reads[k] == reads[k]);
            } else {
                assert(reads[n].name@ == name);
            }
        }
        assert forall|k: int| 0 <= k < reads.len() implies (#[trigger] reads[k]).end_position
            <= st.row_ends[st.rows[k]] by {
            if k < n {
                assert(prev_reads[k] == reads[k]);
                assert(st.rows[k] == prev.rows[k]);
                assert(reads[k].end_position <= prev.row_ends[prev.rows[k]]);
                if prev.rows[k] == r {
                    assert(st.row_ends[r] >= read.end_position);
                }
            }
        }
        assert forall|i: int, j: int|
            0 <= i < j < reads.len() && st.rows[i] == st.rows[j] implies (#[trigger] reads[i]).end_position
            <= (#[trigger] reads[j]).position by {
            assert(prev_reads[i] == reads[i]);
            assert(st.rows[i] == prev.rows[i]);
            if j < n {
                assert(prev_reads[j] == reads[j]);
                assert(st.rows[j] == prev.rows[j]);
            } else {
                assert(st.rows[j] == r);
                assert(reads[i].end_position <= prev.row_ends[r]);
            }
        }
    }
}

/// Two reads on the same row never overlap: when no read has its mate in the
/// list and every span is well formed, a read placed after another on the
/// same row starts at or after that read's end.
pub proof fn lemma_same_row_disjoint(reads: Seq<Read>, i: int, j: int)
    requires
        spans_valid(reads),
        names_distinct(reads),
        0 <= i < j < reads.len(),
        layout(reads).rows[i] == layout(reads).rows[j],
    ensures
        reads[i].end_position <= reads[j].position,
{
    lemma_layout_spans(reads);
}

/// The layout is reproducible: the same reads and row limit always give the
/// same rows and the same kept reads.
pub proof fn lemma_layout_deterministic(a: Seq<Read>, b: Seq<Read>, max_rows: nat)
    requires
        a == b,
    ensures
        layout(a).rows == layout(b).rows,
        ordered(a, max_rows) == ordered(b, max_rows),
{
}

} // verus!
