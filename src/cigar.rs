//! The display-oriented edit script of a read (`PlotCigar`): runs of matches,
//! substitutions, insertions and deletions relative to the reference, and its
//! `|`-separated text form.

use vstd::prelude::*;
use crate::text::{
    bounded_numeral, chars_of, decimal, is_digit, lemma_decimal_digits, parse_numeral,
    push_decimal, string_from_chars,
};

verus! {

/// One element of an edit script.
#[derive(Debug)]
pub enum EditOp {
    /// `length` consecutive bases identical to the reference.
    Match { length: u32 },
    /// `length` consecutive bases, all substituted by `base`.
    Sub { length: u32, base: char },
    /// Bases of the read that the reference does not have.
    Ins { bases: Vec<char> },
    /// `length` reference bases that the read skips.
    Del { length: u32 },
}

/// The mathematical value of an `EditOp`.
pub enum Edit {
    Match(nat),
    Sub(nat, char),
    Ins(Seq<char>),
    Del(nat),
}

impl View for EditOp {
    type V = Edit;

    open spec fn view(&self) -> Edit {
        match self {
            EditOp::Match { length } => Edit::Match(*length as nat),
            EditOp::Sub { length, base } => Edit::Sub(*length as nat, *base),
            EditOp::Ins { bases } => Edit::Ins(bases@),
            EditOp::Del { length } => Edit::Del(*length as nat),
        }
    }
}

impl EditOp {
    /// A copy with the same value.
    pub fn duplicate(&self) -> (r: EditOp)
        ensures
            r@ == self@,
    {
        match self {
            EditOp::Match { length } => EditOp::Match { length: *length },
            EditOp::Sub { length, base } => EditOp::Sub { length: *length, base: *base },
            EditOp::Ins { bases } => EditOp::Ins { bases: bases.clone() },
            EditOp::Del { length } => EditOp::Del { length: *length },
        }
    }
}

impl Clone for EditOp {
    fn clone(&self) -> (r: EditOp)
        ensures
            r@ == self@,
    {
        self.duplicate()
    }
}

/// Whether two character vectors hold the same characters.
fn same_chars(a: &Vec<char>, b: &Vec<char>) -> (r: bool)
    ensures
        r == (a@ == b@),
{
    if a.len() != b.len() {
        return false;
    }
    let mut i: usize = 0;
    while i < a.len()
        invariant
            a.len() == b.len(),
            i <= a.len(),
            forall|j: int| 0 <= j < i ==> a@[j] == b@[j],
        decreases a.len() - i,
    {
        if a[i] != b[i] {
            return false;
        }
        i = i + 1;
    }
    assert(a@ =~= b@);
    true
}

impl PartialEq for EditOp {
    fn eq(&self, other: &EditOp) -> (r: bool)
        ensures
            r == (self@ == other@),
    {
        match (self, other) {
            (EditOp::Match { length: a }, EditOp::Match { length: b }) => *a == *b,
            (EditOp::Sub { length: a, base: x }, EditOp::Sub { length: b, base: y }) => *a == *b
                && *x == *y,
            (EditOp::Ins { bases: a }, EditOp::Ins { bases: b }) => same_chars(a, b),
            (EditOp::Del { length: a }, EditOp::Del { length: b }) => *a == *b,
            _ => false,
        }
    }
}

impl vstd::std_specs::cmp::PartialEqSpecImpl for EditOp {
    open spec fn obeys_eq_spec() -> bool {
        true
    }

    open spec fn eq_spec(&self, other: &EditOp) -> bool {
        self@ == other@
    }
}

/// Reference bases an edit covers.
pub open spec fn edit_span(e: Edit) -> nat {
    match e {
        Edit::Match(n) => n,
        Edit::Sub(n, _) => n,
        Edit::Del(n) => n,
        Edit::Ins(_) => 0,
    }
}

/// Reference bases an edit script covers.
pub open spec fn edits_span(es: Seq<Edit>) -> nat
    decreases es.len(),
{
    if es.len() == 0 {
        0
    } else {
        edits_span(es.drop_last()) + edit_span(es.last())
    }
}

/// An edit script: the ordered edits of one read against the reference.
#[derive(Debug)]
pub struct PlotCigar(pub Vec<EditOp>);

impl View for PlotCigar {
    type V = Seq<Edit>;

    open spec fn view(&self) -> Seq<Edit> {
        self.0@.map_values(|e: EditOp| e@)
    }
}

impl PartialEq for PlotCigar {
    fn eq(&self, other: &PlotCigar) -> (r: bool)
        ensures
            r == (self@ == other@),
    {
        if self.0.len() != other.0.len() {
            proof {
                assert(self@.len() != other@.len());
            }
            return false;
        }
        let mut i: usize = 0;
        while i < self.0.len()
            invariant
                self.0.len() == other.0.len(),
                i <= self.0.len(),
                forall|j: int| 0 <= j < i ==> self@[j] == other@[j],
            decreases self.0.len() - i,
        {
            if !(self.0[i] == other.0[i]) {
                proof {
                    assert(self@[i as int] != other@[i as int]);
                }
                return false;
            }
            i = i + 1;
        }
        assert(self@ =~= other@);
        true
    }
}

impl vstd::std_specs::cmp::PartialEqSpecImpl for PlotCigar {
    open spec fn obeys_eq_spec() -> bool {
        true
    }

    open spec fn eq_spec(&self, other: &PlotCigar) -> bool {
        self@ == other@
    }
}

/// The text of one edit: `{n}=` for a match, `{n}d` for a deletion,
/// `{n}{base}` for a substitution and `i{bases}` for an insertion.
pub open spec fn edit_text(e: Edit) -> Seq<char> {
    match e {
        Edit::Match(n) => decimal(n).push('='),
        Edit::Sub(n, b) => decimal(n).push(b),
        Edit::Ins(bs) => seq!['i'] + bs,
        Edit::Del(n) => decimal(n).push('d'),
    }
}

/// The text of an edit script: the texts of its edits joined by `|`.
pub open spec fn cigar_text(es: Seq<Edit>) -> Seq<char>
    decreases es.len(),
{
    if es.len() == 0 {
        seq![]
    } else if es.len() == 1 {
        edit_text(es[0])
    } else {
        cigar_text(es.drop_last()).push('|') + edit_text(es.last())
    }
}

/// Appends the text of one edit.
fn push_edit_text(out: &mut Vec<char>, e: &EditOp)
    ensures
        final(out)@ == old(out)@ + edit_text(e@),
{
    match e {
        EditOp::Match { length } => {
            push_decimal(out, *length as u64);
            out.push('=');
        },
        EditOp::Sub { length, base } => {
            push_decimal(out, *length as u64);
            out.push(*base);
        },
        EditOp::Ins { bases } => {
            out.push('i');
            let ghost before = out@;
            let mut i: usize = 0;
            while i < bases.len()
                invariant
                    i <= bases.len(),
                    out@ == before + bases@.take(i as int),
                decreases bases.len() - i,
            {
                assert(bases@.take(i + 1) =~= bases@.take(i as int).push(bases@[i as int]));
                out.push(bases[i]);
                i = i + 1;
            }
            assert(bases@.take(bases.len() as int) =~= bases@);
        },
        EditOp::Del { length } => {
            push_decimal(out, *length as u64);
            out.push('d');
        },
    }
    assert(final(out)@ =~= old(out)@ + edit_text(e@));
}

impl PlotCigar {
    /// The characters of the text form.
    pub fn to_chars(&self) -> (r: Vec<char>)
        ensures
            r@ == cigar_text(self@),
    {
        let mut out: Vec<char> = Vec::new();
        let mut i: usize = 0;
        while i < self.0.len()
            invariant
                i <= self.0.len(),
                out@ == cigar_text(self@.take(i as int)),
            decreases self.0.len() - i,
        {
            let ghost prev = out@;
            if i > 0 {
                out.push('|');
            }
            push_edit_text(&mut out, &self.0[i]);
            proof {
                let t = self@.take(i + 1);
                assert(t.drop_last() =~= self@.take(i as int));
                if i == 0 {
                    assert(out@ =~= edit_text(t[0]));
                } else {
                    assert(out@ =~= cigar_text(t.drop_last()).push('|') + edit_text(t.last()));
                }
            }
            i = i + 1;
        }
        assert(self@.take(self.0.len() as int) =~= self@);
        out
    }

    /// The text form, e.g. `50=|3d|10=|1C|1G|iGGT`.
    pub fn to_string(&self) -> (r: String)
        ensures
            r@ == cigar_text(self@),
    {
        string_from_chars(&self.to_chars())
    }
}

/// Why a text is not an edit script.
#[derive(Debug, Clone, Copy, PartialEq, Eq, Structural)]
pub enum CigarParseError {
    /// The `|`-separated piece with this index is not the text of an edit.
    InvalidEdit(usize),
}

/// The edit that one `|`-separated piece of text stands for. A piece ending
/// in `=` or `d` is a match or a deletion, one starting with `i` is an
/// insertion, any other is a substitution by its last character; lengths
/// are decimal and fit in 32 bits.
pub open spec fn token_edit(t: Seq<char>) -> Option<Edit> {
    if t.len() == 0 {
        None
    } else if t.last() == '=' {
        match bounded_numeral(t.drop_last(), u32::MAX as nat) {
            Some(n) => Some(Edit::Match(n)),
            None => None,
        }
    } else if t.last() == 'd' {
        match bounded_numeral(t.drop_last(), u32::MAX as nat) {
            Some(n) => Some(Edit::Del(n)),
            None => None,
        }
    } else if t[0] == 'i' {
        Some(Edit::Ins(t.drop_first()))
    } else {
        match bounded_numeral(t.drop_last(), u32::MAX as nat) {
            Some(n) => Some(Edit::Sub(n, t.last())),
            None => None,
        }
    }
}

/// The pieces of `s` between `|` separators (one piece when there is none).
pub open spec fn split_bars(s: Seq<char>) -> Seq<Seq<char>>
    decreases s.len(),
{
    if s.len() == 0 {
        seq![seq![]]
    } else {
        let parts = split_bars(s.drop_last());
        if s.last() == '|' {
            parts.push(seq![])
        } else {
            parts.update(parts.len() - 1, parts.last().push(s.last()))
        }
    }
}

/// The edits that a list of pieces stands for, when each piece is valid.
pub open spec fn token_edits(ts: Seq<Seq<char>>) -> Option<Seq<Edit>>
    decreases ts.len(),
{
    if ts.len() == 0 {
        Some(seq![])
    } else {
        match (token_edits(ts.drop_last()), token_edit(ts.last())) {
            (Some(es), Some(e)) => Some(es.push(e)),
            _ => None,
        }
    }
}

/// The edit script that a text stands for; the empty text is the empty script.
pub open spec fn parse_cigar_text(s: Seq<char>) -> Option<Seq<Edit>> {
    if s.len() == 0 {
        Some(seq![])
    } else {
        token_edits(split_bars(s))
    }
}

proof fn lemma_split_bars_nonempty(s: Seq<char>)
    ensures
        split_bars(s).len() >= 1,
    decreases s.len(),
{
    if s.len() > 0 {
        lemma_split_bars_nonempty(s.drop_last());
    }
}

/// Reads the edit written in `s[lo..hi]`.
fn parse_token(s: &Vec<char>, lo: usize, hi: usize) -> (r: Option<EditOp>)
    requires
        lo <= hi <= s.len(),
    ensures
        r matches Some(e) ==> token_edit(s@.subrange(lo as int, hi as int)) == Some(e@),
        r is None ==> token_edit(s@.subrange(lo as int, hi as int)) is None,
{
    let ghost t = s@.subrange(lo as int, hi as int);
    if lo == hi {
        return None;
    }
    let last = s[hi - 1];
    assert(t.last() == last);
    assert(t.drop_last() =~= s@.subrange(lo as int, hi - 1));
    if last == '=' || last == 'd' || s[lo] != 'i' {
        match parse_numeral(s, lo, hi - 1, u32::MAX as u64) {
            Some(n) => {
                let length = n as u32;
                if last == '=' {
                    Some(EditOp::Match { length })
                } else if last == 'd' {
                    Some(EditOp::Del { length })
                } else {
                    Some(EditOp::Sub { length, base: last })
                }
            },
            None => None,
        }
    } else {
        let mut bases: Vec<char> = Vec::new();
        let mut i: usize = lo + 1;
        while i < hi
            invariant
                lo < i <= hi <= s.len(),
                bases@ == s@.subrange(lo + 1, i as int),
            decreases hi - i,
        {
            bases.push(s[i]);
            i = i + 1;
            assert(bases@ =~= s@.subrange(lo + 1, i as int));
        }
        assert(t.drop_first() =~= bases@);
        Some(EditOp::Ins { bases })
    }
}

impl PlotCigar {
    /// Reads an edit script from its text form.
    pub fn parse(s: &str) -> (r: Result<PlotCigar, CigarParseError>)
        ensures
            r matches Ok(c) ==> parse_cigar_text(s@) == Some(c@),
            r is Err ==> parse_cigar_text(s@) is None,
    {
        let chars = chars_of(s);
        let n = chars.len();
        if n == 0 {
            let empty = PlotCigar(Vec::new());
            assert(empty@ =~= seq![]);
            return Ok(empty);
        }
        let mut ops: Vec<EditOp> = Vec::new();
        let mut failed: Option<usize> = None;
        let mut pieces: usize = 0;
        let mut start: usize = 0;
        let mut i: usize = 0;
        while i < n
            invariant
                n == chars.len(),
                chars@ == s@,
                start <= i <= n,
                pieces <= i,
                split_bars(chars@.take(i as int)).len() == pieces + 1,
                split_bars(chars@.take(i as int)).last() == chars@.subrange(start as int, i as int),
                failed is None ==> token_edits(split_bars(chars@.take(i as int)).drop_last())
                    == Some(ops@.map_values(|e: EditOp| e@)),
                failed is Some ==> token_edits(split_bars(chars@.take(i as int)).drop_last()) is None,
            decreases n - i,
        {
            let ghost prev = split_bars(chars@.take(i as int));
            proof {
                lemma_split_bars_nonempty(chars@.take(i as int));
                assert(chars@.take(i + 1).drop_last() =~= chars@.take(i as int));
            }
            if chars[i] == '|' {
                let parsed = parse_token(&chars, start, i);
                if failed.is_none() {
                    match parsed {
                        Some(e) => {
                            let ghost before = ops@.map_values(|e: EditOp| e@);
                            let ghost ev = e@;
                            ops.push(e);
                            assert(ops@.map_values(|e: EditOp| e@) =~= before.push(ev));
                        },
                        None => {
                            failed = Some(pieces);
                        },
                    }
                }
                proof {
                    let next = split_bars(chars@.take(i + 1));
                    assert(next =~= prev.push(seq![]));
                    assert(next.drop_last() =~= prev);
                }
                pieces = pieces + 1;
                start = i + 1;
            } else {
                proof {
                    let next = split_bars(chars@.take(i + 1));
                    assert(next.drop_last() =~= prev.drop_last());
                    assert(next.last() =~= chars@.subrange(start as int, i + 1));
                }
            }
            i = i + 1;
        }
        assert(chars@.take(n as int) =~= chars@);
        let parsed = parse_token(&chars, start, n);
        match failed {
            Some(k) => Err(CigarParseError::InvalidEdit(k)),
            None => match parsed {
                Some(e) => {
                    let ghost before = ops@.map_values(|e: EditOp| e@);
                    let ghost ev = e@;
                    ops.push(e);
                    assert(ops@.map_values(|e: EditOp| e@) =~= before.push(ev));
                    Ok(PlotCigar(ops))
                },
                None => Err(CigarParseError::InvalidEdit(pieces)),
            },
        }
    }
}

impl std::str::FromStr for PlotCigar {
    type Err = CigarParseError;

    fn from_str(s: &str) -> (r: Result<PlotCigar, CigarParseError>)
        ensures
            r matches Ok(c) ==> parse_cigar_text(s@) == Some(c@),
            r is Err ==> parse_cigar_text(s@) is None,
    {
        PlotCigar::parse(s)
    }
}

/// An edit whose text reads back as itself: lengths fit in 32 bits, and no
/// base could be taken for a separator or for the closing `=` or `d`.
pub open spec fn valid_edit(e: Edit) -> bool {
    match e {
        Edit::Match(n) => n <= u32::MAX,
        Edit::Del(n) => n <= u32::MAX,
        Edit::Sub(n, b) => n <= u32::MAX && b != '=' && b != 'd' && b != '|',
        Edit::Ins(bs) => (forall|i: int| 0 <= i < bs.len() ==> bs[i] != '|') && (bs.len() == 0
            || (bs.last() != '=' && bs.last() != 'd')),
    }
}

pub open spec fn valid_edits(es: Seq<Edit>) -> bool {
    forall|i: int| 0 <= i < es.len() ==> valid_edit(#[trigger] es[i])
}

/// Whether `s` is written in the edit-script grammar, i.e. is the text of
/// some script of valid edits.
pub open spec fn well_formed_cigar_text(s: Seq<char>) -> bool {
    exists|es: Seq<Edit>| valid_edits(es) && #[trigger] cigar_text(es) == s
}

proof fn lemma_edit_text(e: Edit)
    requires
        valid_edit(e),
    ensures
        token_edit(edit_text(e)) == Some(e),
        edit_text(e).len() > 0,
        forall|i: int| 0 <= i < edit_text(e).len() ==> #[trigger] edit_text(e)[i] != '|',
{
    let t = edit_text(e);
    match e {
        Edit::Ins(bs) => {
            assert(t.drop_first() =~= bs);
            assert forall|i: int| 0 <= i < t.len() implies #[trigger] t[i] != '|' by {
                if i > 0 {
                    assert(t[i] == bs[i - 1]);
                }
            }
        },
        Edit::Match(n) => {
            lemma_decimal_digits(n);
            assert(t.drop_last() =~= decimal(n));
            assert forall|i: int| 0 <= i < t.len() implies #[trigger] t[i] != '|' by {
                if i < t.len() - 1 {
                    assert(is_digit(decimal(n)[i]));
                }
            }
        },
        Edit::Del(n) => {
            lemma_decimal_digits(n);
            assert(t.drop_last() =~= decimal(n));
            assert forall|i: int| 0 <= i < t.len() implies #[trigger] t[i] != '|' by {
                if i < t.len() - 1 {
                    assert(is_digit(decimal(n)[i]));
                }
            }
        },
        Edit::Sub(n, b) => {
            lemma_decimal_digits(n);
            assert(t.drop_last() =~= decimal(n));
            assert(t[0] == decimal(n)[0]);
            assert forall|i: int| 0 <= i < t.len() implies #[trigger] t[i] != '|' by {
                if i < t.len() - 1 {
                    assert(is_digit(decimal(n)[i]));
                }
            }
        },
    }
}

proof fn lemma_split_bars_append(a: Seq<char>, b: Seq<char>)
    requires
        forall|i: int| 0 <= i < b.len() ==> b[i] != '|',
    ensures
        split_bars(a + b) == split_bars(a).update(
            split_bars(a).len() - 1,
            split_bars(a).last() + b,
        ),
    decreases b.len(),
{
    lemma_split_bars_nonempty(a);
    if b.len() == 0 {
        assert(a + b =~= a);
        assert(split_bars(a).last() + b =~= split_bars(a).last());
        assert(split_bars(a).update(split_bars(a).len() - 1, split_bars(a).last())
            =~= split_bars(a));
    } else {
        let b0 = b.drop_last();
        lemma_split_bars_append(a, b0);
        assert((a + b).drop_last() =~= a + b0);
        assert((a + b).last() == b.last());
        assert((split_bars(a).last() + b0).push(b.last()) =~= split_bars(a).last() + b);
        assert(split_bars(a + b) =~= split_bars(a).update(
            split_bars(a).len() - 1,
            split_bars(a).last() + b,
        ));
    }
}

proof fn lemma_cigar_text_nonempty(es: Seq<Edit>)
    requires
        valid_edits(es),
        es.len() > 0,
    ensures
        cigar_text(es).len() > 0,
{
    lemma_edit_text(es.last());
    if es.len() == 1 {
        lemma_edit_text(es[0]);
    }
}

proof fn lemma_split_cigar_text(es: Seq<Edit>)
    requires
        valid_edits(es),
        es.len() > 0,
    ensures
        split_bars(cigar_text(es)) == es.map_values(|e: Edit| edit_text(e)),
    decreases es.len(),
{
    let t = edit_text(es.last());
    lemma_edit_text(es.last());
    if es.len() == 1 {
        lemma_split_bars_append(seq![], t);
        assert(seq![] + t =~= t);
        assert(split_bars(seq![]).last() + t =~= t);
        assert(split_bars(cigar_text(es)) =~= es.map_values(|e: Edit| edit_text(e)));
    } else {
        let prev = es.drop_last();
        assert forall|i: int| 0 <= i < prev.len() implies valid_edit(#[trigger] prev[i]) by {
            assert(prev[i] == es[i]);
        }
        lemma_split_cigar_text(prev);
        let x = cigar_text(prev).push('|');
        lemma_split_bars_append(x, t);
        assert(x.drop_last() =~= cigar_text(prev));
        lemma_split_bars_nonempty(cigar_text(prev));
        assert(split_bars(x) =~= split_bars(cigar_text(prev)).push(seq![]));
        assert(seq![] + t =~= t);
        assert(split_bars(cigar_text(es)) =~= es.map_values(|e: Edit| edit_text(e)));
    }
}

proof fn lemma_token_edits_of_texts(es: Seq<Edit>)
    requires
        valid_edits(es),
    ensures
        token_edits(es.map_values(|e: Edit| edit_text(e))) == Some(es),
    decreases es.len(),
{
    let ts = es.map_values(|e: Edit| edit_text(e));
    if es.len() > 0 {
        let prev = es.drop_last();
        assert forall|i: int| 0 <= i < prev.len() implies valid_edit(#[trigger] prev[i]) by {
            assert(prev[i] == es[i]);
        }
        lemma_token_edits_of_texts(prev);
        assert(ts.drop_last() =~= prev.map_values(|e: Edit| edit_text(e)));
        lemma_edit_text(es.last());
        assert(prev.push(es.last()) =~= es);
    }
}

/// Reading back the text of a script of valid edits gives that script.
pub proof fn lemma_parse_cigar_text_inverts(es: Seq<Edit>)
    requires
        valid_edits(es),
    ensures
        parse_cigar_text(cigar_text(es)) == Some(es),
{
    if es.len() > 0 {
        lemma_cigar_text_nonempty(es);
        lemma_split_cigar_text(es);
        lemma_token_edits_of_texts(es);
    } else {
        assert(es =~= seq![]);
    }
}

/// Round trip of the text form: reading a well-formed text and writing the
/// script again gives back the same text.
pub proof fn lemma_cigar_text_round_trip(s: Seq<char>)
    requires
        well_formed_cigar_text(s),
    ensures
        parse_cigar_text(s) matches Some(es) && cigar_text(es) == s,
{
    let es = choose|es: Seq<Edit>| valid_edits(es) && #[trigger] cigar_text(es) == s;
    lemma_parse_cigar_text_inverts(es);
}

} // verus!
