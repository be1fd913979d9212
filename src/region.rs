//! Genomic regions: half-open `[start, end)` intervals on a named contig, the
//! single-base `Around` form, and their text forms.

use vstd::prelude::*;
use crate::text::{bounded_numeral, chars_of, parse_numeral, string_from_chars};

verus! {

/// A half-open interval `[start, end)` on the contig `target`, 0-based.
#[derive(Debug, Clone)]
pub struct Region {
    pub target: String,
    pub start: i64,
    pub end: i64,
}

/// A single base on a contig.
#[derive(Debug, Clone)]
pub struct Around {
    pub target: String,
    pub position: i64,
}

/// Why a text is not a region, a base position or a data format.
#[derive(Debug, Clone, Copy, PartialEq, Eq, Structural)]
pub enum ParseError {
    /// No `:` separates the contig from the coordinates.
    MissingColon,
    /// No `-` separates the start from the end.
    MissingDash,
    /// The start is not a 64-bit integer.
    InvalidStart,
    /// The end is not a 64-bit integer.
    InvalidEnd,
    /// The position is not a 64-bit integer.
    InvalidPosition,
    /// The format name is neither `json` nor `tsv`.
    UnknownFormat,
}

/// The signed 64-bit integer that `s` spells: an optional `+` or `-`, then
/// at least one decimal digit.
pub open spec fn parse_i64_text(s: Seq<char>) -> Option<int> {
    if s.len() > 0 && s[0] == '-' {
        match bounded_numeral(s.drop_first(), 0x8000_0000_0000_0000) {
            Some(v) => Some(-v),
            None => None,
        }
    } else if s.len() > 0 && s[0] == '+' {
        match bounded_numeral(s.drop_first(), i64::MAX as nat) {
            Some(v) => Some(v as int),
            None => None,
        }
    } else {
        match bounded_numeral(s, i64::MAX as nat) {
            Some(v) => Some(v as int),
            None => None,
        }
    }
}

/// The index of the first `c` in `s`, if any.
pub open spec fn first_index(s: Seq<char>, c: char) -> Option<int> {
    if exists|i: int| 0 <= i < s.len() && s[i] == c {
        Some(choose|i: int| 0 <= i < s.len() && s[i] == c && forall|j: int| 0 <= j < i ==> s[j] != c)
    } else {
        None
    }
}

/// Finds the first `c` in `s[lo..]`.
fn find_char(s: &Vec<char>, lo: usize, c: char) -> (r: Option<usize>)
    requires
        lo <= s.len(),
    ensures
        r matches Some(i) ==> lo <= i < s.len() && s@[i as int] == c && forall|j: int|
            lo <= j < i ==> s@[j] != c,
        r is None ==> forall|j: int| lo <= j < s.len() ==> s@[j] != c,
{
    let mut i = lo;
    while i < s.len()
        invariant
            lo <= i <= s.len(),
            forall|j: int| lo <= j < i ==> s@[j] != c,
        decreases s.len() - i,
    {
        if s[i] == c {
            return Some(i);
        }
        i = i + 1;
    }
    None
}

proof fn lemma_first_index(s: Seq<char>, c: char, i: int)
    requires
        0 <= i < s.len(),
        s[i] == c,
        forall|j: int| 0 <= j < i ==> s[j] != c,
    ensures
        first_index(s, c) == Some(i),
{
    let k = choose|k: int| 0 <= k < s.len() && s[k] == c && forall|j: int| 0 <= j < k ==> s[j] != c;
    if k < i {
        assert(s[k] != c);
    }
    if i < k {
        assert(s[i] != c);
    }
}

/// Reads a signed 64-bit integer from `s[lo..hi]`.
fn parse_i64(s: &Vec<char>, lo: usize, hi: usize) -> (r: Option<i64>)
    requires
        lo <= hi <= s.len(),
    ensures
        r matches Some(v) ==> parse_i64_text(s@.subrange(lo as int, hi as int)) == Some(v as int),
        r is None ==> parse_i64_text(s@.subrange(lo as int, hi as int)) is None,
{
    let ghost t = s@.subrange(lo as int, hi as int);
    if lo < hi && s[lo] == '-' {
        assert(t.drop_first() =~= s@.subrange(lo + 1, hi as int));
        match parse_numeral(s, lo + 1, hi, 0x8000_0000_0000_0000u64) {
            Some(v) => {
                if v == 0x8000_0000_0000_0000u64 {
                    Some(i64::MIN)
                } else {
                    Some(-(v as i64))
                }
            },
            None => None,
        }
    } else if lo < hi && s[lo] == '+' {
        assert(t.drop_first() =~= s@.subrange(lo + 1, hi as int));
        match parse_numeral(s, lo + 1, hi, i64::MAX as u64) {
            Some(v) => Some(v as i64),
            None => None,
        }
    } else {
        match parse_numeral(s, lo, hi, i64::MAX as u64) {
            Some(v) => Some(v as i64),
            None => None,
        }
    }
}

/// Copies `s[lo..hi]` into a string.
fn substring(s: &Vec<char>, lo: usize, hi: usize) -> (r: String)
    requires
        lo <= hi <= s.len(),
    ensures
        r@ == s@.subrange(lo as int, hi as int),
{
    let mut out: Vec<char> = Vec::new();
    let mut i = lo;
    while i < hi
        invariant
            lo <= i <= hi <= s.len(),
            out@ == s@.subrange(lo as int, i as int),
        decreases hi - i,
    {
        out.push(s[i]);
        i = i + 1;
        assert(out@ =~= s@.subrange(lo as int, i as int));
    }
    string_from_chars(&out)
}

/// The region that a text `target:start-end` stands for: the contig is the
/// text before the first `:`, start and end are split at the first `-` after
/// it.
pub open spec fn parse_region_text(s: Seq<char>) -> Result<(Seq<char>, int, int), ParseError> {
    match first_index(s, ':') {
        None => Err(ParseError::MissingColon),
        Some(c) => {
            let rest = s.subrange(c + 1, s.len() as int);
            match first_index(rest, '-') {
                None => Err(ParseError::MissingDash),
                Some(d) => match parse_i64_text(rest.subrange(0, d)) {
                    None => Err(ParseError::InvalidStart),
                    Some(start) => match parse_i64_text(rest.subrange(d + 1, rest.len() as int)) {
                        None => Err(ParseError::InvalidEnd),
                        Some(end) => Ok((s.subrange(0, c), start, end)),
                    },
                },
            }
        },
    }
}

/// The base that a text `target:position` stands for.
pub open spec fn parse_around_text(s: Seq<char>) -> Result<(Seq<char>, int), ParseError> {
    match first_index(s, ':') {
        None => Err(ParseError::MissingColon),
        Some(c) => match parse_i64_text(s.subrange(c + 1, s.len() as int)) {
            None => Err(ParseError::InvalidPosition),
            Some(p) => Ok((s.subrange(0, c), p)),
        },
    }
}

impl Region {
    /// Reads a region from `target:start-end`, coordinates taken as written.
    #[verifier::rlimit(60)]
    pub fn from_str(s: &str) -> (r: Result<Region, ParseError>)
        ensures
            match (r, parse_region_text(s@)) {
                (Ok(g), Ok((t, a, b))) => g.target@ == t && g.start == a && g.end == b,
                (Err(e), Err(f)) => e == f,
                _ => false,
            },
    {
        let chars = chars_of(s);
        let n = chars.len();
        let colon = match find_char(&chars, 0, ':') {
            None => {
                assert(first_index(s@, ':') is None);
                return Err(ParseError::MissingColon);
            },
            Some(c) => c,
        };
        proof {
            lemma_first_index(chars@, ':', colon as int);
        }
        let ghost rest = chars@.subrange(colon + 1, n as int);
        let dash = match find_char(&chars, colon + 1, '-') {
            None => {
                assert forall|j: int| 0 <= j < rest.len() implies rest[j] != '-' by {
                    assert(rest[j] == chars@[colon + 1 + j]);
                }
                assert(first_index(rest, '-') is None);
                return Err(ParseError::MissingDash);
            },
            Some(d) => d,
        };
        proof {
            let d = dash - colon - 1;
            assert forall|j: int| 0 <= j < d implies rest[j] != '-' by {
                assert(rest[j] == chars@[colon + 1 + j]);
            }
            assert(rest[d] == chars@[dash as int]);
            lemma_first_index(rest, '-', d);
            assert(rest.subrange(0, d) =~= chars@.subrange(colon + 1, dash as int));
            assert(rest.subrange(d + 1, rest.len() as int) =~= chars@.subrange(dash + 1, n as int));
        }
        let start = match parse_i64(&chars, colon + 1, dash) {
            None => {
                return Err(ParseError::InvalidStart);
            },
            Some(v) => v,
        };
        let end = match parse_i64(&chars, dash + 1, n) {
            None => {
                return Err(ParseError::InvalidEnd);
            },
            Some(v) => v,
        };
        Ok(Region { target: substring(&chars, 0, colon), start, end })
    }

    /// The region of 500 bases on each side of a base: `[position - 500, position + 500)`.
    pub fn from_around(around: &Around) -> (r: Region)
        requires
            i64::MIN + 500 <= around.position <= i64::MAX - 500,
        ensures
            r.target@ == around.target@,
            r.start == around.position - 500,
            r.end == around.position + 500,
    {
        Region {
            target: around.target.clone(),
            start: around.position - 500,
            end: around.position + 500,
        }
    }

    /// The number of bases, `end - start`.
    pub fn length(&self) -> (r: i64)
        requires
            i64::MIN <= self.end - self.start <= i64::MAX,
        ensures
            r == self.end - self.start,
    {
        self.end - self.start
    }

    /// Whether `pos` lies on `target` within `[start, end]` (both ends included).
    pub fn contains(&self, pos: i64, target: &str) -> (r: bool)
        ensures
            r == (self.target@ == target@ && self.start <= pos <= self.end),
    {
        let t = target.to_owned();
        self.target == t && self.start <= pos && pos <= self.end
    }

    /// Whether `[s, e]` on `target` meets `[start, end]` (both ends included).
    pub fn overlaps(&self, s: i64, e: i64, target: &str) -> (r: bool)
        ensures
            r == (self.target@ == target@ && s <= self.end && e >= self.start),
    {
        let t = target.to_owned();
        self.target == t && s <= self.end && e >= self.start
    }

    /// The region with start and end clipped into `[min, max]`.
    pub fn clamp(&self, min: i64, max: i64) -> (r: Region)
        requires
            min <= max,
        ensures
            r.target@ == self.target@,
            r.start == if self.start < min { min } else if self.start > max { max } else { self.start },
            r.end == if self.end < min { min } else if self.end > max { max } else { self.end },
    {
        let start = if self.start < min {
            min
        } else if self.start > max {
            max
        } else {
            self.start
        };
        let end = if self.end < min {
            min
        } else if self.end > max {
            max
        } else {
            self.end
        };
        Region { target: self.target.clone(), start, end }
    }
}

impl PartialEq for Region {
    fn eq(&self, other: &Region) -> (r: bool)
        ensures
            r == (self.target@ == other.target@ && self.start == other.start && self.end == other.end),
    {
        self.target == other.target && self.start == other.start && self.end == other.end
    }
}

impl vstd::std_specs::cmp::PartialEqSpecImpl for Region {
    open spec fn obeys_eq_spec() -> bool {
        true
    }

    open spec fn eq_spec(&self, other: &Region) -> bool {
        self.target@ == other.target@ && self.start == other.start && self.end == other.end
    }
}

impl Around {
    /// Reads a base from `target:position`.
    pub fn from_str(s: &str) -> (r: Result<Around, ParseError>)
        ensures
            match (r, parse_around_text(s@)) {
                (Ok(a), Ok((t, p))) => a.target@ == t && a.position == p,
                (Err(e), Err(f)) => e == f,
                _ => false,
            },
    {
        let chars = chars_of(s);
        let n = chars.len();
        let colon = match find_char(&chars, 0, ':') {
            None => {
                return Err(ParseError::MissingColon);
            },
            Some(c) => c,
        };
        proof {
            lemma_first_index(chars@, ':', colon as int);
        }
        let position = match parse_i64(&chars, colon + 1, n) {
            None => {
                return Err(ParseError::InvalidPosition);
            },
            Some(v) => v,
        };
        Ok(Around { target: substring(&chars, 0, colon), position })
    }
}

impl PartialEq for Around {
    fn eq(&self, other: &Around) -> (r: bool)
        ensures
            r == (self.target@ == other.target@ && self.position == other.position),
    {
        self.target == other.target && self.position == other.position
    }
}

impl vstd::std_specs::cmp::PartialEqSpecImpl for Around {
    open spec fn obeys_eq_spec() -> bool {
        true
    }

    open spec fn eq_spec(&self, other: &Around) -> bool {
        self.target@ == other.target@ && self.position == other.position
    }
}

} // verus!
