//! Highlight sources (variant and BED files) and the rules that turn their
//! records into highlighted intervals of a region.

use vstd::prelude::*;
use std::path::PathBuf;
use crate::region::Region;
use crate::text::{push_decimal, push_signed, push_str, signed_decimal, decimal, string_from_chars};

verus! {

#[verifier::external_type_specification]
#[verifier::external_body]
pub struct ExPathBuf(PathBuf);

/// Variants of a VCF/BCF file, highlighted at their reference allele.
#[derive(Debug)]
pub struct VcfHighlight {
    pub path: PathBuf,
}

/// Intervals of a BED file.
#[derive(Debug)]
pub struct BedHighlight {
    pub path: PathBuf,
}

impl VcfHighlight {
    pub fn new(path: PathBuf) -> (r: VcfHighlight)
        ensures
            r.path == path,
    {
        VcfHighlight { path }
    }

    /// The highlighted interval of a variant at `pos` on `target` whose
    /// reference allele has `ref_len` bases: `[pos, pos + ref_len)`, when the
    /// region contains the variant.
    pub fn variant_span(region: &Region, target: &str, pos: i64, ref_len: usize) -> (r: Option<(i64, i64)>)
        requires
            ref_len <= i64::MAX,
            pos + ref_len <= i64::MAX,
        ensures
            (region.target@ == target@ && region.start <= pos <= region.end) ==> r == Some(
                (pos, (pos + ref_len) as i64),
            ),
            !(region.target@ == target@ && region.start <= pos <= region.end) ==> r is None,
    {
        if region.contains(pos, target) {
            Some((pos, pos + ref_len as i64))
        } else {
            None
        }
    }

    /// The name of a variant without an id: `target:pos` then the reference
    /// allele, `>`, and the alternative allele.
    pub fn variant_name(target: &str, pos: i64, ref_allele: &str, alt_allele: &str) -> (r: String)
        ensures
            r@ == target@ + seq![':'] + signed_decimal(pos as int) + ref_allele@ + seq!['>'] + alt_allele@,
    {
        let mut out: Vec<char> = Vec::new();
        push_str(&mut out, target);
        out.push(':');
        push_signed(&mut out, pos);
        push_str(&mut out, ref_allele);
        out.push('>');
        push_str(&mut out, alt_allele);
        assert(out@ =~= target@ + seq![':'] + signed_decimal(pos as int) + ref_allele@ + seq!['>'] + alt_allele@);
        string_from_chars(&out)
    }
}

impl BedHighlight {
    pub fn new(path: PathBuf) -> (r: BedHighlight)
        ensures
            r.path == path,
    {
        BedHighlight { path }
    }

    /// The highlighted interval of a BED record: `[start, end)`, when it
    /// meets the region on the same contig.
    pub fn record_span(region: &Region, chrom: &str, start: u64, end: u64) -> (r: Option<(u64, u64)>)
        requires
            start <= i64::MAX,
            end <= i64::MAX,
        ensures
            (region.target@ == chrom@ && start <= region.end && end >= region.start) ==> r == Some(
                (start, end),
            ),
            !(region.target@ == chrom@ && start <= region.end && end >= region.start) ==> r is None,
    {
        if region.overlaps(start as i64, end as i64, chrom) {
            Some((start, end))
        } else {
            None
        }
    }

    /// The name of a BED record without one: `chrom:start-end`.
    pub fn record_name(chrom: &str, start: u64, end: u64) -> (r: String)
        ensures
            r@ == chrom@ + seq![':'] + decimal(start as nat) + seq!['-'] + decimal(end as nat),
    {
        let mut out: Vec<char> = Vec::new();
        push_str(&mut out, chrom);
        out.push(':');
        push_decimal(&mut out, start);
        out.push('-');
        push_decimal(&mut out, end);
        assert(out@ =~= chrom@ + seq![':'] + decimal(start as nat) + seq!['-'] + decimal(end as nat));
        string_from_chars(&out)
    }
}

} // verus!
