//! Rules on the command-line choices: which region to plot, and which input
//! files to use when none are named.

use vstd::prelude::*;

verus! {

/// A choice of options that cannot be followed.
#[derive(Debug, Clone, Copy, PartialEq, Eq, Structural)]
pub enum OptionsError {
    /// Both a region and a base to plot around were given.
    RegionAndAround,
    /// Neither a region, nor a base, nor the whole file was asked for.
    NoRegion,
    /// No alignment file was given or found.
    MissingAlignments,
    /// No reference file was given or found.
    MissingReference,
}

/// Checks the region choice: exactly one of a region and a base to plot
/// around, unless the whole file is plotted.
pub fn check_region_choice(has_region: bool, has_around: bool, plot_all: bool) -> (r: Result<(), OptionsError>)
    ensures
        has_region && has_around && !plot_all ==> r == Err::<(), OptionsError>(OptionsError::RegionAndAround),
        !has_region && !has_around && !plot_all ==> r == Err::<(), OptionsError>(OptionsError::NoRegion),
        (plot_all || has_region != has_around) ==> r is Ok,
{
    if has_region && has_around && !plot_all {
        Err(OptionsError::RegionAndAround)
    } else if !has_region && !has_around && !plot_all {
        Err(OptionsError::NoRegion)
    } else {
        Ok(())
    }
}

/// Checks that both input files are known.
pub fn check_inputs(has_alignments: bool, has_reference: bool) -> (r: Result<(), OptionsError>)
    ensures
        !has_alignments ==> r == Err::<(), OptionsError>(OptionsError::MissingAlignments),
        has_alignments && !has_reference ==> r == Err::<(), OptionsError>(OptionsError::MissingReference),
        has_alignments && has_reference ==> r is Ok,
{
    if !has_alignments {
        Err(OptionsError::MissingAlignments)
    } else if !has_reference {
        Err(OptionsError::MissingReference)
    } else {
        Ok(())
    }
}

/// What kind of input a file is, judged by its extension.
#[derive(Debug, Clone, Copy, PartialEq, Eq, Structural)]
pub enum InputKind {
    Fasta,
    Alignments,
    Other,
}

/// The kind of input a file extension names: `fa`, `fasta`, `fa.gz` and
/// `fasta.gz` are references, `bam` and `bam.gz` alignments.
pub fn input_kind(ext: &str) -> (r: InputKind)
    ensures
        (ext@ == "fa"@ || ext@ == "fasta"@ || ext@ == "fa.gz"@ || ext@ == "fasta.gz"@) ==> r
            == InputKind::Fasta,
        (ext@ == "bam"@ || ext@ == "bam.gz"@) ==> r == InputKind::Alignments,
        !(ext@ == "fa"@ || ext@ == "fasta"@ || ext@ == "fa.gz"@ || ext@ == "fasta.gz"@ || ext@
            == "bam"@ || ext@ == "bam.gz"@) ==> r == InputKind::Other,
{
    proof {
        reveal_strlit("fa");
        reveal_strlit("fasta");
        reveal_strlit("fa.gz");
        reveal_strlit("fasta.gz");
        reveal_strlit("bam");
        reveal_strlit("bam.gz");
        assert("bam"@[0] != "fa"@[0]);
        assert("bam"@[0] != "fasta"@[0]);
        assert("bam"@[0] != "fa.gz"@[0]);
        assert("bam"@[0] != "fasta.gz"@[0]);
        assert("bam.gz"@[0] != "fa"@[0]);
        assert("bam.gz"@[0] != "fasta"@[0]);
        assert("bam.gz"@[0] != "fa.gz"@[0]);
        assert("bam.gz"@[0] != "fasta.gz"@[0]);
    }
    let e = ext.to_owned();
    if e == String::from_str("fa") || e == String::from_str("fasta") || e == String::from_str("fa.gz")
        || e == String::from_str("fasta.gz") {
        InputKind::Fasta
    } else if e == String::from_str("bam") || e == String::from_str("bam.gz") {
        InputKind::Alignments
    } else {
        InputKind::Other
    }
}

/// How many files are of kind `k`.
pub open spec fn kind_count(kinds: Seq<InputKind>, k: InputKind) -> nat
    decreases kinds.len(),
{
    if kinds.len() == 0 {
        0
    } else {
        kind_count(kinds.drop_last(), k) + if kinds.last() == k {
            1nat
        } else {
            0nat
        }
    }
}

/// Picks the reference and the alignment file among files of the given kinds:
/// their indices when there is exactly one of each, else nothing.
pub fn pick_inputs(kinds: &Vec<InputKind>) -> (r: Option<(usize, usize)>)
    ensures
        kind_count(kinds@, InputKind::Fasta) == 1 && kind_count(kinds@, InputKind::Alignments) == 1
            <==> r is Some,
        r matches Some((f, b)) ==> f < kinds.len() && b < kinds.len() && kinds@[f as int]
            == InputKind::Fasta && kinds@[b as int] == InputKind::Alignments,
{
    let mut fasta: Option<usize> = None;
    let mut bam: Option<usize> = None;
    let mut nf: usize = 0;
    let mut nb: usize = 0;
    let mut i: usize = 0;
    while i < kinds.len()
        invariant
            i <= kinds.len(),
            nf == kind_count(kinds@.take(i as int), InputKind::Fasta),
            nb == kind_count(kinds@.take(i as int), InputKind::Alignments),
            nf <= i,
            nb <= i,
            nf > 0 <==> fasta is Some,
            nb > 0 <==> bam is Some,
            fasta matches Some(f) ==> f < kinds.len() && kinds@[f as int] == InputKind::Fasta,
            bam matches Some(b) ==> b < kinds.len() && kinds@[b as int] == InputKind::Alignments,
        decreases kinds.len() - i,
    {
        proof {
            let t = kinds@.take(i + 1);
            assert(t.drop_last() =~= kinds@.take(i as int));
            assert(t.last() == kinds@[i as int]);
        }
        match kinds[i] {
            InputKind::Fasta => {
                nf = nf + 1;
                fasta = Some(i);
            },
            InputKind::Alignments => {
                nb = nb + 1;
                bam = Some(i);
            },
            InputKind::Other => {},
        }
        i = i + 1;
    }
    assert(kinds@.take(kinds.len() as int) =~= kinds@);
    if nf == 1 && nb == 1 {
        match (fasta, bam) {
            (Some(f), Some(b)) => Some((f, b)),
            _ => None,
        }
    } else {
        None
    }
}

} // verus!
