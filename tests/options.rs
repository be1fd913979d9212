use alignoth::highlight::{BedHighlight, VcfHighlight};
use alignoth::options::{check_inputs, check_region_choice, input_kind, pick_inputs, InputKind, OptionsError};
use alignoth::Region;
use std::path::PathBuf;

#[test]
fn region_choice_rules() {
    assert_eq!(check_region_choice(true, true, false), Err(OptionsError::RegionAndAround));
    assert_eq!(check_region_choice(false, false, false), Err(OptionsError::NoRegion));
    assert_eq!(check_region_choice(true, false, false), Ok(()));
    assert_eq!(check_region_choice(false, true, false), Ok(()));
    assert_eq!(check_region_choice(true, true, true), Ok(()));
    assert_eq!(check_inputs(false, true), Err(OptionsError::MissingAlignments));
    assert_eq!(check_inputs(true, false), Err(OptionsError::MissingReference));
    assert_eq!(check_inputs(true, true), Ok(()));
}

#[test]
fn input_files_are_picked_by_extension() {
    assert_eq!(input_kind("fa"), InputKind::Fasta);
    assert_eq!(input_kind("fasta.gz"), InputKind::Fasta);
    assert_eq!(input_kind("bam"), InputKind::Alignments);
    assert_eq!(input_kind("bam.gz"), InputKind::Alignments);
    assert_eq!(input_kind("vcf"), InputKind::Other);
    let kinds = vec![InputKind::Other, InputKind::Alignments, InputKind::Fasta];
    assert_eq!(pick_inputs(&kinds), Some((2, 1)));
    let two = vec![InputKind::Fasta, InputKind::Alignments, InputKind::Fasta];
    assert_eq!(pick_inputs(&two), None);
    assert_eq!(pick_inputs(&vec![]), None);
}

#[test]
fn highlight_spans_and_names() {
    let region = Region::from_str("1:200-300").unwrap();
    assert_eq!(VcfHighlight::variant_span(&region, "1", 257, 1), Some((257, 258)));
    assert_eq!(VcfHighlight::variant_span(&region, "1", 190, 1), None);
    assert_eq!(VcfHighlight::variant_name("1", 257, "A", "G"), "1:257A>G");
    assert_eq!(BedHighlight::record_span(&region, "1", 260, 300), Some((260, 300)));
    assert_eq!(BedHighlight::record_span(&region, "2", 260, 300), None);
    assert_eq!(BedHighlight::record_name("1", 260, 300), "1:260-300");
    let vcf = VcfHighlight::new(PathBuf::from("a.vcf"));
    assert_eq!(vcf.path, PathBuf::from("a.vcf"));
    let bed = BedHighlight::new(PathBuf::from("a.bed"));
    assert_eq!(bed.path, PathBuf::from("a.bed"));
}
