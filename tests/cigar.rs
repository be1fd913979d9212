use alignoth::{match_bases, AlignOp, CigarParseError, EditOp, PlotCigar};
use std::str::FromStr;

#[test]
fn test_plot_cigar_string_serialization() {
    let plot_cigar = PlotCigar(vec![
        EditOp::Match { length: 50 },
        EditOp::Del { length: 3 },
        EditOp::Match { length: 10 },
        EditOp::Sub { length: 1, base: 'C' },
        EditOp::Sub { length: 1, base: 'G' },
        EditOp::Ins {
            bases: vec!['G', 'G', 'T'],
        },
    ]);
    let expected_string = "50=|3d|10=|1C|1G|iGGT".to_string();
    assert_eq!(plot_cigar.to_string(), expected_string);
}

#[test]
fn test_matching_bases() {
    let reference = vec!['A', 'A', 'G', 'C', 'T', 'A'];
    let read = vec!['A', 'A', 'G', 'C', 'C', 'A'];
    let inner_plot_cigars = match_bases(&read, &reference);
    let expected_inner_plot_cigars = vec![
        EditOp::Match { length: 4 },
        EditOp::Sub { length: 1, base: 'C' },
        EditOp::Match { length: 1 },
    ];
    assert_eq!(inner_plot_cigars, expected_inner_plot_cigars)
}

#[test]
fn test_plot_cigar_match() {
    let cigar_string = vec![AlignOp::Match(10)];
    let reference = vec!['A', 'A', 'G', 'C', 'T', 'A', 'T', 'A', 'T', 'A'];
    let read = vec!['A', 'A', 'G', 'C', 'C', 'A', 'T', 'A', 'T', 'A'];
    let cigar = PlotCigar::from_cigar(&cigar_string, &read, &reference);
    let expected_cigar = PlotCigar(vec![
        EditOp::Match { length: 4 },
        EditOp::Sub { length: 1, base: 'C' },
        EditOp::Match { length: 5 },
    ]);
    assert_eq!(cigar, expected_cigar);
}

#[test]
fn test_plot_cigar_insertion() {
    let cigar_string = vec![AlignOp::Match(2), AlignOp::Ins(1), AlignOp::Match(2)];
    let reference = vec!['A', 'A', 'G', 'C'];
    let read = vec!['A', 'A', 'A', 'G', 'C'];
    let cigar = PlotCigar::from_cigar(&cigar_string, &read, &reference);
    let expected_cigar = PlotCigar(vec![
        EditOp::Match { length: 2 },
        EditOp::Ins { bases: vec!['A'] },
        EditOp::Match { length: 2 },
    ]);
    assert_eq!(cigar, expected_cigar);
}

#[test]
fn test_plot_cigar_deletion() {
    let cigar_string = vec![AlignOp::Match(2), AlignOp::Del(2), AlignOp::Match(2)];
    let reference = vec!['A', 'A', 'A', 'A', 'G', 'C'];
    let read = vec!['A', 'A', 'G', 'C'];
    let cigar = PlotCigar::from_cigar(&cigar_string, &read, &reference);
    let expected_cigar = PlotCigar(vec![
        EditOp::Match { length: 2 },
        EditOp::Del { length: 2 },
        EditOp::Match { length: 2 },
    ]);
    assert_eq!(cigar, expected_cigar);
}

#[test]
fn test_plot_cigar_from_str() {
    let plot_cigar = PlotCigar::from_str("16=|iAA|1T|1d").unwrap();
    let expected_plot_cigar = PlotCigar(vec![
        EditOp::Match { length: 16 },
        EditOp::Ins {
            bases: vec!['A', 'A'],
        },
        EditOp::Sub { length: 1, base: 'T' },
        EditOp::Del { length: 1 },
    ]);
    assert_eq!(plot_cigar, expected_plot_cigar);
}

#[test]
fn diff_of_single_match_with_one_substitution() {
    let reference: Vec<char> = "AAGCTA".chars().collect();
    let read: Vec<char> = "AAGCCA".chars().collect();
    let cigar = PlotCigar::from_cigar(&vec![AlignOp::Match(6)], &read, &reference);
    assert_eq!(
        cigar,
        PlotCigar(vec![
            EditOp::Match { length: 4 },
            EditOp::Sub { length: 1, base: 'C' },
            EditOp::Match { length: 1 },
        ])
    );
    assert_eq!(cigar.to_string(), "4=|1C|1=");
}

#[test]
fn diff_splits_substitution_runs_by_base_and_operation() {
    let reference: Vec<char> = "AAAAAAAA".chars().collect();
    let read: Vec<char> = "CCGAATTA".chars().collect();
    let cigar = PlotCigar::from_cigar(
        &vec![AlignOp::SoftClip(2), AlignOp::Match(6)],
        &read,
        &reference,
    );
    assert_eq!(cigar.to_string(), "2C|1G|2=|2T|1=");
}

#[test]
fn diff_ignores_unrendered_operations() {
    let reference: Vec<char> = "ACGT".chars().collect();
    let read: Vec<char> = "ACGT".chars().collect();
    let cigar = PlotCigar::from_cigar(
        &vec![
            AlignOp::HardClip(3),
            AlignOp::Match(2),
            AlignOp::RefSkip(10),
            AlignOp::Match(2),
            AlignOp::Pad(1),
        ],
        &read,
        &reference,
    );
    assert_eq!(cigar.to_string(), "2=|2=");
}

#[test]
fn cigar_text_round_trip() {
    for text in ["16=|iAA|80=|1T|1=", "50=|3d|10=|1C|1G|iGGT", "0=", "i", "", "4294967295d"] {
        let parsed = PlotCigar::from_str(text).unwrap();
        assert_eq!(parsed.to_string(), text);
    }
}

#[test]
fn cigar_text_errors_name_the_piece() {
    assert_eq!(
        PlotCigar::from_str("16=|x=|1d"),
        Err(CigarParseError::InvalidEdit(1))
    );
    assert_eq!(
        PlotCigar::from_str("4294967296="),
        Err(CigarParseError::InvalidEdit(0))
    );
    assert_eq!(PlotCigar::from_str("1=|"), Err(CigarParseError::InvalidEdit(1)));
    assert_eq!(PlotCigar::from_str("T"), Err(CigarParseError::InvalidEdit(0)));
}
