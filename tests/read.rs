use alignoth::{AlignOp, AlignmentRecord, AuxRecord, EncodedRead, PlotCigar, Read, RecordError};
use std::str::FromStr;

fn sample_read(row: Option<u32>, aux: AuxRecord) -> Read {
    Read {
        name: "r1".to_string(),
        cigar: PlotCigar::from_str("3=|1T").unwrap(),
        position: 10,
        flags: 83,
        mapq: 60,
        row,
        end_position: 14,
        mpos: -1,
        aux,
        raw_cigar: "4M".to_string(),
    }
}

#[test]
fn test_empty_aux_record() {
    let aux_record = AuxRecord::new(None);
    let expected_aux_record = AuxRecord(vec![]);
    assert_eq!(aux_record, expected_aux_record);
}

#[test]
fn test_aux_record() {
    let aux_record = AuxRecord::new(Some(vec![("XI".to_string(), Some("1234".to_string()))]));
    let expected_aux_record = AuxRecord(vec![("XI".to_string(), "1234".to_string())]);
    assert_eq!(aux_record, expected_aux_record);
}

#[test]
fn test_aux_record_to_string() {
    let aux_record = AuxRecord::new(Some(vec![("XI".to_string(), Some("1234".to_string()))]));
    let aux_record_string = aux_record.to_string();
    let expected_aux_record_string = "XI: 1234".to_string();
    assert_eq!(aux_record_string, expected_aux_record_string);
}

#[test]
fn aux_record_marks_missing_tags_and_keeps_tags_unique() {
    let aux = AuxRecord::new(Some(vec![
        ("AS".to_string(), Some("7".to_string())),
        ("XX".to_string(), None),
        ("AS".to_string(), Some("8".to_string())),
    ]));
    assert_eq!(
        aux.0,
        vec![
            ("AS".to_string(), "8".to_string()),
            ("XX".to_string(), "None".to_string())
        ]
    );
    assert_eq!(aux.to_string(), "AS: 8, XX: None");
}

#[test]
fn encode_writes_fields_in_order() {
    let aux = AuxRecord::new(Some(vec![("XI".to_string(), Some("1 2".to_string()))]));
    let read = sample_read(None, aux);
    assert_eq!(read.encode(), "XI:_1_2 3=|1T 83 60 -1 r1 10 . 4M");
    let read = sample_read(Some(12), AuxRecord::default());
    assert_eq!(read.encode(), " 3=|1T 83 60 -1 r1 10 12 4M");
}

#[test]
fn encoded_reads_are_joined_by_section_sign() {
    let a = sample_read(Some(1), AuxRecord::default());
    let b = sample_read(Some(2), AuxRecord::default());
    let encoded = EncodedRead::from_reads(vec![a, b]);
    assert_eq!(
        encoded.values,
        " 3=|1T 83 60 -1 r1 10 1 4M§ 3=|1T 83 60 -1 r1 10 2 4M"
    );
    assert_eq!(EncodedRead::from_reads(vec![]).values, "");
}

#[test]
fn set_row_assigns_the_row() {
    let mut read = sample_read(None, AuxRecord::default());
    read.set_row(5);
    assert_eq!(read.row, Some(5));
}

fn record(cigar: Vec<AlignOp>, seq: &str, paired: bool) -> AlignmentRecord {
    AlignmentRecord {
        name: "q".to_string(),
        cigar,
        seq: seq.chars().collect(),
        pos: 100,
        reference_end: 104,
        flags: 99,
        mapq: 30,
        paired,
        mpos: 500,
        aux: AuxRecord::default(),
    }
}

#[test]
fn record_span_includes_soft_clips() {
    let rec = record(
        vec![
            AlignOp::HardClip(5),
            AlignOp::SoftClip(2),
            AlignOp::Match(4),
            AlignOp::SoftClip(3),
        ],
        "GGACGTTTT",
        true,
    );
    assert_eq!(rec.leading_softclips(), 2);
    assert_eq!(rec.trailing_softclips(), 3);
    assert_eq!(rec.displayed_span(), Some((98, 107)));
    assert_eq!(rec.cigar_string(), "5H2S4M3S");
    assert!(rec.has_unsupported_ops());
}

#[test]
fn read_from_record() {
    let rec = record(
        vec![AlignOp::SoftClip(2), AlignOp::Match(4), AlignOp::Ins(1), AlignOp::Match(1)],
        "GGACGTCA",
        false,
    );
    assert!(!rec.has_unsupported_ops());
    // reference under [98, 105)
    let reference: Vec<char> = "GGACTTA".chars().collect();
    let read = Read::from_record(rec, &reference).unwrap();
    assert_eq!(read.position, 98);
    assert_eq!(read.end_position, 104);
    assert_eq!(read.mpos, -1);
    assert_eq!(read.row, None);
    assert_eq!(read.raw_cigar, "2S4M1I1M");
    assert_eq!(read.cigar.to_string(), "2=|2=|1G|1=|iC|1=");
}

#[test]
fn read_from_record_reports_short_sequences() {
    let rec = record(vec![AlignOp::Match(4)], "ACG", true);
    assert_eq!(
        Read::from_record(rec, &vec!['A'; 4]).err(),
        Some(RecordError::ReadTooShort)
    );
    let rec = record(vec![AlignOp::Match(4)], "ACGT", true);
    assert_eq!(
        Read::from_record(rec, &vec!['A'; 3]).err(),
        Some(RecordError::ReferenceTooShort)
    );
    let rec = record(vec![AlignOp::Match(4)], "ACGT", true);
    let read = Read::from_record(rec, &vec!['A'; 4]).unwrap();
    assert_eq!(read.mpos, 500);
}

#[test]
fn read_from_record_reports_span_out_of_range() {
    let mut rec = record(vec![AlignOp::SoftClip(2), AlignOp::Match(2)], "ACGT", false);
    rec.pos = i64::MIN + 1;
    assert_eq!(rec.displayed_span(), None);
    assert_eq!(
        Read::from_record(rec, &vec!['A'; 4]).err(),
        Some(RecordError::SpanOutOfRange)
    );
}
