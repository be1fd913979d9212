use alignoth::{AuxRecord, PlotCigar, PlotOrder, Read};
use rand::rngs::StdRng;
use rand::seq::IteratorRandom;
use rand::SeedableRng;

fn read(name: &str, position: i64, end_position: i64, mpos: i64) -> Read {
    Read {
        name: name.to_string(),
        cigar: PlotCigar(vec![]),
        position,
        flags: 0,
        mapq: 0,
        row: None,
        end_position,
        mpos,
        aux: AuxRecord(vec![]),
        raw_cigar: "100M".to_string(),
    }
}

#[test]
fn test_read_ordering() {
    let read1 = Read {
        name: "read1".to_string(),
        cigar: PlotCigar(vec![]),
        position: 20,
        flags: 0,
        mapq: 0,
        row: None,
        end_position: 120,
        mpos: 100,
        aux: AuxRecord(vec![]),
        raw_cigar: "100M".to_string(),
    };

    let read2 = Read {
        name: "read2".to_string(),
        cigar: PlotCigar(vec![]),
        position: 40,
        flags: 0,
        mapq: 0,
        row: None,
        end_position: 140,
        mpos: 120,
        aux: AuxRecord(vec![]),
        raw_cigar: "100M".to_string(),
    };

    let mut reads = vec![read1, read2];
    reads.order(100);
    assert_ne!(reads.first().unwrap().row, reads.last().unwrap().row);
}

#[test]
fn test_read_ordering_with_max_read_depth() {
    let read1 = Read {
        name: "read1".to_string(),
        cigar: PlotCigar(vec![]),
        position: 20,
        flags: 0,
        mapq: 0,
        row: None,
        end_position: 120,
        mpos: 100,
        aux: AuxRecord(vec![]),
        raw_cigar: "100M".to_string(),
    };

    let read2 = Read {
        name: "read2".to_string(),
        cigar: PlotCigar(vec![]),
        position: 40,
        flags: 0,
        mapq: 0,
        row: None,
        end_position: 140,
        mpos: 120,
        aux: AuxRecord(vec![]),
        raw_cigar: "100M".to_string(),
    };

    let read3 = Read {
        name: "read3".to_string(),
        cigar: PlotCigar(vec![]),
        position: 50,
        flags: 0,
        mapq: 0,
        row: None,
        end_position: 150,
        mpos: 140,
        aux: AuxRecord(vec![]),
        raw_cigar: "100M".to_string(),
    };

    let mut reads = vec![read1, read2, read3];
    reads.order(2);
    assert_eq!(reads.len(), 2);
}

#[test]
fn overlapping_unpaired_reads_get_different_rows() {
    let mut reads = vec![read("a", 20, 120, -1), read("b", 40, 140, -1)];
    reads.order(100);
    assert_eq!(reads[0].row, Some(1));
    assert_eq!(reads[1].row, Some(2));
}

#[test]
fn rows_are_reused_after_the_gap() {
    // 126 > 120 + 5, so the third read goes back to row 1; 125 would not.
    let mut reads = vec![
        read("a", 20, 120, -1),
        read("b", 40, 140, -1),
        read("c", 126, 200, -1),
        read("d", 145, 220, -1),
    ];
    reads.order(100);
    let rows: Vec<Option<u32>> = reads.iter().map(|r| r.row).collect();
    assert_eq!(rows, vec![Some(1), Some(2), Some(1), Some(3)]);
}

#[test]
fn mates_share_a_row() {
    let mut reads = vec![
        read("pair", 10, 60, 300),
        read("other", 100, 150, -1),
        read("pair", 300, 350, 10),
    ];
    reads.order(100);
    assert_eq!(reads[0].row, Some(1));
    assert_eq!(reads[1].row, Some(2));
    assert_eq!(reads[2].row, Some(1));
}

#[test]
fn layout_is_reproducible() {
    let make = || {
        (0..40)
            .map(|i| read(&format!("r{i}"), i, i + 100, -1))
            .collect::<Vec<Read>>()
    };
    let mut first = make();
    let mut second = make();
    first.order(7);
    second.order(7);
    let rows_first: Vec<(String, Option<u32>)> =
        first.iter().map(|r| (r.name.clone(), r.row)).collect();
    let rows_second: Vec<(String, Option<u32>)> =
        second.iter().map(|r| (r.name.clone(), r.row)).collect();
    assert_eq!(rows_first, rows_second);
}

#[test]
fn subsampling_keeps_at_most_max_rows() {
    let mut reads: Vec<Read> = (0..40)
        .map(|i| read(&format!("r{i}"), i, i + 100, -1))
        .collect();
    reads.order(7);
    let mut rows: Vec<u32> = reads.iter().map(|r| r.row.unwrap()).collect();
    rows.sort();
    rows.dedup();
    assert_eq!(rows.len(), 7);
    assert!(rows.iter().all(|r| (1..=40).contains(r)));
    assert!(reads.len() == 7);
}

#[test]
fn no_subsampling_within_the_limit() {
    let mut reads: Vec<Read> = (0..10)
        .map(|i| read(&format!("r{i}"), i, i + 100, -1))
        .collect();
    reads.order(10);
    assert_eq!(reads.len(), 10);
    let mut empty: Vec<Read> = vec![];
    empty.order(0);
    assert!(empty.is_empty());
}

#[test]
fn subsampled_rows_are_the_seeded_sample() {
    let mut reads: Vec<Read> = (0..40)
        .map(|i| read(&format!("r{i}"), i, i + 100, -1))
        .collect();
    reads.order(7);
    let mut kept: Vec<u32> = reads.iter().map(|r| r.row.unwrap()).collect();
    kept.sort();
    let mut expected = (1..41u32).choose_multiple(&mut StdRng::seed_from_u64(42), 7);
    expected.sort();
    assert_eq!(kept, expected);
}
