use alignoth::{create_plot_data, AuxRecord, Coverage, PlotCigar, Read, Region};
use std::str::FromStr;

fn read_with(name: &str, cigar: &str, position: i64, end_position: i64) -> Read {
    Read {
        name: name.to_string(),
        cigar: PlotCigar::from_str(cigar).unwrap(),
        position,
        end_position,
        flags: 0,
        mapq: 60,
        row: None,
        mpos: -1,
        aux: Default::default(),
        raw_cigar: cigar.to_string(),
    }
}

#[test]
fn test_coverage_from_reads_basic_overlap() {
    // Create two reads, with overlapping positions
    let reads = vec![
        Read {
            name: "read1".to_string(),
            cigar: "5=".parse().unwrap(), // 5 matches
            position: 5,
            end_position: 10,
            flags: 0,
            mapq: 60,
            row: None,
            mpos: -1,
            aux: Default::default(),
            raw_cigar: "5=".to_string(),
        },
        Read {
            name: "read2".to_string(),
            cigar: "5=".parse().unwrap(),
            position: 7,
            end_position: 12,
            flags: 0,
            mapq: 60,
            row: None,
            mpos: -1,
            aux: Default::default(),
            raw_cigar: "5=".to_string(),
        },
        Read {
            name: "outside".to_string(),
            cigar: "5=".parse().unwrap(),
            position: 20,
            end_position: 25,
            flags: 0,
            mapq: 60,
            row: None,
            mpos: -1,
            aux: Default::default(),
            raw_cigar: "5=".to_string(),
        },
    ];

    let region = Region {
        target: "chr1".to_owned(),
        start: 5,
        end: 15,
    };

    let coverage = Coverage::from_reads(&reads, &region);

    let expected = Coverage {
        coverage: String::from("0|0|0|0|1§0|0|0|0|1§0|0|0|0|2§0|0|0|0|2§0|0|0|0|2§0|0|0|0|1§0|0|0|0|1§0|0|0|0|0§0|0|0|0|0§0|0|0|0|0"),
        start: 5,
    };
    assert_eq!(coverage.coverage, expected.coverage);
    assert_eq!(coverage.start, 5);
}

#[test]
fn coverage_counts_substitutions_by_base_and_skips_deletions() {
    let reads = vec![read_with("r", "2=|1A|1T|1G|1C|1N|2d|iGG|1=", 0, 10)];
    let region = Region {
        target: "chr1".to_string(),
        start: 0,
        end: 10,
    };
    let coverage = Coverage::from_reads(&reads, &region);
    assert_eq!(
        coverage.coverage,
        "0|0|0|0|1§0|0|0|0|1§1|0|0|0|0§0|1|0|0|0§0|0|1|0|0§0|0|0|1|0§0|0|0|0|1§0|0|0|0|0§0|0|0|0|0§0|0|0|0|1"
    );
}

#[test]
fn coverage_is_clipped_to_the_region() {
    let reads = vec![read_with("r", "10=", 0, 10)];
    let region = Region {
        target: "chr1".to_string(),
        start: 8,
        end: 12,
    };
    let coverage = Coverage::from_reads(&reads, &region);
    assert_eq!(coverage.coverage, "0|0|0|0|1§0|0|0|0|1§0|0|0|0|0§0|0|0|0|0");
    assert_eq!(coverage.start, 8);
}

#[test]
fn coverage_of_an_empty_or_inverted_region_is_empty() {
    let reads = vec![read_with("r", "10=", 0, 10)];
    let empty = Region {
        target: "chr1".to_string(),
        start: 5,
        end: 5,
    };
    assert_eq!(Coverage::from_reads(&reads, &empty).coverage, "");
    let inverted = Region {
        target: "chr1".to_string(),
        start: 9,
        end: 3,
    };
    assert_eq!(Coverage::from_reads(&reads, &inverted).coverage, "");
    assert_eq!(Coverage::from_reads(&vec![], &empty).start, 5);
}

#[test]
fn match_counts_of_disjoint_reads_add_up_to_their_lengths() {
    let reads = vec![
        read_with("a", "4=", 2, 6),
        read_with("b", "3=", 6, 9),
        read_with("c", "5=", 12, 17),
    ];
    let region = Region {
        target: "chr1".to_string(),
        start: 0,
        end: 15,
    };
    let coverage = Coverage::from_reads(&reads, &region);
    let total: usize = coverage
        .coverage
        .split('§')
        .map(|p| p.split('|').nth(4).unwrap().parse::<usize>().unwrap())
        .sum();
    // 4 + 3 + the 3 bases of c inside the region
    assert_eq!(total, 10);
}

#[test]
fn end_to_end_scenario() {
    let region = Region {
        target: "chr1".to_string(),
        start: 0,
        end: 20,
    };
    let reference: Vec<char> = "TTGCCGGGGTGGGGAGAGAG".chars().collect();
    let reads = vec![Read {
        name: "sim_Som1-5-2_chr1_1_1acd6f".to_string(),
        cigar: PlotCigar::from_str("16=|iAA|80=|1T|1=").unwrap(),
        position: 4,
        flags: 99,
        mapq: 30,
        row: None,
        end_position: 106,
        mpos: 789264,
        aux: AuxRecord(vec![]),
        raw_cigar: "16M2I82M".to_string(),
    }];
    let data = create_plot_data(reads, &reference, &region, 100);
    assert_eq!(data.total_reads, 1);
    assert_eq!(data.retained_reads, 1);
    assert_eq!(data.reference.start, 0);
    assert_eq!(data.reference.reference, "TTGCCGGGGTGGGGAGAGAG");
    assert_eq!(
        data.reads[0].values,
        " 16=|iAA|80=|1T|1= 99 30 789264 sim_Som1-5-2_chr1_1_1acd6f 4 1 16M2I82M"
    );
    assert_eq!(data.coverage.start, 0);
    assert_eq!(
        data.coverage.coverage,
        "0|0|0|0|0§0|0|0|0|0§0|0|0|0|0§0|0|0|0|0§0|0|0|0|1§0|0|0|0|1§0|0|0|0|1§0|0|0|0|1§0|0|0|0|1§0|0|0|0|1§0|0|0|0|1§0|0|0|0|1§0|0|0|0|1§0|0|0|0|1§0|0|0|0|1§0|0|0|0|1§0|0|0|0|1§0|0|0|0|1§0|0|0|0|1§0|0|0|0|1"
    );
    assert_eq!(data.coverage.coverage.split('§').count(), 20);
}
