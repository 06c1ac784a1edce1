use bed2gtf::bed::BedRecord;
use bed2gtf::codon::Codon;
use bed2gtf::gtf::{is_convertible, to_gtf, ConvertError};
use bed2gtf::lines::{
    build_gene_line, build_gtf_line, push_row, write_codon, write_features, Row,
};
use bed2gtf::table::Table;
use bed2gtf::utils::parallel_hash_rev;

fn record(strand: &str, cds: (u32, u32), exons: &[(u32, u32)]) -> BedRecord {
    BedRecord {
        chrom: "chr1".to_string(),
        tx_start: exons[0].0,
        tx_end: exons[exons.len() - 1].1,
        name: "tx".to_string(),
        strand: strand.to_string(),
        cds_start: cds.0,
        cds_end: cds.1,
        exon_count: exons.len() as u16,
        exon_start: exons.iter().map(|e| e.0).collect(),
        exon_end: exons.iter().map(|e| e.1).collect(),
    }
}

fn row(
    chrom: &str,
    kind: &str,
    start: u32,
    end: u32,
    strand: &str,
    phase: &str,
    attr: &str,
) -> Row {
    (
        chrom.to_string(),
        kind.to_string(),
        start,
        end,
        strand.to_string(),
        phase.to_string(),
        attr.to_string(),
    )
}

fn kinds(rows: &[Row]) -> Vec<&str> {
    rows.iter().map(|r| r.1.as_str()).collect()
}

const PLAIN: &str = "gene_id \"g\"; transcript_id \"tx\";";

#[test]
fn build_gtf_line_writes_a_row_without_exon() {
    let r = record("+", (100, 100), &[(100, 200)]);
    let mut rows = Vec::new();
    build_gtf_line(&r, &"g".to_string(), "transcript", 100, 200, 3, -1, &mut rows);
    assert_eq!(rows, vec![row("chr1", "transcript", 101, 200, "+", ".", PLAIN)]);
}

#[test]
fn build_gtf_line_numbers_exons_along_the_forward_strand() {
    let r = record("+", (100, 100), &[(100, 200), (300, 400), (500, 600)]);
    let mut rows = Vec::new();
    build_gtf_line(&r, &"g".to_string(), "exon", 100, 200, 3, 0, &mut rows);
    build_gtf_line(&r, &"g".to_string(), "exon", 500, 600, 3, 2, &mut rows);
    assert_eq!(
        rows,
        vec![
            row(
                "chr1",
                "exon",
                101,
                200,
                "+",
                ".",
                "gene_id \"g\"; transcript_id \"tx\"; exon_number \"1\"; exon_id \"tx.1\";"
            ),
            row(
                "chr1",
                "exon",
                501,
                600,
                "+",
                ".",
                "gene_id \"g\"; transcript_id \"tx\"; exon_number \"3\"; exon_id \"tx.3\";"
            ),
        ]
    );
}

#[test]
fn build_gtf_line_numbers_exons_along_the_reverse_strand() {
    let r = record("-", (100, 100), &[(100, 200), (300, 400), (500, 600)]);
    let mut rows = Vec::new();
    build_gtf_line(&r, &"g".to_string(), "exon", 100, 200, 3, 0, &mut rows);
    build_gtf_line(&r, &"g".to_string(), "exon", 500, 600, 3, 2, &mut rows);
    assert_eq!(
        rows[0].6,
        "gene_id \"g\"; transcript_id \"tx\"; exon_number \"3\"; exon_id \"tx.3\";"
    );
    assert_eq!(
        rows[1].6,
        "gene_id \"g\"; transcript_id \"tx\"; exon_number \"1\"; exon_id \"tx.1\";"
    );
}

#[test]
fn phase_is_the_frame_turned_round() {
    let r = record("+", (100, 100), &[(100, 200)]);
    let mut rows = Vec::new();
    for frame in [0u32, 1, 2, 3, u32::MAX] {
        build_gtf_line(&r, &"g".to_string(), "CDS", 100, 200, frame, -1, &mut rows);
    }
    let phases: Vec<&str> = rows.iter().map(|r| r.5.as_str()).collect();
    assert_eq!(phases, vec!["0", "2", "1", ".", "."]);
}

#[test]
fn push_row_numbers_beyond_sixteen_signed_bits() {
    let mut r = record("+", (100, 100), &[(100, 200)]);
    r.exon_count = 50000;
    let mut rows = Vec::new();
    push_row(&r, "g", "exon", 100, 200, 3, Some(40000), &mut rows);
    assert_eq!(
        rows[0].6,
        "gene_id \"g\"; transcript_id \"tx\"; exon_number \"40001\"; exon_id \"tx.40001\";"
    );
}

#[test]
fn write_features_writes_what_lies_in_an_exon() {
    let r = record("+", (150, 350), &[(100, 200), (300, 400)]);
    let mut rows = Vec::new();
    write_features(0, &r, &"g".to_string(), 150, 350, 0, &mut rows);
    write_features(1, &r, &"g".to_string(), 150, 350, 2, &mut rows);
    assert_eq!(
        rows,
        vec![
            row("chr1", "five_prime_utr", 101, 150, "+", "0", PLAIN),
            row(
                "chr1",
                "CDS",
                151,
                200,
                "+",
                "0",
                "gene_id \"g\"; transcript_id \"tx\"; exon_number \"1\"; exon_id \"tx.1\";"
            ),
            row(
                "chr1",
                "CDS",
                301,
                350,
                "+",
                "1",
                "gene_id \"g\"; transcript_id \"tx\"; exon_number \"2\"; exon_id \"tx.2\";"
            ),
            row("chr1", "three_prime_utr", 351, 400, "+", "1", PLAIN),
        ]
    );
}

#[test]
fn write_features_names_the_ends_by_strand() {
    let r = record("-", (150, 350), &[(100, 200), (300, 400)]);
    let mut rows = Vec::new();
    write_features(0, &r, &"g".to_string(), 150, 350, 0, &mut rows);
    write_features(1, &r, &"g".to_string(), 150, 350, 0, &mut rows);
    assert_eq!(kinds(&rows), vec!["three_prime_utr", "CDS", "CDS", "five_prime_utr"]);
}

#[test]
fn write_features_cuts_the_coding_row_to_the_given_span() {
    let r = record("+", (100, 200), &[(100, 200)]);
    let mut rows = Vec::new();
    write_features(0, &r, &"g".to_string(), 100, 197, 0, &mut rows);
    assert_eq!(rows.len(), 1);
    assert_eq!((rows[0].1.as_str(), rows[0].2, rows[0].3), ("CDS", 101, 197));
}

#[test]
fn write_codon_writes_one_row_for_each_piece() {
    let r = record("+", (108, 210), &[(100, 110), (200, 240)]);
    let mut rows = Vec::new();
    let whole = Codon { start: 100, end: 103, index: 0, start2: 0, end2: 0 };
    let split = Codon { start: 108, end: 110, index: 0, start2: 200, end2: 201 };
    write_codon(&r, &"g".to_string(), "start_codon", whole, &mut rows);
    write_codon(&r, &"g".to_string(), "start_codon", split, &mut rows);
    assert_eq!(
        rows,
        vec![
            row("chr1", "start_codon", 101, 103, "+", "0", PLAIN),
            row("chr1", "start_codon", 109, 110, "+", "0", PLAIN),
            row("chr1", "start_codon", 201, 201, "+", "1", PLAIN),
        ]
    );
}

#[test]
fn build_gene_line_writes_the_span_of_the_gene() {
    let r = record("-", (100, 100), &[(100, 200)]);
    let mut coords: Table<(u32, u32)> = Table::new();
    coords.insert("other".to_string(), (1, 2));
    coords.insert("g".to_string(), (50, 500));
    assert_eq!(
        build_gene_line(&"g".to_string(), &r, &coords),
        "chr1\tbed2gtf\tgene\t51\t500\t.\t-\t.\tgene_id \"g\";"
    );
}

#[test]
fn single_coding_exon_gives_seven_rows() {
    let r = record("+", (103, 196), &[(100, 199)]);
    let rows = to_gtf(&r, &Table::new()).unwrap();
    let own = "gene_id \"tx\"; transcript_id \"tx\";";
    let in_exon = "gene_id \"tx\"; transcript_id \"tx\"; exon_number \"1\"; exon_id \"tx.1\";";
    assert_eq!(
        rows,
        vec![
            row("chr1", "transcript", 101, 199, "+", ".", own),
            row("chr1", "exon", 101, 199, "+", ".", in_exon),
            row("chr1", "five_prime_utr", 101, 103, "+", "0", own),
            row("chr1", "CDS", 104, 193, "+", "0", in_exon),
            row("chr1", "three_prime_utr", 197, 199, "+", "0", own),
            row("chr1", "start_codon", 104, 106, "+", "0", own),
            row("chr1", "stop_codon", 194, 196, "+", "0", own),
        ]
    );
}

#[test]
fn known_transcript_gives_its_coding_row_and_start_codon() {
    let line =
        "chr15\t81000922\t81005788\tENST00000267984\t0\t+\t81002271\t81003360\t0\t1\t4866,\t0,";
    let record = BedRecord::parse(line).unwrap();
    let isoforms = parallel_hash_rev("ENSG00000140406\tENST00000267984");
    let rows = to_gtf(&record, &isoforms).unwrap();
    let cds: Vec<&Row> = rows.iter().filter(|r| r.1 == "CDS").collect();
    let start: Vec<&Row> = rows.iter().filter(|r| r.1 == "start_codon").collect();
    assert_eq!(cds.len(), 1);
    assert_eq!(cds[0].2, 81002272);
    assert_eq!(cds[0].3, 81003357);
    assert_eq!(start.len(), 1);
    assert_eq!((start[0].2, start[0].3), (81002272, 81002274));
    assert_eq!(
        cds[0].6,
        "gene_id \"ENSG00000140406\"; transcript_id \"ENST00000267984\"; exon_number \"1\"; exon_id \"ENST00000267984.1\";"
    );
    assert_eq!(
        kinds(&rows),
        vec![
            "transcript",
            "exon",
            "five_prime_utr",
            "CDS",
            "three_prime_utr",
            "start_codon",
            "stop_codon"
        ]
    );
}

#[test]
fn reverse_strand_swaps_the_codons() {
    let r = record("-", (103, 196), &[(100, 199)]);
    let rows = to_gtf(&r, &Table::new()).unwrap();
    let seen: Vec<(&str, u32, u32)> = rows.iter().map(|r| (r.1.as_str(), r.2, r.3)).collect();
    assert_eq!(
        seen,
        vec![
            ("transcript", 101, 199),
            ("exon", 101, 199),
            ("three_prime_utr", 101, 103),
            ("CDS", 107, 196),
            ("five_prime_utr", 197, 199),
            ("start_codon", 194, 196),
            ("stop_codon", 104, 106),
        ]
    );
}

#[test]
fn split_stop_codon_shortens_the_coding_rows_across_the_intron() {
    // 7 + 2 coding bases; the stop codon lies on both sides of the intron.
    let r = record("+", (103, 202), &[(100, 110), (200, 240)]);
    let rows = to_gtf(&r, &Table::new()).unwrap();
    let seen: Vec<(&str, u32, u32, &str)> =
        rows.iter().map(|r| (r.1.as_str(), r.2, r.3, r.5.as_str())).collect();
    assert_eq!(
        seen,
        vec![
            ("transcript", 101, 240, "."),
            ("exon", 101, 110, "."),
            ("five_prime_utr", 101, 103, "0"),
            ("CDS", 104, 109, "0"),
            ("exon", 201, 240, "."),
            ("three_prime_utr", 203, 240, "2"),
            ("start_codon", 104, 106, "0"),
            ("stop_codon", 201, 202, "0"),
            ("stop_codon", 110, 110, "1"),
        ]
    );
}

#[test]
fn coding_span_of_one_codon_leaves_no_coding_rows() {
    let r = record("+", (109, 202), &[(100, 110), (200, 240)]);
    let rows = to_gtf(&r, &Table::new()).unwrap();
    let seen: Vec<(&str, u32, u32)> = rows.iter().map(|r| (r.1.as_str(), r.2, r.3)).collect();
    assert_eq!(
        seen,
        vec![
            ("transcript", 101, 240),
            ("exon", 101, 110),
            ("exon", 201, 240),
            ("stop_codon", 201, 202),
            ("stop_codon", 110, 110),
        ]
    );
}

#[test]
fn transcript_without_coding_span_has_only_its_exons() {
    let r = record("+", (100, 100), &[(100, 200), (300, 400)]);
    let rows = to_gtf(&r, &Table::new()).unwrap();
    assert_eq!(kinds(&rows), vec!["transcript", "exon", "exon"]);
}

#[test]
fn other_strands_number_backwards_and_keep_the_codon_roles() {
    let r = record(".", (103, 196), &[(100, 199)]);
    let rows = to_gtf(&r, &Table::new()).unwrap();
    let seen: Vec<(&str, u32, u32)> = rows.iter().map(|r| (r.1.as_str(), r.2, r.3)).collect();
    assert_eq!(
        seen,
        vec![
            ("transcript", 101, 199),
            ("exon", 101, 199),
            ("three_prime_utr", 101, 103),
            ("CDS", 104, 196),
            ("five_prime_utr", 197, 199),
            ("start_codon", 104, 106),
            ("stop_codon", 194, 196),
        ]
    );
}

#[test]
fn transcript_missing_from_the_isoforms_is_an_error() {
    let r = record("+", (103, 196), &[(100, 199)]);
    let isoforms = parallel_hash_rev("gene1 other");
    assert_eq!(to_gtf(&r, &isoforms), Err(ConvertError::MissingIsoform));
}

#[test]
fn malformed_record_is_an_error() {
    let mut r = record("+", (103, 196), &[(100, 199)]);
    r.exon_count = 2;
    assert!(!is_convertible(&r));
    assert_eq!(to_gtf(&r, &Table::new()), Err(ConvertError::MalformedRecord));
    let overlapping = record("+", (100, 100), &[(100, 200), (150, 300)]);
    assert_eq!(to_gtf(&overlapping, &Table::new()), Err(ConvertError::MalformedRecord));
    let mut at_the_limit = record("+", (10, 10), &[(10, 20), (u32::MAX, u32::MAX)]);
    at_the_limit.tx_end = u32::MAX;
    assert!(at_the_limit.is_valid());
    assert_eq!(to_gtf(&at_the_limit, &Table::new()), Err(ConvertError::MalformedRecord));
}

#[test]
fn record_without_exons_is_an_error() {
    let r = BedRecord {
        chrom: "chr1".to_string(),
        tx_start: 0,
        tx_end: 10,
        name: "tx".to_string(),
        strand: "+".to_string(),
        cds_start: 0,
        cds_end: 0,
        exon_count: 0,
        exon_start: vec![],
        exon_end: vec![],
    };
    assert_eq!(to_gtf(&r, &Table::new()), Err(ConvertError::NoCodonFound));
}

#[test]
fn errors_name_the_transcript() {
    assert_eq!(ConvertError::MalformedRecord.message("tx"), "Malformed record: tx");
    assert_eq!(
        ConvertError::MissingIsoform.message("tx"),
        "Gene not found in isoforms file: tx"
    );
    assert_eq!(ConvertError::NoCodonFound.message("tx"), "No codon found: tx");
    assert_eq!(
        ConvertError::PositionWalkFailure { pos: 5, dist: -3 }.message("tx"),
        "Position not reachable in exons: tx"
    );
}
