use bed2gtf::bed::BedRecord;
use bed2gtf::driver::{convert, convert_records};
use bed2gtf::error::ParseError;
use bed2gtf::gtf::ConvertError;
use bed2gtf::header::{comments, format_date, get_date, row_line};
use bed2gtf::lines::Row;
use bed2gtf::order::{belongs_before, compare_rows, sort_order, sort_rows};
use bed2gtf::table::Table;
use bed2gtf::text::{is_whitespace, line_ranges, push_decimal, push_signed_decimal};
use bed2gtf::utils::{
    combine_maps_par, custom_par_parse, gene_envelopes, gene_row_of, get_isoforms, parallel_hash,
    parallel_hash_rev, parallel_parse, parse_lines,
};

fn record(name: &str, chrom: &str, strand: &str, span: (u32, u32)) -> BedRecord {
    BedRecord {
        chrom: chrom.to_string(),
        tx_start: span.0,
        tx_end: span.1,
        name: name.to_string(),
        strand: strand.to_string(),
        cds_start: span.0,
        cds_end: span.0,
        exon_count: 1,
        exon_start: vec![span.0],
        exon_end: vec![span.1],
    }
}

fn at(chrom: &str, start: u32, tag: &str) -> Row {
    (
        chrom.to_string(),
        "exon".to_string(),
        start,
        start + 10,
        "+".to_string(),
        ".".to_string(),
        tag.to_string(),
    )
}

fn entries(t: &Table<String>) -> Vec<(String, String)> {
    (0..t.len()).map(|i| (t.key_at(i).clone(), t.value_at(i).clone())).collect()
}

fn pair(a: &str, b: &str) -> (String, String) {
    (a.to_string(), b.to_string())
}

#[test]
fn table_keeps_the_order_of_first_insertion() {
    let mut t: Table<u32> = Table::new();
    assert!(t.is_empty());
    t.insert("b".to_string(), 1);
    t.insert("a".to_string(), 2);
    t.insert("b".to_string(), 3);
    assert_eq!(t.len(), 2);
    assert!(!t.is_empty());
    assert_eq!(t.key_at(0), "b");
    assert_eq!(*t.value_at(0), 3);
    assert_eq!(t.key_at(1), "a");
    assert_eq!(t.get("a"), Some(&2));
    assert_eq!(t.get("c"), None);
    assert_eq!(t.position("a"), Some(1));
    assert_eq!(t.position("c"), None);
    t.set_value(1, 9);
    assert_eq!(t.get("a"), Some(&9));
}

#[test]
fn parallel_hash_maps_first_word_to_second() {
    let t = parallel_hash("g1 t1\ng2\tt2 extra\n\nlonely\n  g3   t3  \r\ng1 t9");
    assert_eq!(entries(&t), vec![pair("g1", "t9"), pair("g2", "t2"), pair("g3", "t3")]);
}

#[test]
fn parallel_hash_rev_maps_second_word_to_first() {
    let t = parallel_hash_rev("g1 t1\ng1 t2\ng2 t3\n");
    assert_eq!(entries(&t), vec![pair("t1", "g1"), pair("t2", "g1"), pair("t3", "g2")]);
    assert_eq!(t.get("t2"), Some(&"g1".to_string()));
}

#[test]
fn get_isoforms_needs_a_pair() {
    assert!(get_isoforms(&"".to_string()).is_none());
    assert!(get_isoforms(&"only\n\nwords\n".to_string()).is_none());
    let t = get_isoforms(&"gene tx\n".to_string()).unwrap();
    assert_eq!(entries(&t), vec![pair("tx", "gene")]);
}

#[test]
fn line_ranges_follow_line_feeds() {
    let cs: Vec<char> = "ab\r\ncd\n\nef\r".chars().collect();
    assert_eq!(line_ranges(&cs), vec![(0, 2), (4, 6), (7, 7), (8, 10)]);
    let cs: Vec<char> = "ab\n".chars().collect();
    assert_eq!(line_ranges(&cs), vec![(0, 2)]);
    let cs: Vec<char> = "".chars().collect();
    assert_eq!(line_ranges(&cs), Vec::<(usize, usize)>::new());
}

#[test]
fn whitespace_is_what_unicode_says() {
    for c in ['\t', '\n', '\u{b}', '\u{c}', '\r', ' ', '\u{85}', '\u{a0}', '\u{1680}', '\u{2000}',
        '\u{200a}', '\u{2028}', '\u{2029}', '\u{202f}', '\u{205f}', '\u{3000}']
    {
        assert!(is_whitespace(c));
    }
    for c in ['a', '0', '\u{8}', '\u{e}', '\u{200b}', '\u{feff}'] {
        assert!(!is_whitespace(c));
    }
    for code in 0..0x11000u32 {
        if let Some(c) = char::from_u32(code) {
            assert_eq!(is_whitespace(c), c.is_whitespace());
        }
    }
}

#[test]
fn parallel_parse_reads_every_line() {
    let text = "chr1\t10\t20\ta\t0\t+\t10\t10\t0\t1\t10\t0\r\nchr2\t30\t40\tb\t0\t-\t30\t30\t0\t1\t10,\t0,\n";
    let records = parallel_parse(text).unwrap();
    assert_eq!(records.len(), 2);
    assert_eq!(records[0].name, "a");
    assert_eq!(records[0].exon_end, vec![20]);
    assert_eq!(records[1].chrom, "chr2");
    assert_eq!(records[1].strand, "-");
    assert_eq!(parallel_parse("").unwrap().len(), 0);
}

#[test]
fn parallel_parse_stops_at_the_first_bad_line() {
    let text = "chr1\t10\t20\ta\t0\t+\t10\t10\t0\t1\t10\t0\nchr1\tx\t20\ta\t0\t+\t10\t10\t0\t1\t10\t0\n\n";
    assert_eq!(parallel_parse(text), Err("Cannot parse field".to_string()));
    let text = "chr1\t10\t20\ta\t0\t+\t10\t10\t0\t1\t10\t0\n\nchr1\tx\t20\ta\t0\t+\t10\t10\t0\t1\t10\t0\n";
    assert_eq!(
        parallel_parse(text),
        Err("Bed line has less than 12 fields and cannot be parsed into a BedRecord".to_string())
    );
}

#[test]
fn custom_par_parse_keeps_the_first_of_a_name() {
    let records = vec![
        record("t1", "chr1", "+", (100, 500)),
        record("t2", "chr1", "+", (50, 400)),
        record("t1", "chr9", "-", (1, 2)),
    ];
    let track = custom_par_parse(&records);
    assert_eq!(track.len(), 2);
    assert_eq!(track.get("t1"), Some(&("chr1".to_string(), 100, 500, "+".to_string())));
    assert_eq!(track.get("t2"), Some(&("chr1".to_string(), 50, 400, "+".to_string())));
}

#[test]
fn gene_row_spans_its_transcripts() {
    let records =
        vec![record("t1", "chr1", "+", (100, 500)), record("t2", "chr1", "+", (50, 400))];
    let isoforms = parallel_hash_rev("g t1\ng t2\n");
    let rows = combine_maps_par(&isoforms, &custom_par_parse(&records));
    assert_eq!(
        rows,
        vec![(
            "chr1".to_string(),
            "gene".to_string(),
            51,
            500,
            "+".to_string(),
            ".".to_string(),
            "gene_id \"g\";".to_string()
        )]
    );
}

#[test]
fn genes_come_in_the_order_of_the_isoform_table() {
    let records = vec![
        record("t1", "chr1", "+", (100, 500)),
        record("t2", "chr2", "-", (50, 400)),
        record("t3", "chr3", "-", (10, 900)),
    ];
    let isoforms = parallel_hash_rev("g2 t2\ng1 t1\ng0 absent\ng2 t3\n");
    let coords = gene_envelopes(&isoforms, &custom_par_parse(&records));
    assert_eq!(coords.len(), 2);
    assert_eq!(coords.key_at(0), "g2");
    assert_eq!(*coords.value_at(0), ("chr2".to_string(), 10, 900, "-".to_string()));
    assert_eq!(coords.key_at(1), "g1");
    assert_eq!(*coords.value_at(1), ("chr1".to_string(), 100, 500, "+".to_string()));
    let rows = combine_maps_par(&isoforms, &custom_par_parse(&records));
    let seen: Vec<(&str, u32, u32)> = rows.iter().map(|r| (r.0.as_str(), r.2, r.3)).collect();
    assert_eq!(seen, vec![("chr2", 11, 900), ("chr1", 101, 500)]);
}

#[test]
fn no_isoforms_no_genes() {
    let records = vec![record("t1", "chr1", "+", (100, 500))];
    let rows = combine_maps_par(&Table::new(), &custom_par_parse(&records));
    assert!(rows.is_empty());
}

#[test]
fn gene_row_of_counts_the_start_from_one() {
    let row = gene_row_of(&"g".to_string(), &("chrX".to_string(), 0, 7, "-".to_string()));
    assert_eq!(
        row,
        (
            "chrX".to_string(),
            "gene".to_string(),
            1,
            7,
            "-".to_string(),
            ".".to_string(),
            "gene_id \"g\";".to_string()
        )
    );
}

#[test]
fn compare_rows_orders_names_naturally() {
    assert_eq!(compare_rows(&at("chr2", 5, ""), &at("chr10", 1, "")), -1);
    assert_eq!(compare_rows(&at("chr10", 1, ""), &at("chr2", 5, "")), 1);
    assert_eq!(compare_rows(&at("chr2", 5, ""), &at("chr2", 5, "x")), 0);
    assert_eq!(compare_rows(&at("chr2", 5, ""), &at("chr2", 6, "")), -1);
    assert_eq!(compare_rows(&at("chr2", 7, ""), &at("chr2", 6, "")), 1);
    assert_eq!(compare_rows(&at("chrX", 7, ""), &at("chr22", 9, "")), 1);
}

#[test]
fn belongs_before_breaks_ties_by_place() {
    let rows = vec![at("chr1", 5, "a"), at("chr1", 5, "b"), at("chr1", 4, "c")];
    assert!(belongs_before(&rows, 0, 1));
    assert!(!belongs_before(&rows, 1, 0));
    assert!(belongs_before(&rows, 2, 0));
    assert!(!belongs_before(&rows, 0, 0));
}

#[test]
fn rows_are_sorted_by_name_then_start_and_ties_stay() {
    let rows = vec![
        at("chr10", 5, "a"),
        at("chr2", 9, "b"),
        at("chr1", 7, "c"),
        at("chr2", 3, "d"),
        at("chr2", 9, "e"),
        at("chr1", 7, "f"),
        at("chr2", 9, "g"),
        at("chrX", 1, "h"),
        at("chr1", 1, "i"),
    ];
    assert_eq!(sort_order(&rows), vec![8, 2, 5, 3, 1, 4, 6, 0, 7]);
    let sorted = sort_rows(&rows);
    let tags: Vec<&str> = sorted.iter().map(|r| r.6.as_str()).collect();
    assert_eq!(tags, vec!["i", "c", "f", "d", "b", "e", "g", "a", "h"]);
    assert_eq!(sort_rows(&Vec::new()), Vec::<Row>::new());
}

#[test]
fn long_inputs_are_sorted() {
    let mut rows = Vec::new();
    for i in 0..2000u32 {
        rows.push(at(&format!("chr{}", (i * 7) % 23), (i * 7919) % 1000, &format!("{}", i)));
    }
    let sorted = sort_rows(&rows);
    assert_eq!(sorted.len(), rows.len());
    for w in sorted.windows(2) {
        let c = compare_rows(&w[0], &w[1]);
        let i: u32 = w[0].6.parse().unwrap();
        let j: u32 = w[1].6.parse().unwrap();
        assert!(c < 0 || (c == 0 && i < j));
    }
}

#[test]
fn convert_puts_genes_and_transcripts_in_order() {
    let text = "chr2\t100\t500\tt1\t0\t+\t100\t100\t0\t1\t400\t0\nchr1\t50\t400\tt2\t0\t-\t50\t50\t0\t1\t350\t0\nchr2\t50\t400\tt3\t0\t+\t50\t50\t0\t1\t350\t0\n";
    let records = parallel_parse(text).unwrap();
    let isoforms = parallel_hash_rev("g1 t1\ng2 t2\ng1 t3\n");
    let rows = convert(&records, &isoforms).unwrap();
    let seen: Vec<(&str, &str, u32, u32)> =
        rows.iter().map(|r| (r.0.as_str(), r.1.as_str(), r.2, r.3)).collect();
    assert_eq!(
        seen,
        vec![
            ("chr1", "gene", 51, 400),
            ("chr1", "transcript", 51, 400),
            ("chr1", "exon", 51, 400),
            ("chr2", "gene", 51, 500),
            ("chr2", "transcript", 51, 400),
            ("chr2", "exon", 51, 400),
            ("chr2", "transcript", 101, 500),
            ("chr2", "exon", 101, 500),
        ]
    );
    assert_eq!(rows[3].6, "gene_id \"g1\";");
}

#[test]
fn convert_without_isoforms_has_no_gene_rows() {
    let records = vec![record("t1", "chr1", "+", (100, 500))];
    let rows = convert(&records, &Table::new()).unwrap();
    let kinds: Vec<&str> = rows.iter().map(|r| r.1.as_str()).collect();
    assert_eq!(kinds, vec!["transcript", "exon"]);
    assert_eq!(rows[0].6, "gene_id \"t1\"; transcript_id \"t1\";");
}

#[test]
fn convert_stops_at_the_first_record_without_rows() {
    let records = vec![
        record("t1", "chr1", "+", (100, 500)),
        record("t2", "chr1", "+", (500, 100)),
        record("t3", "chr1", "+", (100, 500)),
    ];
    let isoforms = parallel_hash_rev("g t1\ng t2\n");
    assert_eq!(convert(&records, &isoforms), Err((1, ConvertError::MalformedRecord)));
    assert_eq!(convert_records(&records, &isoforms), Err((1, ConvertError::MalformedRecord)));
    let records = vec![record("t1", "chr1", "+", (100, 500)), record("t3", "chr1", "+", (1, 5))];
    assert_eq!(convert(&records, &isoforms), Err((1, ConvertError::MissingIsoform)));
}

#[test]
fn header_has_four_comment_lines() {
    assert_eq!(
        comments("2024-3-7"),
        "#provider: bed2gtf\n#version: 1.9.1\n#contact: https://github.com/alejandrogzi/bed2gtf\n#date: 2024-3-7\n"
    );
}

#[test]
fn dates_are_written_without_leading_zeros() {
    assert_eq!(format_date(2024, 3, 7), "2024-3-7");
    assert_eq!(format_date(1999, 12, 31), "1999-12-31");
    assert_eq!(format_date(-44, 3, 15), "-44-3-15");
}

#[test]
fn get_date_is_a_date() {
    let date = get_date();
    let parts: Vec<&str> = date.split('-').collect();
    assert_eq!(parts.len(), 3);
    let year: i32 = parts[0].parse().unwrap();
    let month: u32 = parts[1].parse().unwrap();
    let day: u32 = parts[2].parse().unwrap();
    assert!(year >= 2024);
    assert!(1 <= month && month <= 12);
    assert!(1 <= day && day <= 31);
}

#[test]
fn row_line_has_nine_columns() {
    let row: Row = (
        "chr1".to_string(),
        "CDS".to_string(),
        104,
        193,
        "+".to_string(),
        "0".to_string(),
        "gene_id \"g\"; transcript_id \"tx\";".to_string(),
    );
    assert_eq!(
        row_line(&row),
        "chr1\tbed2gtf\tCDS\t104\t193\t.\t+\t0\tgene_id \"g\"; transcript_id \"tx\";\n"
    );
}

#[test]
fn numbers_are_written_in_decimal() {
    let mut s = "n=".to_string();
    push_decimal(&mut s, 0);
    push_decimal(&mut s, 7);
    push_decimal(&mut s, 1020);
    push_decimal(&mut s, u64::MAX);
    assert_eq!(s, "n=07102018446744073709551615");
    let mut s = String::new();
    push_signed_decimal(&mut s, -15);
    push_signed_decimal(&mut s, 0);
    push_signed_decimal(&mut s, i64::MIN);
    assert_eq!(s, "-150-9223372036854775808");
}

#[test]
fn parse_errors_have_messages() {
    assert_eq!(ParseError::Empty.message(), "Empty line");
    assert_eq!(ParseError::Invalid.message(), "Invalid GTF line");
}

#[test]
fn parse_lines_names_the_bad_line() {
    let good = "chr1\t10\t20\ta\t0\t+\t10\t10\t0\t1\t10\t0";
    let text = format!("{}\n{}\nchr1\t10\n{}\n", good, good, good);
    assert_eq!(
        parse_lines(&text),
        Err((
            2,
            "Bed line has less than 12 fields and cannot be parsed into a BedRecord".to_string()
        ))
    );
    assert_eq!(parse_lines(&format!("{}\n{}", good, good)).unwrap().len(), 2);
}
