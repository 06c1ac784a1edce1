use bed2gtf::bed::BedRecord;
use bed2gtf::codon::{codon_complete, first_codon, last_codon, Codon};
use bed2gtf::walk::{find_exon, move_pos};

fn record(strand: &str, cds: (u32, u32), exons: &[(u32, u32)]) -> BedRecord {
    BedRecord {
        chrom: "chr1".to_string(),
        tx_start: exons[0].0,
        tx_end: exons[exons.len() - 1].1,
        name: "tx".to_string(),
        strand: strand.to_string(),
        cds_start: cds.0,
        cds_end: cds.1,
        exon_count: exons.len() as u16,
        exon_start: exons.iter().map(|e| e.0).collect(),
        exon_end: exons.iter().map(|e| e.1).collect(),
    }
}

fn parts(c: &Codon) -> (u32, u32, u32, u32, u32) {
    (c.start, c.end, c.index, c.start2, c.end2)
}

#[test]
fn frames_forward_accumulate() {
    let r = record("+", (105, 330), &[(100, 110), (200, 210), (300, 340)]);
    assert_eq!(r.get_frames(), vec![0, 2, 0]);
}

#[test]
fn frames_reverse_accumulate() {
    let r = record("-", (105, 330), &[(100, 110), (200, 210), (300, 340)]);
    assert_eq!(r.get_frames(), vec![1, 0, 0]);
}

#[test]
fn frames_mark_exons_without_coding_bases() {
    let r = record("+", (200, 205), &[(100, 110), (200, 210), (300, 340)]);
    assert_eq!(r.get_frames(), vec![-1, 0, -1]);
}

#[test]
fn frames_have_one_entry_for_each_exon() {
    let r = record("+", (100, 100), &[(100, 110), (200, 210)]);
    let frames = r.get_frames();
    assert_eq!(frames.len(), 2);
    assert!(frames.iter().all(|f| -1 <= *f && *f <= 2));
}

#[test]
fn codon_new_is_empty() {
    let c = Codon::new();
    assert_eq!(parts(&c), (0, 0, 0, 0, 0));
    assert!(!codon_complete(&c));
}

#[test]
fn codon_complete_counts_both_pieces() {
    let whole = Codon { start: 10, end: 13, index: 0, start2: 0, end2: 0 };
    let split = Codon { start: 10, end: 12, index: 0, start2: 20, end2: 21 };
    let short = Codon { start: 10, end: 12, index: 0, start2: 0, end2: 0 };
    assert!(codon_complete(&whole));
    assert!(codon_complete(&split));
    assert!(!codon_complete(&short));
}

#[test]
fn codons_of_a_single_coding_exon() {
    let r = record("+", (103, 196), &[(100, 199)]);
    let first = first_codon(&r).unwrap();
    let last = last_codon(&r).unwrap();
    assert_eq!(parts(&first), (103, 106, 0, 0, 0));
    assert_eq!(parts(&last), (193, 196, 0, 0, 0));
    assert!(codon_complete(&first));
    assert!(codon_complete(&last));
}

#[test]
fn codons_are_empty_without_coding_span() {
    let r = record("+", (150, 150), &[(100, 199)]);
    let first = first_codon(&r).unwrap();
    let last = last_codon(&r).unwrap();
    assert_eq!(parts(&first), (0, 0, 0, 0, 0));
    assert_eq!(parts(&last), (0, 0, 0, 0, 0));
    assert!(!codon_complete(&first));
    assert!(!codon_complete(&last));
}

#[test]
fn codons_are_none_without_exons() {
    let r = BedRecord {
        chrom: "chr1".to_string(),
        tx_start: 0,
        tx_end: 10,
        name: "tx".to_string(),
        strand: "+".to_string(),
        cds_start: 0,
        cds_end: 0,
        exon_count: 0,
        exon_start: vec![],
        exon_end: vec![],
    };
    assert!(first_codon(&r).is_none());
    assert!(last_codon(&r).is_none());
}

#[test]
fn first_codon_is_empty_when_first_exon_is_untranslated() {
    let r = record("+", (200, 230), &[(100, 110), (200, 240)]);
    assert_eq!(parts(&first_codon(&r).unwrap()), (0, 0, 0, 0, 0));
    assert_eq!(parts(&last_codon(&r).unwrap()), (227, 230, 1, 0, 0));
}

#[test]
fn first_codon_is_empty_off_the_codon_boundary() {
    // Reverse strand: 10 coding bases in all, so the low end is one past a boundary.
    let r = record("-", (100, 110), &[(100, 120)]);
    assert_eq!(parts(&first_codon(&r).unwrap()), (0, 0, 0, 0, 0));
    assert_eq!(parts(&last_codon(&r).unwrap()), (107, 110, 0, 0, 0));
}

#[test]
fn first_codon_borrows_one_base_from_the_second_exon() {
    let r = record("+", (108, 210), &[(100, 110), (200, 240)]);
    let c = first_codon(&r).unwrap();
    assert_eq!(parts(&c), (108, 110, 0, 200, 201));
    assert!(codon_complete(&c));
}

#[test]
fn first_codon_does_not_borrow_two_bases() {
    let r = record("+", (109, 211), &[(100, 110), (200, 240)]);
    let c = first_codon(&r).unwrap();
    assert_eq!(parts(&c), (109, 110, 0, 0, 0));
    assert!(!codon_complete(&c));
}

#[test]
fn first_codon_stays_short_without_second_exon() {
    let r = record("+", (108, 110), &[(100, 110)]);
    let c = first_codon(&r).unwrap();
    assert_eq!(parts(&c), (108, 110, 0, 0, 0));
    assert!(!codon_complete(&c));
}

#[test]
fn last_codon_borrows_one_base_from_the_exon_before() {
    // 1 + 2 coding bases: the last exon ends on a boundary and holds two of the three.
    let r = record("+", (109, 202), &[(100, 110), (200, 240)]);
    let c = last_codon(&r).unwrap();
    assert_eq!(parts(&c), (200, 202, 1, 109, 110));
    assert!(codon_complete(&c));
}

#[test]
fn move_pos_within_an_exon() {
    let r = record("+", (100, 100), &[(100, 110), (200, 210)]);
    assert_eq!(move_pos(&r, 105, 3), Some(108));
    assert_eq!(move_pos(&r, 105, -3), Some(102));
    assert_eq!(move_pos(&r, 105, 0), Some(105));
    assert_eq!(move_pos(&r, 105, 5), Some(110));
    assert_eq!(move_pos(&r, 105, -5), Some(100));
}

#[test]
fn move_pos_skips_introns() {
    let r = record("+", (100, 100), &[(100, 110), (200, 210), (300, 310)]);
    assert_eq!(move_pos(&r, 108, 3), Some(201));
    assert_eq!(move_pos(&r, 201, -3), Some(108));
    assert_eq!(move_pos(&r, 108, 13), Some(301));
    assert_eq!(move_pos(&r, 301, -13), Some(108));
}

#[test]
fn move_pos_is_undone_by_the_opposite_move() {
    let r = record("+", (100, 100), &[(100, 110), (200, 210), (300, 310)]);
    for pos in [101u32, 105, 109, 203, 209, 301] {
        for dist in [-12i32, -3, -1, 0, 1, 3, 12] {
            if let Some(q) = move_pos(&r, pos, dist) {
                if let Some(back) = move_pos(&r, q, -dist) {
                    assert_eq!(back, pos);
                }
            }
        }
    }
}

#[test]
fn move_pos_from_an_exon_end_does_not_come_back() {
    let r = record("+", (100, 100), &[(100, 110), (200, 210)]);
    assert_eq!(move_pos(&r, 110, 1), Some(201));
    assert_eq!(move_pos(&r, 201, -1), Some(200));
}

#[test]
fn move_pos_fails_outside_the_exons() {
    let r = record("+", (100, 100), &[(100, 110), (200, 210)]);
    assert_eq!(move_pos(&r, 150, 1), None);
    assert_eq!(move_pos(&r, 50, 1), None);
    assert_eq!(move_pos(&r, 250, -1), None);
    assert_eq!(move_pos(&r, 205, 6), None);
    assert_eq!(move_pos(&r, 105, -6), None);
    assert_eq!(move_pos(&r, 105, i32::MIN), None);
}

#[test]
fn find_exon_gives_the_first_that_holds() {
    let r = record("+", (100, 100), &[(100, 110), (110, 120)]);
    assert_eq!(find_exon(&r, 110), 0);
    assert_eq!(find_exon(&r, 115), 1);
    assert_eq!(find_exon(&r, 121), 2);
}
