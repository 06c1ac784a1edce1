use bed2gtf::bed::BedRecord;

#[test]
fn new_record() {
    let line =
        "chr15\t81000922\t81005788\tENST00000267984\t0\t+\t81002271\t81003360\t0\t1\t4866,\t0,";
    let record = BedRecord::parse(line).unwrap();

    assert_eq!(record.chrom, "chr15");
    assert_eq!(record.tx_start, 81000922);
    assert_eq!(record.tx_end, 81005788);
    assert_eq!(record.name, "ENST00000267984");
    assert_eq!(record.strand, "+");
    assert_eq!(record.cds_start, 81002271);
    assert_eq!(record.cds_end, 81003360);
    assert_eq!(record.exon_count, 1);
    assert_eq!(record.exon_start, vec![81000922]);
    assert_eq!(record.exon_end, vec![81005788]);
}

#[test]
fn get_exon_frames() {
    let line = "chr11\t13934505\t13958243\tENST00000674667\t1000\t-\t13934505\t13958243\t0,0,200\t9\t224,217,228,198,149,142,115,157,49,\t0,1305,2811,5576,10085,14837,18016,19498,23689,";
    let record = BedRecord::parse(line).unwrap();

    assert_eq!(record.get_frames(), vec![1, 0, 0, 0, 1, 0, 2, 1, 0]);
}

#[test]
fn invalid_record() {
    let line =
        "chr15\t81000922\t81005788\tENST00000267984\t0\t+\t81002271\t81003360\t0\t1\t4866,";
    let record = BedRecord::parse(line);

    assert_eq!(
        record,
        Err(
            "Bed line has less than 12 fields and cannot be parsed into a BedRecord"
                .to_string()
        )
    );
}

#[test]
fn empty_record() {
    let line = "";
    let record = BedRecord::parse(line);

    assert_eq!(
        record,
        Err(
            "Bed line has less than 12 fields and cannot be parsed into a BedRecord"
                .to_string()
        )
    );
}
