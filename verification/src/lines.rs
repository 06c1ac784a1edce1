//! Output rows: what one row holds and how the rows of an exon, of a codon
//! and of a gene are written.

use crate::bed::{is_plus, BedRecord};
use crate::codon::Codon;
use crate::table::{has_key, lookup, Table};
use crate::text::{decimal, push_decimal};
use vstd::math::{max, min};
use vstd::prelude::*;

verus! {

/// One output row: sequence name, feature, first and last base counted
/// from one, strand, phase, attributes.
pub type Row = (String, String, u32, u32, String, String, String);

/// A row with its texts as sequences of characters.
pub type RowView = (Seq<char>, Seq<char>, u32, u32, Seq<char>, Seq<char>, Seq<char>);

/// What a row holds.
pub open spec fn row_view(row: Row) -> RowView {
    (row.0@, row.1@, row.2, row.3, row.4@, row.5@, row.6@)
}

/// What each of the rows holds.
pub open spec fn rows_view(rows: Seq<Row>) -> Seq<RowView> {
    rows.map_values(|row: Row| row_view(row))
}

/// The phase written for a frame: the number of bases still missing from
/// the codon, where the frame counts those already there.
pub open spec fn phase_of(frame: u32) -> Seq<char> {
    if frame == 0 {
        "0"@
    } else if frame == 1 {
        "2"@
    } else if frame == 2 {
        "1"@
    } else {
        "."@
    }
}

/// The number under which exon `exon` is written: counted from one in the
/// direction of transcription.
pub open spec fn exon_number(r: &BedRecord, exon: int) -> int {
    if r.forward() {
        exon + 1
    } else {
        r.exon_count - exon
    }
}

/// The attributes of a row of transcript `name` in gene `gene`, with those
/// of exon number `number` where the row belongs to an exon.
pub open spec fn attributes(gene: Seq<char>, name: Seq<char>, number: Option<int>) -> Seq<char> {
    let base = "gene_id \""@ + gene + "\"; transcript_id \""@ + name + "\";"@;
    match number {
        Some(n) => base + " exon_number \""@ + decimal(n as nat) + "\"; exon_id \""@ + name
            + "."@ + decimal(n as nat) + "\";"@,
        None => base,
    }
}

/// The row of a feature of transcript `r` from `start` to `end`.
pub open spec fn gtf_row(
    r: &BedRecord,
    gene: Seq<char>,
    kind: Seq<char>,
    start: u32,
    end: u32,
    frame: u32,
    exon: Option<int>,
) -> RowView {
    (
        r.chrom@,
        kind,
        (start + 1) as u32,
        end,
        r.strand@,
        phase_of(frame),
        attributes(
            gene,
            r.name@,
            match exon {
                Some(e) => Some(exon_number(r, e)),
                None => None,
            },
        ),
    )
}

/// The text of a phase.
fn phase_text(frame: u32) -> (r: &'static str)
    ensures
        r@ == phase_of(frame),
{
    if frame == 0 {
        "0"
    } else if frame == 1 {
        "2"
    } else if frame == 2 {
        "1"
    } else {
        "."
    }
}

/// Appends the row of one feature to `result`.
pub fn push_row(
    record: &BedRecord,
    gene: &str,
    kind: &str,
    start: u32,
    end: u32,
    frame: u32,
    exon: Option<u16>,
    result: &mut Vec<Row>,
)
    requires
        start < u32::MAX,
        exon matches Some(e) ==> record.forward() || e <= record.exon_count,
    ensures
        final(result)@.len() == old(result)@.len() + 1,
        rows_view(final(result)@) == rows_view(old(result)@).push(
            gtf_row(
                record,
                gene@,
                kind@,
                start,
                end,
                frame,
                match exon {
                    Some(e) => Some(e as int),
                    None => None,
                },
            ),
        ),
{
    let mut attr = String::new();
    attr.append("gene_id \"");
    attr.append(gene);
    attr.append("\"; transcript_id \"");
    attr.append(record.name.as_str());
    attr.append("\";");
    match exon {
        Some(e) => {
            let number: u64 = if is_plus(record.strand.as_str()) {
                e as u64 + 1
            } else {
                (record.exon_count - e) as u64
            };
            attr.append(" exon_number \"");
            push_decimal(&mut attr, number);
            attr.append("\"; exon_id \"");
            attr.append(record.name.as_str());
            attr.append(".");
            push_decimal(&mut attr, number);
            attr.append("\";");
        },
        None => {},
    }
    let row: Row = (
        record.chrom.clone(),
        kind.to_owned(),
        start + 1,
        end,
        record.strand.clone(),
        phase_text(frame).to_owned(),
        attr,
    );
    result.push(row);
    assert(rows_view(result@) =~= rows_view(old(result)@).push(row_view(row)));
}

/// The exon that `exon` names: none where it is negative.
pub open spec fn exon_of_arg(exon: i16) -> Option<int> {
    if exon >= 0 {
        Some(exon as int)
    } else {
        None
    }
}

/// Appends the row of one feature to `result`. A negative `exon` stands
/// for a feature that belongs to no exon.
pub fn build_gtf_line(
    record: &BedRecord,
    gene: &String,
    gene_type: &str,
    exon_start: u32,
    exon_end: u32,
    frame: u32,
    exon: i16,
    result: &mut Vec<Row>,
)
    requires
        record.tx_start < record.tx_end,
        exon_start < u32::MAX,
        exon >= 0 && !record.forward() ==> exon <= record.exon_count,
    ensures
        final(result)@.len() == old(result)@.len() + 1,
        rows_view(final(result)@) == rows_view(old(result)@).push(
            gtf_row(record, gene@, gene_type@, exon_start, exon_end, frame, exon_of_arg(exon)),
        ),
{
    let which: Option<u16> = if exon >= 0 {
        Some(exon as u16)
    } else {
        None
    };
    push_row(record, gene.as_str(), gene_type, exon_start, exon_end, frame, which, result);
}

/// The name of the untranslated region below the coding span.
pub open spec fn low_utr(r: &BedRecord) -> Seq<char> {
    if r.forward() {
        "five_prime_utr"@
    } else {
        "three_prime_utr"@
    }
}

/// The name of the untranslated region above the coding span.
pub open spec fn high_utr(r: &BedRecord) -> Seq<char> {
    if r.forward() {
        "three_prime_utr"@
    } else {
        "five_prime_utr"@
    }
}

/// The rows that lie in exon `i` besides its own: what it has below the
/// coding span, what it has of the part `cds_start..cds_end` of the coding
/// span, and what it has above the coding span, in this order and each only
/// if it has a base.
pub open spec fn feature_rows(
    r: &BedRecord,
    gene: Seq<char>,
    i: int,
    cds_start: u32,
    cds_end: u32,
    frame: u32,
) -> Seq<RowView> {
    let es = r.exon_start@[i];
    let ee = r.exon_end@[i];
    let below_end = min(ee as int, r.cds_start as int) as u32;
    let below = if es < below_end {
        seq![gtf_row(r, gene, low_utr(r), es, below_end, frame, None)]
    } else {
        Seq::<RowView>::empty()
    };
    let cs = max(es as int, cds_start as int) as u32;
    let ce = min(ee as int, cds_end as int) as u32;
    let coding = if r.cds_start < ee && es < r.cds_end && cs < ce {
        seq![gtf_row(r, gene, "CDS"@, cs, ce, frame, Some(i))]
    } else {
        Seq::<RowView>::empty()
    };
    let above_start = max(es as int, r.cds_end as int) as u32;
    let above = if above_start < ee {
        seq![gtf_row(r, gene, high_utr(r), above_start, ee, frame, None)]
    } else {
        Seq::<RowView>::empty()
    };
    below + coding + above
}

/// Appends the rows that lie in exon `i` besides its own.
pub fn write_features(
    i: usize,
    record: &BedRecord,
    gene: &String,
    cds_start: u32,
    cds_end: u32,
    frame: u32,
    result: &mut Vec<Row>,
)
    requires
        record.wf(),
        i < record.exon_count,
    ensures
        rows_view(final(result)@) == rows_view(old(result)@) + feature_rows(
            record,
            gene@,
            i as int,
            cds_start,
            cds_end,
            frame,
        ),
{
    let exon_start = record.exon_start[i];
    let exon_end = record.exon_end[i];
    let forward = is_plus(record.strand.as_str());
    let ghost before = rows_view(result@);

    let below_end = if exon_end < record.cds_start {
        exon_end
    } else {
        record.cds_start
    };
    if exon_start < below_end {
        let kind = if forward {
            "five_prime_utr"
        } else {
            "three_prime_utr"
        };
        push_row(record, gene.as_str(), kind, exon_start, below_end, frame, None, result);
    }
    let ghost with_below = rows_view(result@);

    if record.cds_start < exon_end && exon_start < record.cds_end {
        let start = if exon_start > cds_start {
            exon_start
        } else {
            cds_start
        };
        let end = if exon_end < cds_end {
            exon_end
        } else {
            cds_end
        };
        if start < end {
            push_row(record, gene.as_str(), "CDS", start, end, frame, Some(i as u16), result);
        }
    }
    let ghost with_coding = rows_view(result@);

    let above_start = if exon_start > record.cds_end {
        exon_start
    } else {
        record.cds_end
    };
    if above_start < exon_end {
        let kind = if forward {
            "three_prime_utr"
        } else {
            "five_prime_utr"
        };
        push_row(record, gene.as_str(), kind, above_start, exon_end, frame, None, result);
    }
    assert(rows_view(result@) =~= before + feature_rows(
        record,
        gene@,
        i as int,
        cds_start,
        cds_end,
        frame,
    ));
}

/// The rows of a codon: one for its first piece and, where it has a second
/// piece, one for that, in the frame that the first piece leaves.
pub open spec fn codon_rows(r: &BedRecord, gene: Seq<char>, kind: Seq<char>, c: Codon) -> Seq<
    RowView,
> {
    let first = seq![gtf_row(r, gene, kind, c.start, c.end, 0, None)];
    if c.start2 < c.end2 {
        first.push(gtf_row(r, gene, kind, c.start2, c.end2, (c.end - c.start) as u32, None))
    } else {
        first
    }
}

/// Appends the rows of a codon.
pub fn write_codon(
    record: &BedRecord,
    gene: &String,
    gene_type: &str,
    codon: Codon,
    result: &mut Vec<Row>,
)
    requires
        codon.start <= codon.end,
        codon.start < u32::MAX,
    ensures
        rows_view(final(result)@) == rows_view(old(result)@) + codon_rows(
            record,
            gene@,
            gene_type@,
            codon,
        ),
{
    let ghost before = rows_view(result@);
    push_row(record, gene.as_str(), gene_type, codon.start, codon.end, 0, None, result);
    if codon.start2 < codon.end2 {
        push_row(
            record,
            gene.as_str(),
            gene_type,
            codon.start2,
            codon.end2,
            codon.end - codon.start,
            None,
            result,
        );
    }
    assert(rows_view(result@) =~= before + codon_rows(record, gene@, gene_type@, codon));
}

/// The line of a gene: the sequence and strand of `r`, and the span that
/// `coords` holds for the gene.
pub open spec fn gene_line(r: &BedRecord, gene: Seq<char>, span: (u32, u32)) -> Seq<char> {
    r.chrom@ + "\t"@ + "bed2gtf"@ + "\tgene\t"@ + decimal((span.0 + 1) as nat) + "\t"@ + decimal(
        span.1 as nat,
    ) + "\t.\t"@ + r.strand@ + "\t.\tgene_id \""@ + gene + "\";"@
}

/// Writes the line of a gene whose span `coords` holds.
pub fn build_gene_line(gene: &String, record: &BedRecord, coords: &Table<(u32, u32)>) -> (line:
    String)
    requires
        gene@.len() > 0,
        coords.wf(),
        has_key(coords.entries(), gene@),
    ensures
        line@ == gene_line(record, gene@, lookup(coords.entries(), gene@)->0),
{
    let span = coords.get(gene.as_str());
    let (start, end) = *span.unwrap();
    let mut line = String::new();
    line.append(record.chrom.as_str());
    line.append("\t");
    line.append("bed2gtf");
    line.append("\tgene\t");
    push_decimal(&mut line, start as u64 + 1);
    line.append("\t");
    push_decimal(&mut line, end as u64);
    line.append("\t.\t");
    line.append(record.strand.as_str());
    line.append("\t.\tgene_id \"");
    line.append(gene.as_str());
    line.append("\";");
    assert(line@ =~= gene_line(record, gene@, (start, end)));
    line
}

} // verus!
