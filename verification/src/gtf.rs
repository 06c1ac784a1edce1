//! From one transcript record to its rows.

use crate::bed::{is_minus, is_plus, BedRecord};
use crate::codon::{
    codon_complete, first_codon, first_codon_spec, last_codon, last_codon_spec, Codon,
};
use crate::lines::{
    codon_rows, feature_rows, gtf_row, push_row, rows_view, write_codon, write_features, Row,
    RowView,
};
use crate::table::{lemma_same_keys, lookup, Table};
use crate::walk::{
    first_holding, holds, lemma_first_holding, lemma_same_walk, move_pos, move_pos_spec,
    room_above, room_below, walk_down, walk_up,
};
use vstd::prelude::*;

verus! {

/// Why a record has no rows.
#[derive(Debug, Clone, Copy, PartialEq, Eq, Structural)]
pub enum ConvertError {
    /// The record does not meet the data model.
    MalformedRecord,
    /// There is an isoform table, and the transcript is not in it.
    MissingIsoform,
    /// The record has no exon in which to look for a codon.
    NoCodonFound,
    /// The exons ran out while the coding span was shortened by a codon.
    PositionWalkFailure { pos: u32, dist: i32 },
}

impl ConvertError {
    /// What to tell the user, for the transcript `name`.
    pub fn message(&self, name: &str) -> (text: String)
        ensures
            text@ == (match *self {
                ConvertError::MalformedRecord => "Malformed record: "@,
                ConvertError::MissingIsoform => "Gene not found in isoforms file: "@,
                ConvertError::NoCodonFound => "No codon found: "@,
                ConvertError::PositionWalkFailure { .. } => "Position not reachable in exons: "@,
            }) + name@,
    {
        let mut text = String::new();
        match self {
            ConvertError::MalformedRecord => text.append("Malformed record: "),
            ConvertError::MissingIsoform => text.append("Gene not found in isoforms file: "),
            ConvertError::NoCodonFound => text.append("No codon found: "),
            ConvertError::PositionWalkFailure { .. } => text.append(
                "Position not reachable in exons: ",
            ),
        }
        text.append(name);
        text
    }
}

/// Whether the strand is exactly `-`.
pub open spec fn reverse(r: &BedRecord) -> bool {
    r.strand@ == seq!['-']
}

/// Whether the record can be written as rows: it meets the data model, and
/// the first base of every exon can be counted from one in 32 bits.
pub open spec fn convertible(r: &BedRecord) -> bool {
    &&& r.valid()
    &&& forall|i: int| 0 <= i < r.exon_count ==> #[trigger] r.exon_start@[i] < u32::MAX
}

/// Whether the record can be written as rows.
pub fn is_convertible(record: &BedRecord) -> (r: bool)
    ensures
        r == convertible(record),
{
    if !record.is_valid() {
        return false;
    }
    let n: usize = record.exon_count as usize;
    let mut i: usize = 0;
    while i < n
        invariant
            record.valid(),
            n == record.exon_count,
            i <= n,
            forall|j: int| 0 <= j < i ==> #[trigger] record.exon_start@[j] < u32::MAX,
        decreases n - i,
    {
        if record.exon_start[i] == u32::MAX {
            return false;
        }
        i = i + 1;
    }
    true
}

/// The gene of a transcript: what the isoform table holds for its name, or
/// the name itself where the table is empty.
pub open spec fn gene_of(r: &BedRecord, isoforms: Seq<(Seq<char>, Seq<char>)>) -> Option<
    Seq<char>,
> {
    if isoforms.len() == 0 {
        Some(r.name@)
    } else {
        lookup(isoforms, r.name@)
    }
}

/// The entries of a table of strings, the values as sequences of characters.
pub open spec fn texts(es: Seq<(Seq<char>, String)>) -> Seq<(Seq<char>, Seq<char>)> {
    es.map_values(|e: (Seq<char>, String)| (e.0, e.1@))
}

/// Where the coding rows end: three bases below the end of a complete last
/// codon on the forward strand, which is the stop codon there, and else at
/// the end of the coding span.
pub open spec fn coding_rows_end(r: &BedRecord) -> Option<int> {
    let last = last_codon_spec(r)->0;
    if r.forward() && last.size() == 3 {
        move_pos_spec(r, last.end as int, -3)
    } else {
        Some(r.cds_end as int)
    }
}

/// Where the coding rows begin: three bases above the start of a complete
/// first codon on the reverse strand, which is the stop codon there, and
/// else at the start of the coding span.
pub open spec fn coding_rows_start(r: &BedRecord) -> Option<int> {
    let first = first_codon_spec(r)->0;
    if reverse(r) && first.size() == 3 {
        move_pos_spec(r, first.start as int, 3)
    } else {
        Some(r.cds_start as int)
    }
}

/// The frame of exon `i` as the rows take it: 3 where the exon has none.
pub open spec fn frame_code(r: &BedRecord, i: int) -> u32 {
    if r.frame(i) >= 0 {
        r.frame(i) as u32
    } else {
        3
    }
}

/// The rows of the exons `0..upto`: for each exon its own row, then the rows
/// that lie in it, which are left out where the coding rows have no base.
pub open spec fn exon_rows(
    r: &BedRecord,
    gene: Seq<char>,
    cds_start: u32,
    cds_end: u32,
    upto: int,
) -> Seq<RowView>
    decreases upto,
{
    if upto <= 0 {
        Seq::<RowView>::empty()
    } else {
        let i = upto - 1;
        let own = gtf_row(r, gene, "exon"@, r.exon_start@[i], r.exon_end@[i], 3, Some(i));
        let inside = if cds_start < cds_end {
            feature_rows(r, gene, i, cds_start, cds_end, frame_code(r, i))
        } else {
            Seq::<RowView>::empty()
        };
        exon_rows(r, gene, cds_start, cds_end, i).push(own) + inside
    }
}

/// The rows of the complete codons: the start codon, then the stop codon.
/// On the reverse strand the last codon is the start codon.
pub open spec fn terminal_codon_rows(
    r: &BedRecord,
    gene: Seq<char>,
    first: Codon,
    last: Codon,
) -> Seq<RowView> {
    let none = Seq::<RowView>::empty();
    if !reverse(r) {
        (if first.size() == 3 {
            codon_rows(r, gene, "start_codon"@, first)
        } else {
            none
        }) + (if last.size() == 3 {
            codon_rows(r, gene, "stop_codon"@, last)
        } else {
            none
        })
    } else {
        (if last.size() == 3 {
            codon_rows(r, gene, "start_codon"@, last)
        } else {
            none
        }) + (if first.size() == 3 {
            codon_rows(r, gene, "stop_codon"@, first)
        } else {
            none
        })
    }
}

/// The rows of a transcript, or why it has none. The rows are: the
/// transcript; the exons in block order, each followed by what lies in it;
/// the start codon; the stop codon.
pub open spec fn to_gtf_spec(r: &BedRecord, isoforms: Seq<(Seq<char>, Seq<char>)>) -> Result<
    Seq<RowView>,
    ConvertError,
> {
    if !convertible(r) {
        Err(ConvertError::MalformedRecord)
    } else if gene_of(r, isoforms) is None {
        Err(ConvertError::MissingIsoform)
    } else if r.exon_count == 0 {
        Err(ConvertError::NoCodonFound)
    } else if coding_rows_end(r) is None {
        Err(ConvertError::PositionWalkFailure { pos: last_codon_spec(r)->0.end, dist: -3i32 })
    } else if coding_rows_start(r) is None {
        Err(ConvertError::PositionWalkFailure { pos: first_codon_spec(r)->0.start, dist: 3i32 })
    } else {
        let gene = gene_of(r, isoforms)->0;
        let cds_start = coding_rows_start(r)->0 as u32;
        let cds_end = coding_rows_end(r)->0 as u32;
        Ok(
            seq![gtf_row(r, gene, "transcript"@, r.tx_start, r.tx_end, 3, None)] + exon_rows(
                r,
                gene,
                cds_start,
                cds_end,
                r.exon_count as int,
            ) + terminal_codon_rows(r, gene, first_codon_spec(r)->0, last_codon_spec(r)->0),
        )
    }
}

/// In a record that meets the data model the coding rows can always be
/// shortened by a complete codon: the three bases that the walk has to
/// cover are those of the codon itself.
pub proof fn lemma_walks_succeed(r: &BedRecord)
    requires
        r.valid(),
        r.exon_count > 0,
    ensures
        coding_rows_end(r) is Some,
        coding_rows_start(r) is Some,
{
    let n = r.exon_count as int;
    let last = n - 1;
    assert(r.exon_start@[0] <= r.exon_end@[0]);
    assert(r.exon_start@[last] <= r.exon_end@[last]);
    if n >= 2 {
        assert(r.exon_start@[1] <= r.exon_end@[1]);
        assert(r.exon_start@[last - 1] <= r.exon_end@[last - 1]);
        assert(r.exon_end@[0int] <= r.exon_start@[0int + 1]);
        assert(r.exon_end@[last - 1] <= r.exon_start@[last - 1 + 1]);
    }
    let lcodon = last_codon_spec(r)->0;
    if r.forward() && lcodon.size() == 3 {
        let pos = lcodon.end as int;
        assert(pos == r.coding_end(last));
        assert(holds(r, last, pos));
        lemma_first_holding(r, 0, pos, last);
        lemma_same_walk(r, first_holding(r, 0, pos), last, pos, 3);
        if r.coding_len(last) < 3 {
            assert(r.coding_len(last - 1) >= 1);
            assert(room_below(r, last, pos) == 2);
            assert(walk_down(r, last - 1, r.exon_end@[last - 1] as int, 1) is Some);
        }
        assert(walk_down(r, last, pos, 3) is Some);
    }
    let fcodon = first_codon_spec(r)->0;
    if reverse(r) && fcodon.size() == 3 {
        let pos = fcodon.start as int;
        assert(pos == r.coding_start(0));
        assert(holds(r, 0, pos));
        assert(first_holding(r, 0, pos) == 0);
        if r.coding_len(0) < 3 {
            assert(r.coding_len(1) >= 1);
            assert(room_above(r, 0, pos) == 2);
            assert(walk_up(r, 1, r.exon_start@[1] as int, 1) is Some);
        }
        assert(walk_up(r, 0, pos, 3) is Some);
    }
}

/// A record that can be written as rows, has a gene and has an exon has
/// rows: no walk fails.
pub proof fn lemma_rows_exist(r: &BedRecord, isoforms: Seq<(Seq<char>, Seq<char>)>)
    requires
        convertible(r),
        gene_of(r, isoforms) is Some,
        r.exon_count > 0,
    ensures
        to_gtf_spec(r, isoforms) is Ok,
{
    lemma_walks_succeed(r);
}

/// The gene of a transcript, if it has one.
pub fn find_gene<'a>(bedline: &'a BedRecord, isoforms: &'a Table<String>) -> (gene: Option<
    &'a String,
>)
    requires
        isoforms.wf(),
    ensures
        match gene {
            Some(g) => gene_of(bedline, texts(isoforms.entries())) == Some(g@),
            None => gene_of(bedline, texts(isoforms.entries())) is None,
        },
{
    proof {
        isoforms.lemma_distinct();
        lemma_same_keys(isoforms.entries(), texts(isoforms.entries()), bedline.name@);
    }
    if !isoforms.is_empty() {
        isoforms.get(bedline.name.as_str())
    } else {
        Some(&bedline.name)
    }
}

/// Where the coding rows begin and end, or the walk that failed.
pub fn coding_row_bounds(bedline: &BedRecord, fcodon: &Codon, lcodon: &Codon) -> (r: Result<
    (u32, u32),
    ConvertError,
>)
    requires
        bedline.wf(),
        first_codon_spec(bedline) == Some(*fcodon),
        last_codon_spec(bedline) == Some(*lcodon),
    ensures
        match r {
            Ok((start, end)) => coding_rows_end(bedline) == Some(end as int) && coding_rows_start(
                bedline,
            ) == Some(start as int),
            Err(e) => if coding_rows_end(bedline) is None {
                e == (ConvertError::PositionWalkFailure { pos: lcodon.end, dist: -3i32 })
            } else {
                coding_rows_start(bedline) is None && e == (ConvertError::PositionWalkFailure {
                    pos: fcodon.start,
                    dist: 3i32,
                })
            },
        },
{
    let cds_end: u32 = if is_plus(bedline.strand.as_str()) && codon_complete(lcodon) {
        match move_pos(bedline, lcodon.end, -3) {
            Some(p) => p,
            None => {
                return Err(ConvertError::PositionWalkFailure { pos: lcodon.end, dist: -3 });
            },
        }
    } else {
        bedline.cds_end
    };
    let cds_start: u32 = if is_minus(bedline.strand.as_str()) && codon_complete(fcodon) {
        match move_pos(bedline, fcodon.start, 3) {
            Some(p) => p,
            None => {
                return Err(ConvertError::PositionWalkFailure { pos: fcodon.start, dist: 3 });
            },
        }
    } else {
        bedline.cds_start
    };
    Ok((cds_start, cds_end))
}

/// Appends the rows of all exons.
pub fn write_exons(
    bedline: &BedRecord,
    gene: &String,
    cds_start: u32,
    cds_end: u32,
    result: &mut Vec<Row>,
)
    requires
        convertible(bedline),
    ensures
        rows_view(final(result)@) == rows_view(old(result)@) + exon_rows(
            bedline,
            gene@,
            cds_start,
            cds_end,
            bedline.exon_count as int,
        ),
{
    let frames = bedline.get_frames();
    let ghost head = rows_view(result@);
    let n: usize = bedline.exon_count as usize;
    let mut i: usize = 0;
    assert(head =~= head + exon_rows(bedline, gene@, cds_start, cds_end, 0));
    while i < n
        invariant
            convertible(bedline),
            n == bedline.exon_count,
            i <= n,
            frames@.len() == n,
            forall|j: int| 0 <= j < n ==> #[trigger] frames@[j] == bedline.frame(j),
            rows_view(result@) == head + exon_rows(bedline, gene@, cds_start, cds_end, i as int),
        decreases n - i,
    {
        push_row(
            bedline,
            gene.as_str(),
            "exon",
            bedline.exon_start[i],
            bedline.exon_end[i],
            3,
            Some(i as u16),
            result,
        );
        if cds_start < cds_end {
            let code: u32 = if frames[i] >= 0 {
                frames[i] as u32
            } else {
                3
            };
            write_features(i, bedline, gene, cds_start, cds_end, code, result);
        }
        i = i + 1;
        assert(rows_view(result@) =~= head + exon_rows(
            bedline,
            gene@,
            cds_start,
            cds_end,
            i as int,
        ));
    }
}

/// Appends the rows of the complete codons.
pub fn write_terminal_codons(
    bedline: &BedRecord,
    gene: &String,
    fcodon: Codon,
    lcodon: Codon,
    result: &mut Vec<Row>,
)
    requires
        fcodon.size() == 3 ==> fcodon.start < fcodon.end,
        lcodon.size() == 3 ==> lcodon.start < lcodon.end,
    ensures
        rows_view(final(result)@) == rows_view(old(result)@) + terminal_codon_rows(
            bedline,
            gene@,
            fcodon,
            lcodon,
        ),
{
    let ghost head = rows_view(result@);
    let first_complete = codon_complete(&fcodon);
    let last_complete = codon_complete(&lcodon);
    if !is_minus(bedline.strand.as_str()) {
        if first_complete {
            write_codon(bedline, gene, "start_codon", fcodon, result);
        }
        if last_complete {
            write_codon(bedline, gene, "stop_codon", lcodon, result);
        }
    } else {
        if last_complete {
            write_codon(bedline, gene, "start_codon", lcodon, result);
        }
        if first_complete {
            write_codon(bedline, gene, "stop_codon", fcodon, result);
        }
    }
    assert(rows_view(result@) =~= head + terminal_codon_rows(bedline, gene@, fcodon, lcodon));
}

/// Writes the rows of one transcript.
pub fn to_gtf(bedline: &BedRecord, isoforms: &Table<String>) -> (result: Result<
    Vec<Row>,
    ConvertError,
>)
    requires
        isoforms.wf(),
    ensures
        match result {
            Ok(rows) => to_gtf_spec(bedline, texts(isoforms.entries())) == Ok::<
                Seq<RowView>,
                ConvertError,
            >(rows_view(rows@)),
            Err(e) => to_gtf_spec(bedline, texts(isoforms.entries())) == Err::<
                Seq<RowView>,
                ConvertError,
            >(e),
        },
{
    if !is_convertible(bedline) {
        return Err(ConvertError::MalformedRecord);
    }
    let gene: &String = match find_gene(bedline, isoforms) {
        Some(g) => g,
        None => {
            return Err(ConvertError::MissingIsoform);
        },
    };
    let fcodon = match first_codon(bedline) {
        Some(c) => c,
        None => {
            return Err(ConvertError::NoCodonFound);
        },
    };
    let lcodon = match last_codon(bedline) {
        Some(c) => c,
        None => {
            return Err(ConvertError::NoCodonFound);
        },
    };
    let (cds_start, cds_end) = match coding_row_bounds(bedline, &fcodon, &lcodon) {
        Ok(bounds) => bounds,
        Err(e) => {
            return Err(e);
        },
    };
    let mut result: Vec<Row> = Vec::new();
    assert(rows_view(result@) =~= Seq::<RowView>::empty());
    push_row(
        bedline,
        gene.as_str(),
        "transcript",
        bedline.tx_start,
        bedline.tx_end,
        3,
        None,
        &mut result,
    );
    write_exons(bedline, gene, cds_start, cds_end, &mut result);
    write_terminal_codons(bedline, gene, fcodon, lcodon, &mut result);
    Ok(result)
}

} // verus!
