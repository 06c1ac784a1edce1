//! From all records of an input to the rows of the output, in their order.

use crate::bed::BedRecord;
use crate::gtf::{convertible, texts, to_gtf, to_gtf_spec, ConvertError};
use crate::lines::{rows_view, Row, RowView};
use crate::order::{arranged, sort_rows, sorts};
use crate::table::{has_key, Table};
use crate::utils::{
    combine_maps_par, custom_par_parse, envelopes, gene_rows, starts_fit, track_of,
};
use vstd::prelude::*;

verus! {

/// The rows of the transcripts `records`, one transcript after the other.
pub open spec fn transcript_rows(
    records: Seq<BedRecord>,
    isoforms: Seq<(Seq<char>, Seq<char>)>,
) -> Seq<RowView>
    decreases records.len(),
{
    if records.len() == 0 {
        Seq::<RowView>::empty()
    } else {
        transcript_rows(records.drop_last(), isoforms) + (match to_gtf_spec(
            &records.last(),
            isoforms,
        ) {
            Ok(rows) => rows,
            Err(_) => Seq::<RowView>::empty(),
        })
    }
}

/// Whether record `i` is the first that has no rows, and `e` says why.
pub open spec fn first_without_rows(
    records: Seq<BedRecord>,
    isoforms: Seq<(Seq<char>, Seq<char>)>,
    i: int,
    e: ConvertError,
) -> bool {
    &&& 0 <= i < records.len()
    &&& to_gtf_spec(&records[i], isoforms) == Err::<Seq<RowView>, ConvertError>(e)
    &&& forall|j: int| 0 <= j < i ==> to_gtf_spec(&#[trigger] records[j], isoforms) is Ok
}

/// The rows of an input before they are sorted: those of the genes, then
/// those of the transcripts.
pub open spec fn unsorted_rows(
    records: Seq<BedRecord>,
    isoforms: Seq<(Seq<char>, Seq<char>)>,
) -> Seq<RowView> {
    gene_rows(envelopes(isoforms, track_of(records))) + transcript_rows(records, isoforms)
}

/// Whether `rows` is the output for an input: its unsorted rows, sorted.
pub open spec fn is_output(
    rows: Seq<RowView>,
    records: Seq<BedRecord>,
    isoforms: Seq<(Seq<char>, Seq<char>)>,
) -> bool {
    exists|order: Seq<usize>| #[trigger]
        sorts(unsorted_rows(records, isoforms), order) && rows == arranged(
            unsorted_rows(records, isoforms),
            order,
        )
}

/// The tracks of records that can be written as rows start in range.
pub proof fn lemma_tracks_fit(records: Seq<BedRecord>)
    requires
        forall|i: int| 0 <= i < records.len() ==> (#[trigger] records[i]).tx_start < u32::MAX,
    ensures
        starts_fit(track_of(records)),
    decreases records.len(),
{
    if records.len() > 0 {
        let before = records.drop_last();
        assert forall|i: int| 0 <= i < before.len() implies (#[trigger] before[i]).tx_start
            < u32::MAX by {
            assert(before[i] == records[i]);
        }
        lemma_tracks_fit(before);
        let r = records.last();
        let tracks = track_of(records);
        if !has_key(track_of(before), r.name@) {
            assert forall|i: int| 0 <= i < tracks.len() implies (#[trigger] tracks[i]).1.1
                < u32::MAX by {
                if i < track_of(before).len() {
                    assert(tracks[i] == track_of(before)[i]);
                }
            }
        }
    }
}

/// The rows of all transcripts, or the first record that has none.
pub fn convert_records(records: &Vec<BedRecord>, isoforms: &Table<String>) -> (r: Result<
    Vec<Row>,
    (usize, ConvertError),
>)
    requires
        isoforms.wf(),
    ensures
        match r {
            Ok(rows) => {
                &&& rows_view(rows@) == transcript_rows(records@, texts(isoforms.entries()))
                &&& forall|i: int|
                    0 <= i < records@.len() ==> to_gtf_spec(
                        &#[trigger] records@[i],
                        texts(isoforms.entries()),
                    ) is Ok
            },
            Err((i, e)) => first_without_rows(records@, texts(isoforms.entries()), i as int, e),
        },
{
    let ghost iso = texts(isoforms.entries());
    let mut rows: Vec<Row> = Vec::new();
    let mut k: usize = 0;
    assert(rows_view(rows@) =~= transcript_rows(records@.take(0), iso));
    while k < records.len()
        invariant
            k <= records.len(),
            isoforms.wf(),
            iso == texts(isoforms.entries()),
            rows_view(rows@) == transcript_rows(records@.take(k as int), iso),
            forall|i: int| 0 <= i < k ==> to_gtf_spec(&#[trigger] records@[i], iso) is Ok,
        decreases records.len() - k,
    {
        proof {
            assert(records@.take(k + 1).drop_last() =~= records@.take(k as int));
            assert(records@.take(k + 1).last() == records@[k as int]);
        }
        match to_gtf(&records[k], isoforms) {
            Ok(mut more) => {
                let ghost before = rows@;
                let ghost added = more@;
                rows.append(&mut more);
                assert(rows_view(rows@) =~= rows_view(before) + rows_view(added));
            },
            Err(e) => {
                assert(first_without_rows(records@, iso, k as int, e));
                return Err((k, e));
            },
        }
        k = k + 1;
    }
    proof {
        assert(records@.take(k as int) =~= records@);
    }
    Ok(rows)
}

/// The rows of the output for the records of an input: the rows of the
/// genes and those of the transcripts, sorted. A record that has no rows
/// stops the work.
pub fn convert(records: &Vec<BedRecord>, isoforms: &Table<String>) -> (r: Result<
    Vec<Row>,
    (usize, ConvertError),
>)
    requires
        isoforms.wf(),
    ensures
        match r {
            Ok(rows) => is_output(rows_view(rows@), records@, texts(isoforms.entries())),
            Err((i, e)) => first_without_rows(records@, texts(isoforms.entries()), i as int, e),
        },
{
    let mut results = match convert_records(records, isoforms) {
        Ok(rows) => rows,
        Err(failure) => {
            return Err(failure);
        },
    };
    proof {
        assert forall|i: int| 0 <= i < records@.len() implies (#[trigger] records@[i]).tx_start
            < u32::MAX by {
            assert(to_gtf_spec(&records@[i], texts(isoforms.entries())) is Ok);
            assert(convertible(&records@[i]));
        }
        lemma_tracks_fit(records@);
    }
    let gene_track = custom_par_parse(records);
    let mut blocks = combine_maps_par(isoforms, &gene_track);
    let ghost genes = rows_view(blocks@);
    let ghost transcripts = rows_view(results@);
    blocks.append(&mut results);
    assert(rows_view(blocks@) =~= genes + transcripts);
    let sorted = sort_rows(&blocks);
    let ghost order = choose|order: Seq<usize>| #[trigger]
        sorts(rows_view(blocks@), order) && rows_view(sorted@) == arranged(
            rows_view(blocks@),
            order,
        );
    assert(sorts(unsorted_rows(records@, texts(isoforms.entries())), order));
    Ok(sorted)
}

} // verus!
