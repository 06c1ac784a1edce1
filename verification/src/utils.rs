//! Whole inputs: the isoform table, the records of a BED text, and the
//! genes that the transcripts add up to.

use crate::bed::{parse_failure, BedRecord};
use crate::gtf::texts;
use crate::lines::{row_view, rows_view, Row, RowView};
use crate::table::{
    distinct_keys, find_key, has_key, lemma_find_key, lemma_same_keys, lookup, put, same_keys,
    Table,
};
use crate::text::{chars_of, first_two_words, line_ranges, lines_spec, string_of, two_words};
use vstd::math::{max, min};
use vstd::prelude::*;

verus! {

/// The table that the lines of a two-column text make: each line with two
/// words puts its second word for its first, or, with `swap`, its first for
/// its second. Other lines are passed over; of two lines with one key the
/// later one decides the value.
pub open spec fn pairs_of(lines: Seq<Seq<char>>, swap: bool) -> Seq<(Seq<char>, Seq<char>)>
    decreases lines.len(),
{
    if lines.len() == 0 {
        Seq::<(Seq<char>, Seq<char>)>::empty()
    } else {
        let before = pairs_of(lines.drop_last(), swap);
        match first_two_words(lines.last()) {
            Some((first, second)) => if swap {
                put(before, second, first)
            } else {
                put(before, first, second)
            },
            None => before,
        }
    }
}

/// Putting a string puts its characters.
pub proof fn lemma_texts_put(es: Seq<(Seq<char>, String)>, k: Seq<char>, v: String)
    requires
        distinct_keys(es),
    ensures
        texts(put(es, k, v)) == put(texts(es), k, v@),
{
    lemma_same_keys(es, texts(es), k);
    assert(texts(put(es, k, v)) =~= put(texts(es), k, v@));
}

fn hash_lines(s: &str, swap: bool) -> (t: Table<String>)
    ensures
        t.wf(),
        texts(t.entries()) == pairs_of(lines_spec(s@), swap),
{
    let chars = chars_of(s);
    let ranges = line_ranges(&chars);
    let ghost lines = lines_spec(s@);
    let mut t: Table<String> = Table::new();
    let mut k: usize = 0;
    assert(texts(t.entries()) =~= pairs_of(lines.take(0), swap));
    while k < ranges.len()
        invariant
            k <= ranges.len(),
            chars@ == s@,
            lines == lines_spec(s@),
            ranges.len() == lines.len(),
            forall|j: int|
                0 <= j < ranges.len() ==> {
                    &&& (#[trigger] ranges[j]).0 <= ranges[j].1 <= chars.len()
                    &&& chars@.subrange(ranges[j].0 as int, ranges[j].1 as int) == lines[j]
                },
            t.wf(),
            texts(t.entries()) == pairs_of(lines.take(k as int), swap),
        decreases ranges.len() - k,
    {
        let (lo, hi) = ranges[k];
        proof {
            assert(lines.take(k + 1).drop_last() =~= lines.take(k as int));
            assert(lines.take(k + 1).last() == lines[k as int]);
            t.lemma_distinct();
        }
        match two_words(&chars, lo, hi) {
            Some((w1, w2)) => {
                let first = string_of(&chars, w1.0, w1.1);
                let second = string_of(&chars, w2.0, w2.1);
                let ghost es = t.entries();
                if swap {
                    proof {
                        lemma_texts_put(es, second@, first);
                    }
                    t.insert(second, first);
                } else {
                    proof {
                        lemma_texts_put(es, first@, second);
                    }
                    t.insert(first, second);
                }
            },
            None => {},
        }
        k = k + 1;
    }
    proof {
        assert(lines.take(k as int) =~= lines);
    }
    t
}

/// The table of a two-column text, from the first column to the second.
pub fn parallel_hash(s: &str) -> (t: Table<String>)
    ensures
        t.wf(),
        texts(t.entries()) == pairs_of(lines_spec(s@), false),
{
    hash_lines(s, false)
}

/// The table of a two-column text, from the second column to the first.
pub fn parallel_hash_rev(s: &str) -> (t: Table<String>)
    ensures
        t.wf(),
        texts(t.entries()) == pairs_of(lines_spec(s@), true),
{
    hash_lines(s, true)
}

/// The isoform table of a text with a gene and a transcript in each line:
/// from transcript to gene. A text without such a line gives none.
pub fn get_isoforms(file: &String) -> (r: Option<Table<String>>)
    ensures
        match r {
            Some(t) => t.wf() && t.entries().len() > 0 && texts(t.entries()) == pairs_of(
                lines_spec(file@),
                true,
            ),
            None => pairs_of(lines_spec(file@), true).len() == 0,
        },
{
    let pairs = parallel_hash_rev(file.as_str());
    if pairs.len() == 0 {
        None
    } else {
        Some(pairs)
    }
}

/// Whether `line` is a record, and `record` is what it says.
pub open spec fn reads_as(line: Seq<char>, record: BedRecord) -> bool {
    parse_failure(line) is None && record.written_by(line)
}

/// Whether line `i` is the first of `lines` that is no record, and fails
/// with the message `e`.
pub open spec fn first_failure(lines: Seq<Seq<char>>, i: int, e: Seq<char>) -> bool {
    &&& 0 <= i < lines.len()
    &&& parse_failure(lines[i]) == Some(e)
    &&& forall|j: int| 0 <= j < i ==> parse_failure(#[trigger] lines[j]) is None
}

/// Whether `records` are the records of `lines`, line by line.
pub open spec fn all_read(lines: Seq<Seq<char>>, records: Seq<BedRecord>) -> bool {
    &&& records.len() == lines.len()
    &&& forall|i: int| 0 <= i < records.len() ==> #[trigger] reads_as(lines[i], records[i])
}

/// Whether some line is no record, and the first such line fails with `e`.
pub open spec fn fails_with(lines: Seq<Seq<char>>, e: Seq<char>) -> bool {
    exists|i: int| #[trigger] first_failure(lines, i, e)
}

/// The records of a BED text, line by line, or the failure of the first
/// line that is no record.
pub fn parallel_parse(s: &str) -> (r: Result<Vec<BedRecord>, String>)
    ensures
        match r {
            Ok(records) => all_read(lines_spec(s@), records@),
            Err(e) => fails_with(lines_spec(s@), e@),
        },
{
    match parse_lines(s) {
        Ok(records) => Ok(records),
        Err((i, e)) => {
            assert(first_failure(lines_spec(s@), i as int, e@));
            Err(e)
        },
    }
}

/// The records of a BED text, line by line, or the first line that is no
/// record, counted from zero, with its failure.
pub fn parse_lines(s: &str) -> (r: Result<Vec<BedRecord>, (usize, String)>)
    ensures
        match r {
            Ok(records) => all_read(lines_spec(s@), records@),
            Err((i, e)) => first_failure(lines_spec(s@), i as int, e@),
        },
{
    let chars = chars_of(s);
    let ranges = line_ranges(&chars);
    let ghost lines = lines_spec(s@);
    let mut records: Vec<BedRecord> = Vec::new();
    let mut k: usize = 0;
    while k < ranges.len()
        invariant
            k <= ranges.len(),
            lines == lines_spec(s@),
            ranges.len() == lines.len(),
            forall|j: int|
                0 <= j < ranges.len() ==> {
                    &&& (#[trigger] ranges[j]).0 <= ranges[j].1 <= chars.len()
                    &&& chars@.subrange(ranges[j].0 as int, ranges[j].1 as int) == lines[j]
                },
            records@.len() == k,
            forall|i: int| 0 <= i < k ==> #[trigger] reads_as(lines[i], records@[i]),
        decreases ranges.len() - k,
    {
        let (lo, hi) = ranges[k];
        let ghost before = records@;
        match BedRecord::parse_chars(&chars, lo, hi) {
            Ok(record) => {
                records.push(record);
                proof {
                    assert(reads_as(lines[k as int], record));
                    assert forall|i: int| 0 <= i < k + 1 implies #[trigger] reads_as(
                        lines[i],
                        records@[i],
                    ) by {
                        if i < k {
                            assert(records@[i] == before[i]);
                            assert(reads_as(lines[i], before[i]));
                        }
                    }
                }
            },
            Err(e) => {
                proof {
                    assert forall|j: int| 0 <= j < k implies parse_failure(
                        #[trigger] lines[j],
                    ) is None by {
                        assert(reads_as(lines[j], records@[j]));
                    }
                    assert(first_failure(lines_spec(s@), k as int, e@));
                }
                return Err((k, e));
            },
        }
        k = k + 1;
    }
    Ok(records)
}

/// What is kept of a transcript for its gene: sequence, start, end, strand.
pub type Track = (String, u32, u32, String);

/// A track with its texts as sequences of characters.
pub type TrackView = (Seq<char>, u32, u32, Seq<char>);

/// What a track holds.
pub open spec fn track_view(t: Track) -> TrackView {
    (t.0@, t.1, t.2, t.3@)
}

/// The entries of a table of tracks, with what each track holds.
pub open spec fn spans(es: Seq<(Seq<char>, Track)>) -> Seq<(Seq<char>, TrackView)> {
    es.map_values(|e: (Seq<char>, Track)| (e.0, track_view(e.1)))
}

/// The track of each transcript name among `records`. Of two records with
/// one name the first is kept.
pub open spec fn track_of(records: Seq<BedRecord>) -> Seq<(Seq<char>, TrackView)>
    decreases records.len(),
{
    if records.len() == 0 {
        Seq::<(Seq<char>, TrackView)>::empty()
    } else {
        let before = track_of(records.drop_last());
        let r = records.last();
        if has_key(before, r.name@) {
            before
        } else {
            before.push((r.name@, (r.chrom@, r.tx_start, r.tx_end, r.strand@)))
        }
    }
}

/// The track of each transcript name among `records`.
pub fn custom_par_parse(records: &Vec<BedRecord>) -> (t: Table<Track>)
    ensures
        t.wf(),
        spans(t.entries()) == track_of(records@),
{
    let mut t: Table<Track> = Table::new();
    let mut k: usize = 0;
    assert(spans(t.entries()) =~= track_of(records@.take(0)));
    while k < records.len()
        invariant
            k <= records.len(),
            t.wf(),
            spans(t.entries()) == track_of(records@.take(k as int)),
        decreases records.len() - k,
    {
        let record = &records[k];
        let ghost es = t.entries();
        proof {
            assert(records@.take(k + 1).drop_last() =~= records@.take(k as int));
            assert(records@.take(k + 1).last() == records@[k as int]);
            t.lemma_distinct();
            lemma_same_keys(es, spans(es), record.name@);
        }
        if t.position(record.name.as_str()).is_none() {
            let track: Track = (
                record.chrom.clone(),
                record.tx_start,
                record.tx_end,
                record.strand.clone(),
            );
            t.insert(record.name.clone(), track);
            assert(spans(t.entries()) =~= spans(es).push(
                (record.name@, (record.chrom@, record.tx_start, record.tx_end, record.strand@)),
            ));
        }
        k = k + 1;
    }
    proof {
        assert(records@.take(k as int) =~= records@);
    }
    t
}

/// The envelopes `envs` with the transcript `t` taken into that of `gene`:
/// a gene that is new gets the transcript's track, and one that is there
/// keeps its sequence and strand and is widened to hold the transcript.
pub open spec fn absorb(envs: Seq<(Seq<char>, TrackView)>, gene: Seq<char>, t: TrackView) -> Seq<
    (Seq<char>, TrackView),
> {
    match find_key(envs, gene) {
        Some(i) => {
            let e = envs[i].1;
            envs.update(i, (gene, (e.0, min(e.1 as int, t.1 as int) as u32, max(
                e.2 as int,
                t.2 as int,
            ) as u32, e.3)))
        },
        None => envs.push((gene, t)),
    }
}

/// The envelope of each gene: the isoform table is gone through in its
/// order, and each of its transcripts that has a track is taken into the
/// envelope of its gene.
pub open spec fn envelopes(
    isoforms: Seq<(Seq<char>, Seq<char>)>,
    tracks: Seq<(Seq<char>, TrackView)>,
) -> Seq<(Seq<char>, TrackView)>
    decreases isoforms.len(),
{
    if isoforms.len() == 0 {
        Seq::<(Seq<char>, TrackView)>::empty()
    } else {
        let before = envelopes(isoforms.drop_last(), tracks);
        let (transcript, gene) = isoforms.last();
        match lookup(tracks, transcript) {
            Some(t) => absorb(before, gene, t),
            None => before,
        }
    }
}

/// The row of a gene with the envelope `e`.
pub open spec fn gene_row(gene: Seq<char>, e: TrackView) -> RowView {
    (e.0, "gene"@, (e.1 + 1) as u32, e.2, e.3, "."@, "gene_id \""@ + gene + "\";"@)
}

/// The rows of the genes, in the order of their envelopes.
pub open spec fn gene_rows(envs: Seq<(Seq<char>, TrackView)>) -> Seq<RowView> {
    envs.map_values(|e: (Seq<char>, TrackView)| gene_row(e.0, e.1))
}

/// Whether the first base of every track can be counted from one in 32 bits.
pub open spec fn starts_fit(tracks: Seq<(Seq<char>, TrackView)>) -> bool {
    forall|i: int| 0 <= i < tracks.len() ==> (#[trigger] tracks[i]).1.1 < u32::MAX
}

/// Taking a transcript into the envelopes keeps the keys distinct, and
/// leaves the gene with an envelope that holds the transcript.
pub proof fn lemma_absorb(envs: Seq<(Seq<char>, TrackView)>, gene: Seq<char>, t: TrackView)
    requires
        distinct_keys(envs),
    ensures
        distinct_keys(absorb(envs, gene, t)),
        same_keys(envs, absorb(envs, gene, t).take(envs.len() as int)),
        lookup(absorb(envs, gene, t), gene) matches Some(e) && e.1 <= t.1 && t.2 <= e.2,
{
    let after = absorb(envs, gene, t);
    assert forall|a: int, b: int|
        0 <= a < after.len() && 0 <= b < after.len() && a != b implies (#[trigger] after[a]).0 != (
    #[trigger] after[b]).0 by {
        match find_key(envs, gene) {
            Some(i) => {
                assert(after[a].0 == envs[a].0);
                assert(after[b].0 == envs[b].0);
            },
            None => {
                if a < envs.len() {
                    assert(after[a] == envs[a]);
                }
                if b < envs.len() {
                    assert(after[b] == envs[b]);
                }
            },
        }
    }
    match find_key(envs, gene) {
        Some(i) => {
            assert(after[i].0 == gene);
            lemma_find_key(after, i);
        },
        None => {
            assert(after[envs.len() as int].0 == gene);
            lemma_find_key(after, envs.len() as int);
        },
    }
}

/// Taking a transcript into the envelopes only widens an envelope.
pub proof fn lemma_absorb_widens(
    envs: Seq<(Seq<char>, TrackView)>,
    gene: Seq<char>,
    t: TrackView,
    other: Seq<char>,
)
    requires
        distinct_keys(envs),
        has_key(envs, other),
    ensures
        lookup(absorb(envs, gene, t), other) matches Some(e) && e.1 <= (lookup(envs, other)->0).1
            && (lookup(envs, other)->0).2 <= e.2,
{
    let after = absorb(envs, gene, t);
    lemma_absorb(envs, gene, t);
    let at = find_key(envs, other)->0;
    assert(after[at].0 == other);
    lemma_find_key(after, at);
}

/// Taking a transcript into the envelopes keeps the starts in range.
pub proof fn lemma_absorb_fits(envs: Seq<(Seq<char>, TrackView)>, gene: Seq<char>, t: TrackView)
    requires
        starts_fit(envs),
        t.1 < u32::MAX,
    ensures
        starts_fit(absorb(envs, gene, t)),
{
    let after = absorb(envs, gene, t);
    assert forall|a: int| 0 <= a < after.len() implies (#[trigger] after[a]).1.1 < u32::MAX by {
        match find_key(envs, gene) {
            Some(i) => {
                if a != i {
                    assert(after[a] == envs[a]);
                } else {
                    assert(envs[i].1.1 < u32::MAX);
                }
            },
            None => {
                if a < envs.len() {
                    assert(after[a] == envs[a]);
                }
            },
        }
    }
}

/// No gene has two envelopes.
pub proof fn lemma_envelopes_distinct(
    isoforms: Seq<(Seq<char>, Seq<char>)>,
    tracks: Seq<(Seq<char>, TrackView)>,
)
    ensures
        distinct_keys(envelopes(isoforms, tracks)),
    decreases isoforms.len(),
{
    if isoforms.len() > 0 {
        lemma_envelopes_distinct(isoforms.drop_last(), tracks);
        let before = envelopes(isoforms.drop_last(), tracks);
        match lookup(tracks, isoforms.last().0) {
            Some(t) => {
                lemma_absorb(before, isoforms.last().1, t);
            },
            None => {},
        }
    }
}

/// The envelope of a gene holds each of its transcripts: one that the
/// isoform table names and that has a track begins no earlier and ends no
/// later than the envelope of its gene.
pub proof fn lemma_envelope_holds(
    isoforms: Seq<(Seq<char>, Seq<char>)>,
    tracks: Seq<(Seq<char>, TrackView)>,
    i: int,
)
    requires
        0 <= i < isoforms.len(),
        lookup(tracks, isoforms[i].0) is Some,
    ensures
        lookup(envelopes(isoforms, tracks), isoforms[i].1) matches Some(e) && e.1 <= (lookup(
            tracks,
            isoforms[i].0,
        )->0).1 && (lookup(tracks, isoforms[i].0)->0).2 <= e.2,
    decreases isoforms.len(),
{
    let before = envelopes(isoforms.drop_last(), tracks);
    let (transcript, gene) = isoforms.last();
    lemma_envelopes_distinct(isoforms.drop_last(), tracks);
    if i == isoforms.len() - 1 {
        lemma_absorb(before, gene, lookup(tracks, transcript)->0);
    } else {
        assert(isoforms.drop_last()[i] == isoforms[i]);
        lemma_envelope_holds(isoforms.drop_last(), tracks, i);
        match lookup(tracks, transcript) {
            Some(t) => {
                lemma_absorb_widens(before, gene, t, isoforms[i].1);
            },
            None => {},
        }
    }
}

/// The envelope of each gene.
pub fn gene_envelopes(isoforms: &Table<String>, gene_track: &Table<Track>) -> (coords: Table<Track>)
    requires
        isoforms.wf(),
        gene_track.wf(),
        starts_fit(spans(gene_track.entries())),
    ensures
        coords.wf(),
        spans(coords.entries()) == envelopes(
            texts(isoforms.entries()),
            spans(gene_track.entries()),
        ),
        starts_fit(spans(coords.entries())),
{
    let ghost iso = texts(isoforms.entries());
    let ghost tracks = spans(gene_track.entries());
    let mut coords: Table<Track> = Table::new();
    let n = isoforms.len();
    let mut k: usize = 0;
    assert(spans(coords.entries()) =~= envelopes(iso.take(0), tracks));
    while k < n
        invariant
            k <= n,
            n == isoforms.entries().len(),
            isoforms.wf(),
            gene_track.wf(),
            iso == texts(isoforms.entries()),
            tracks == spans(gene_track.entries()),
            starts_fit(tracks),
            coords.wf(),
            spans(coords.entries()) == envelopes(iso.take(k as int), tracks),
            starts_fit(spans(coords.entries())),
        decreases n - k,
    {
        let transcript = isoforms.key_at(k);
        let gene = isoforms.value_at(k);
        let ghost es = coords.entries();
        proof {
            assert(iso.take(k + 1).drop_last() =~= iso.take(k as int));
            assert(iso.take(k + 1).last() == (transcript@, gene@));
            gene_track.lemma_distinct();
            lemma_same_keys(gene_track.entries(), tracks, transcript@);
            coords.lemma_distinct();
            lemma_same_keys(es, spans(es), gene@);
        }
        match gene_track.position(transcript.as_str()) {
            Some(at) => {
                let t = gene_track.value_at(at);
                proof {
                    assert(tracks[at as int].1 == track_view(*t));
                    lemma_absorb_fits(spans(es), gene@, track_view(*t));
                }
                match coords.position(gene.as_str()) {
                    Some(j) => {
                        let e = coords.value_at(j);
                        let low = if e.1 < t.1 {
                            e.1
                        } else {
                            t.1
                        };
                        let high = if e.2 > t.2 {
                            e.2
                        } else {
                            t.2
                        };
                        let wider: Track = (e.0.clone(), low, high, e.3.clone());
                        assert(spans(es)[j as int].1 == track_view(*e));
                        coords.set_value(j, wider);
                        assert(spans(coords.entries()) =~= absorb(spans(es), gene@, track_view(*t)));
                    },
                    None => {
                        let fresh: Track = (t.0.clone(), t.1, t.2, t.3.clone());
                        coords.insert(gene.clone(), fresh);
                        assert(spans(coords.entries()) =~= absorb(spans(es), gene@, track_view(*t)));
                    },
                }
            },
            None => {},
        }
        k = k + 1;
    }
    proof {
        assert(iso.take(k as int) =~= iso);
    }
    coords
}

/// The row of a gene with the envelope `e`.
pub fn gene_row_of(gene: &String, e: &Track) -> (row: Row)
    requires
        e.1 < u32::MAX,
    ensures
        row_view(row) == gene_row(gene@, track_view(*e)),
{
    let mut attr = String::new();
    attr.append("gene_id \"");
    attr.append(gene.as_str());
    attr.append("\";");
    (e.0.clone(), "gene".to_owned(), e.1 + 1, e.2, e.3.clone(), ".".to_owned(), attr)
}

/// The rows of the genes: one for each gene that has a transcript with a
/// track, in the order in which the isoform table first names such a
/// transcript of the gene.
pub fn combine_maps_par(isoforms: &Table<String>, gene_track: &Table<Track>) -> (rows: Vec<Row>)
    requires
        isoforms.wf(),
        gene_track.wf(),
        starts_fit(spans(gene_track.entries())),
    ensures
        rows_view(rows@) == gene_rows(
            envelopes(texts(isoforms.entries()), spans(gene_track.entries())),
        ),
{
    let coords = gene_envelopes(isoforms, gene_track);
    let ghost envs = spans(coords.entries());
    let mut rows: Vec<Row> = Vec::new();
    let n = coords.len();
    let mut k: usize = 0;
    assert(rows_view(rows@) =~= gene_rows(envs.take(0)));
    while k < n
        invariant
            k <= n,
            n == coords.entries().len(),
            coords.wf(),
            envs == spans(coords.entries()),
            starts_fit(envs),
            rows_view(rows@) == gene_rows(envs.take(k as int)),
        decreases n - k,
    {
        let gene = coords.key_at(k);
        let e = coords.value_at(k);
        assert(envs[k as int] == (gene@, track_view(*e)));
        let row = gene_row_of(gene, e);
        let ghost before = rows@;
        rows.push(row);
        assert(rows_view(rows@) =~= rows_view(before).push(row_view(row)));
        assert(gene_rows(envs.take(k + 1)) =~= gene_rows(envs.take(k as int)).push(
            gene_row(gene@, track_view(*e)),
        ));
        k = k + 1;
    }
    assert(envs.take(k as int) =~= envs);
    rows
}

} // verus!
