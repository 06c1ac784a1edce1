//! One BED12 line as a transcript record with absolute coordinates, and the
//! reading frame of each of its exons.

use crate::text::{chars_of, parse_u32, parse_u32_spec, split_ranges, split_spec, string_of};
use vstd::math::{max, min};
use vstd::prelude::*;

verus! {

/// A transcript: its span, its coding span, and its exons in block order.
/// All intervals are half-open.
#[derive(Debug, PartialEq)]
pub struct BedRecord {
    pub chrom: String,
    pub tx_start: u32,
    pub tx_end: u32,
    pub name: String,
    pub strand: String,
    pub cds_start: u32,
    pub cds_end: u32,
    pub exon_count: u16,
    pub exon_start: Vec<u32>,
    pub exon_end: Vec<u32>,
}

/// The numbers of a comma-separated list, given its pieces: empty pieces are
/// passed over, and a piece that is no number spoils the whole list.
pub open spec fn numbers_of(tokens: Seq<Seq<char>>) -> Option<Seq<u32>>
    decreases tokens.len(),
{
    if tokens.len() == 0 {
        Some(Seq::<u32>::empty())
    } else {
        match numbers_of(tokens.drop_last()) {
            None => None,
            Some(before) => if tokens.last().len() == 0 {
                Some(before)
            } else {
                match parse_u32_spec(tokens.last()) {
                    Some(v) => Some(before.push(v)),
                    None => None,
                }
            },
        }
    }
}

/// The numbers of the comma-separated list `s`.
pub open spec fn parse_list_spec(s: Seq<char>) -> Option<Seq<u32>> {
    numbers_of(split_spec(s, ','))
}

/// Once a prefix of the pieces is spoiled, so is the whole list.
pub proof fn lemma_numbers_of_spoiled(tokens: Seq<Seq<char>>, k: int)
    requires
        0 <= k <= tokens.len(),
        numbers_of(tokens.take(k)) is None,
    ensures
        numbers_of(tokens) is None,
    decreases tokens.len(),
{
    if k == tokens.len() {
        assert(tokens.take(k) =~= tokens);
    } else {
        assert(tokens.drop_last().take(k) =~= tokens.take(k));
        lemma_numbers_of_spoiled(tokens.drop_last(), k);
    }
}

/// Reads `chars[lo..hi]` as a comma-separated list of numbers.
#[verifier::loop_isolation(false)]
pub fn parse_list(chars: &Vec<char>, lo: usize, hi: usize) -> (r: Option<Vec<u32>>)
    requires
        lo <= hi <= chars.len(),
    ensures
        match r {
            Some(v) => parse_list_spec(chars@.subrange(lo as int, hi as int)) == Some(v@),
            None => parse_list_spec(chars@.subrange(lo as int, hi as int)) is None,
        },
{
    let ranges = split_ranges(chars, lo, hi, ',');
    let ghost tokens = split_spec(chars@.subrange(lo as int, hi as int), ',');
    let mut out: Vec<u32> = Vec::new();
    let mut k: usize = 0;
    while k < ranges.len()
        invariant
            k <= ranges.len(),
            lo <= hi <= chars.len(),
            ranges.len() == tokens.len(),
            forall|j: int|
                0 <= j < ranges.len() ==> {
                    &&& lo <= (#[trigger] ranges[j]).0 <= ranges[j].1 <= hi
                    &&& chars@.subrange(ranges[j].0 as int, ranges[j].1 as int) == tokens[j]
                },
            numbers_of(tokens.take(k as int)) == Some(out@),
        decreases ranges.len() - k,
    {
        let (a, b) = ranges[k];
        proof {
            assert(tokens.take(k + 1).drop_last() =~= tokens.take(k as int));
            assert(tokens.take(k + 1).last() == tokens[k as int]);
        }
        if a < b {
            match parse_u32(chars, a, b) {
                Some(v) => {
                    out.push(v);
                },
                None => {
                    proof {
                        assert(tokens[k as int].len() == b - a);
                        lemma_numbers_of_spoiled(tokens, k + 1);
                    }
                    return None;
                },
            }
        }
        k = k + 1;
    }
    proof {
        assert(tokens.take(k as int) =~= tokens);
    }
    Some(out)
}

/// The tab-separated fields of a line.
pub open spec fn fields_of(line: Seq<char>) -> Seq<Seq<char>> {
    split_spec(line, '\t')
}

/// Whether the five single-number fields of a line are numbers.
pub open spec fn scalars_parse(f: Seq<Seq<char>>) -> bool {
    &&& parse_u32_spec(f[1]) is Some
    &&& parse_u32_spec(f[2]) is Some
    &&& parse_u32_spec(f[6]) is Some
    &&& parse_u32_spec(f[7]) is Some
    &&& parse_u32_spec(f[9]) is Some
}

/// Whether every block, moved to absolute coordinates, still fits in 32 bits.
pub open spec fn blocks_fit(tx_start: u32, starts: Seq<u32>, sizes: Seq<u32>) -> bool {
    forall|i: int|
        0 <= i < starts.len() && i < sizes.len() ==> tx_start + #[trigger] starts[i] + sizes[i]
            <= u32::MAX
}

pub open spec fn too_few_fields() -> Seq<char> {
    "Bed line has less than 12 fields and cannot be parsed into a BedRecord"@
}

pub open spec fn bad_field() -> Seq<char> {
    "Cannot parse field"@
}

pub open spec fn bad_number() -> Seq<char> {
    "Cannot parse number"@
}

pub open spec fn unequal_lists() -> Seq<char> {
    "Exon start and end vectors have different lengths"@
}

pub open spec fn out_of_range() -> Seq<char> {
    "Exon coordinates do not fit in 32 bits"@
}

/// Why a line is no record, if it is none. The checks are made in this
/// order, and the first that fails names the failure.
pub open spec fn parse_failure(line: Seq<char>) -> Option<Seq<char>> {
    let f = fields_of(line);
    if f.len() < 12 {
        Some(too_few_fields())
    } else if !scalars_parse(f) {
        Some(bad_field())
    } else if parse_list_spec(f[11]) is None || parse_list_spec(f[10]) is None {
        Some(bad_number())
    } else if parse_list_spec(f[11])->0.len() != parse_list_spec(f[10])->0.len() {
        Some(unequal_lists())
    } else if !blocks_fit(
        parse_u32_spec(f[1])->0,
        parse_list_spec(f[11])->0,
        parse_list_spec(f[10])->0,
    ) {
        Some(out_of_range())
    } else {
        None
    }
}

impl BedRecord {
    /// Whether this record is what `line` says: the text fields as they
    /// stand, the numbers as written, the block count reduced to 16 bits, and
    /// each block's offset and size recovered by subtracting again.
    pub open spec fn written_by(&self, line: Seq<char>) -> bool {
        let f = fields_of(line);
        let starts = parse_list_spec(f[11])->0;
        let sizes = parse_list_spec(f[10])->0;
        &&& self.chrom@ == f[0]
        &&& self.name@ == f[3]
        &&& self.strand@ == f[5]
        &&& Some(self.tx_start) == parse_u32_spec(f[1])
        &&& Some(self.tx_end) == parse_u32_spec(f[2])
        &&& Some(self.cds_start) == parse_u32_spec(f[6])
        &&& Some(self.cds_end) == parse_u32_spec(f[7])
        &&& self.exon_count == parse_u32_spec(f[9])->0 % 0x1_0000
        &&& self.exon_start@.len() == starts.len()
        &&& self.exon_end@.len() == sizes.len()
        &&& forall|i: int|
            0 <= i < starts.len() ==> #[trigger] self.exon_start@[i] - self.tx_start == starts[i]
        &&& forall|i: int|
            0 <= i < sizes.len() ==> #[trigger] self.exon_end@[i] - self.exon_start@[i] == sizes[i]
    }

    /// Reads one BED12 line. Fields beyond the twelfth are ignored.
    pub fn parse(line: &str) -> (r: Result<BedRecord, String>)
        ensures
            match r {
                Ok(record) => parse_failure(line@) is None && record.written_by(line@),
                Err(e) => parse_failure(line@) == Some(e@),
            },
    {
        let chars = chars_of(line);
        proof {
            assert(chars@.subrange(0, chars@.len() as int) =~= chars@);
        }
        BedRecord::parse_chars(&chars, 0, chars.len())
    }

    /// Reads the BED12 line `chars[lo..hi]`.
    #[verifier::loop_isolation(false)]
    pub fn parse_chars(chars: &Vec<char>, lo: usize, hi: usize) -> (r: Result<BedRecord, String>)
        requires
            lo <= hi <= chars.len(),
        ensures
            match r {
                Ok(record) => parse_failure(chars@.subrange(lo as int, hi as int)) is None
                    && record.written_by(chars@.subrange(lo as int, hi as int)),
                Err(e) => parse_failure(chars@.subrange(lo as int, hi as int)) == Some(e@),
            },
    {
        let fields = split_ranges(chars, lo, hi, '\t');
        if fields.len() < 12 {
            return Err(
                "Bed line has less than 12 fields and cannot be parsed into a BedRecord".to_owned(),
            );
        }
        let ghost f = fields_of(chars@.subrange(lo as int, hi as int));
        assert(forall|k: int|
            0 <= k < 12 ==> chars@.subrange(
                (#[trigger] fields[k]).0 as int,
                fields[k].1 as int,
            ) == f[k]);
        let chrom = string_of(chars, fields[0].0, fields[0].1);
        let name = string_of(chars, fields[3].0, fields[3].1);
        let strand = string_of(chars, fields[5].0, fields[5].1);

        let tx_start = parse_u32(chars, fields[1].0, fields[1].1);
        let tx_end = parse_u32(chars, fields[2].0, fields[2].1);
        let cds_start = parse_u32(chars, fields[6].0, fields[6].1);
        let cds_end = parse_u32(chars, fields[7].0, fields[7].1);
        let count = parse_u32(chars, fields[9].0, fields[9].1);
        if tx_start.is_none() || tx_end.is_none() || cds_start.is_none() || cds_end.is_none()
            || count.is_none() {
            return Err("Cannot parse field".to_owned());
        }
        let tx_start = tx_start.unwrap();
        let tx_end = tx_end.unwrap();
        let cds_start = cds_start.unwrap();
        let cds_end = cds_end.unwrap();
        let exon_count = (count.unwrap() % 0x1_0000) as u16;

        let starts = parse_list(chars, fields[11].0, fields[11].1);
        let sizes = parse_list(chars, fields[10].0, fields[10].1);
        if starts.is_none() || sizes.is_none() {
            return Err("Cannot parse number".to_owned());
        }
        let starts = starts.unwrap();
        let sizes = sizes.unwrap();
        if starts.len() != sizes.len() {
            return Err("Exon start and end vectors have different lengths".to_owned());
        }
        let mut exon_start: Vec<u32> = Vec::new();
        let mut exon_end: Vec<u32> = Vec::new();
        let mut i: usize = 0;
        while i < starts.len()
            invariant
                i <= starts.len() == sizes.len(),
                exon_start.len() == i,
                exon_end.len() == i,
                forall|j: int| 0 <= j < i ==> tx_start + #[trigger] starts[j] + sizes[j] <= u32::MAX,
                forall|j: int| 0 <= j < i ==> #[trigger] exon_start[j] == tx_start + starts[j],
                forall|j: int| 0 <= j < i ==> #[trigger] exon_end[j] == exon_start[j] + sizes[j],
            decreases starts.len() - i,
        {
            let end: u64 = tx_start as u64 + starts[i] as u64 + sizes[i] as u64;
            if end > 0xffff_ffff {
                assert(!blocks_fit(tx_start, starts@, sizes@));
                return Err("Exon coordinates do not fit in 32 bits".to_owned());
            }
            exon_start.push(tx_start + starts[i]);
            exon_end.push(end as u32);
            i = i + 1;
        }
        Ok(
            BedRecord {
                chrom,
                tx_start,
                tx_end,
                name,
                strand,
                cds_start,
                cds_end,
                exon_count,
                exon_start,
                exon_end,
            },
        )
    }
}

/// Whether `strand` is exactly `+`.
pub fn is_plus(strand: &str) -> (r: bool)
    ensures
        r == (strand@ == seq!['+']),
{
    let r = strand.unicode_len() == 1 && strand.get_char(0) == '+';
    proof {
        if r {
            assert(strand@ =~= seq!['+']);
        }
    }
    r
}

/// Whether `strand` is exactly `-`.
pub fn is_minus(strand: &str) -> (r: bool)
    ensures
        r == (strand@ == seq!['-']),
{
    let r = strand.unicode_len() == 1 && strand.get_char(0) == '-';
    proof {
        if r {
            assert(strand@ =~= seq!['-']);
        }
    }
    r
}

impl BedRecord {
    /// Both exon lists have as many entries as the record counts exons.
    pub open spec fn wf(&self) -> bool {
        &&& self.exon_start@.len() == self.exon_count
        &&& self.exon_end@.len() == self.exon_count
    }

    /// What the data model asks of a record: a non-empty span; exons that
    /// are intervals, ascending, apart from each other and inside the span;
    /// and a coding span inside the span.
    pub open spec fn valid(&self) -> bool {
        &&& self.wf()
        &&& self.tx_start < self.tx_end
        &&& self.tx_start <= self.cds_start <= self.cds_end <= self.tx_end
        &&& forall|i: int|
            0 <= i < self.exon_count ==> self.tx_start <= #[trigger] self.exon_start@[i]
                <= self.exon_end@[i] <= self.tx_end
        &&& forall|i: int|
            0 <= i < self.exon_count - 1 ==> #[trigger] self.exon_end@[i] <= self.exon_start@[i + 1]
    }

    /// Translation runs with ascending coordinates. Any strand but `+` is
    /// read as the reverse strand.
    pub open spec fn forward(&self) -> bool {
        self.strand@ == seq!['+']
    }

    /// Where the coding part of exon `i` begins, if it has one.
    pub open spec fn coding_start(&self, i: int) -> int {
        max(self.exon_start@[i] as int, self.cds_start as int)
    }

    /// Where the coding part of exon `i` ends, if it has one.
    pub open spec fn coding_end(&self, i: int) -> int {
        min(self.exon_end@[i] as int, self.cds_end as int)
    }

    /// The number of coding bases in exon `i`.
    pub open spec fn coding_len(&self, i: int) -> nat {
        if self.coding_start(i) < self.coding_end(i) {
            (self.coding_end(i) - self.coding_start(i)) as nat
        } else {
            0
        }
    }

    /// The number of coding bases in exons `lo..hi`.
    pub open spec fn coding_sum(&self, lo: int, hi: int) -> nat
        decreases hi - lo,
    {
        if lo >= hi {
            0
        } else {
            self.coding_sum(lo, hi - 1) + self.coding_len(hi - 1)
        }
    }

    /// The number of coding bases translated before exon `i` is reached.
    pub open spec fn coding_before(&self, i: int) -> nat {
        if self.forward() {
            self.coding_sum(0, i)
        } else {
            self.coding_sum(i + 1, self.exon_count as int)
        }
    }

    /// The frame of exon `i`: the number of coding bases before it, modulo
    /// three, or -1 where the exon has no coding base.
    pub open spec fn frame(&self, i: int) -> int {
        if self.coding_len(i) > 0 {
            (self.coding_before(i) % 3) as int
        } else {
            -1
        }
    }

    /// A sum of coding bases can also be taken apart at its low end.
    pub proof fn lemma_coding_sum_low(&self, lo: int, hi: int)
        requires
            lo < hi,
        ensures
            self.coding_sum(lo, hi) == self.coding_len(lo) + self.coding_sum(lo + 1, hi),
        decreases hi - lo,
    {
        if lo + 1 < hi {
            self.lemma_coding_sum_low(lo, hi - 1);
        } else {
            assert(self.coding_sum(lo, lo) == 0);
            assert(self.coding_sum(lo + 1, hi) == 0);
        }
    }

    /// A sum of coding bases over adjoining ranges is the sum of the two.
    pub proof fn lemma_coding_sum_split(&self, lo: int, mid: int, hi: int)
        requires
            lo <= mid <= hi,
        ensures
            self.coding_sum(lo, hi) == self.coding_sum(lo, mid) + self.coding_sum(mid, hi),
        decreases hi - mid,
    {
        if mid < hi {
            self.lemma_coding_sum_split(lo, mid, hi - 1);
        }
    }

    /// Exons without coding bases add nothing to a sum.
    pub proof fn lemma_coding_sum_empty(&self, lo: int, hi: int)
        requires
            forall|k: int| lo <= k < hi ==> self.coding_len(k) == 0,
        ensures
            self.coding_sum(lo, hi) == 0,
        decreases hi - lo,
    {
        if lo < hi {
            self.lemma_coding_sum_empty(lo, hi - 1);
        }
    }

    /// Walked in translation order, the frames add up: a coding exon `j`
    /// that follows a coding exon `i`, with no coding exon between them,
    /// has the frame of `i` advanced by the coding bases of `i`.
    pub proof fn lemma_frames_accumulate(&self, i: int, j: int)
        requires
            0 <= i < self.exon_count,
            0 <= j < self.exon_count,
            self.coding_len(i) > 0,
            self.coding_len(j) > 0,
            self.forward() ==> i < j && forall|k: int| i < k < j ==> self.coding_len(k) == 0,
            !self.forward() ==> j < i && forall|k: int| j < k < i ==> self.coding_len(k) == 0,
        ensures
            self.frame(j) == (self.frame(i) + self.coding_len(i)) % 3,
    {
        let n = self.exon_count as int;
        if self.forward() {
            self.lemma_coding_sum_split(0, i, j);
            self.lemma_coding_sum_low(i, j);
            self.lemma_coding_sum_empty(i + 1, j);
        } else {
            self.lemma_coding_sum_split(j + 1, i, n);
            self.lemma_coding_sum_low(i, n);
            self.lemma_coding_sum_empty(j + 1, i);
        }
    }

    /// The number of coding bases in exon `i`.
    pub fn coding_bases(&self, i: usize) -> (n: u32)
        requires
            self.wf(),
            i < self.exon_count,
        ensures
            n == self.coding_len(i as int),
    {
        let s = if self.exon_start[i] > self.cds_start {
            self.exon_start[i]
        } else {
            self.cds_start
        };
        let e = if self.exon_end[i] < self.cds_end {
            self.exon_end[i]
        } else {
            self.cds_end
        };
        if s < e {
            e - s
        } else {
            0
        }
    }

    /// The frame of every exon, in block order.
    pub fn get_frames(&self) -> (frames: Vec<i16>)
        requires
            self.wf(),
        ensures
            frames@.len() == self.exon_count,
            forall|i: int| 0 <= i < self.exon_count ==> #[trigger] frames@[i] == self.frame(i),
            forall|i: int| 0 <= i < self.exon_count ==> -1 <= #[trigger] frames@[i] <= 2,
    {
        let n: usize = self.exon_count as usize;
        let mut frames: Vec<i16> = Vec::new();
        let mut k: usize = 0;
        while k < n
            invariant
                k <= n,
                frames@.len() == k,
            decreases n - k,
        {
            frames.push(-1);
            k = k + 1;
        }
        let mut coding: u64 = 0;
        if is_plus(self.strand.as_str()) {
            let mut i: usize = 0;
            while i < n
                invariant
                    self.wf(),
                    self.forward(),
                    n == self.exon_count,
                    i <= n,
                    frames@.len() == n,
                    coding == self.coding_sum(0, i as int),
                    coding <= i * 0xffff_ffff,
                    forall|j: int| 0 <= j < i ==> #[trigger] frames@[j] == self.frame(j),
                decreases n - i,
            {
                let bases = self.coding_bases(i);
                if bases > 0 {
                    frames.set(i, (coding % 3) as i16);
                } else {
                    frames.set(i, -1);
                }
                coding = coding + bases as u64;
                i = i + 1;
            }
        } else {
            let mut i: usize = n;
            while i > 0
                invariant
                    self.wf(),
                    !self.forward(),
                    n == self.exon_count,
                    i <= n,
                    frames@.len() == n,
                    coding == self.coding_sum(i as int, n as int),
                    coding <= (n - i) * 0xffff_ffff,
                    forall|j: int| i <= j < n ==> #[trigger] frames@[j] == self.frame(j),
                decreases i,
            {
                i = i - 1;
                let bases = self.coding_bases(i);
                if bases > 0 {
                    frames.set(i, (coding % 3) as i16);
                } else {
                    frames.set(i, -1);
                }
                proof {
                    self.lemma_coding_sum_low(i as int, n as int);
                }
                coding = coding + bases as u64;
            }
        }
        frames
    }

    /// Whether both exon lists have as many entries as the record counts
    /// exons.
    pub fn is_well_formed(&self) -> (r: bool)
        ensures
            r == self.wf(),
    {
        self.exon_start.len() == self.exon_count as usize && self.exon_end.len()
            == self.exon_count as usize
    }

    /// Whether the record meets the data model.
    pub fn is_valid(&self) -> (r: bool)
        ensures
            r == self.valid(),
    {
        let n: usize = self.exon_count as usize;
        if self.exon_start.len() != n || self.exon_end.len() != n {
            return false;
        }
        if !(self.tx_start < self.tx_end && self.tx_start <= self.cds_start && self.cds_start
            <= self.cds_end && self.cds_end <= self.tx_end) {
            return false;
        }
        let mut i: usize = 0;
        while i < n
            invariant
                self.wf(),
                n == self.exon_count,
                i <= n,
                forall|j: int|
                    0 <= j < i ==> self.tx_start <= #[trigger] self.exon_start@[j]
                        <= self.exon_end@[j] <= self.tx_end,
                forall|j: int|
                    0 <= j < i && j < n - 1 ==> #[trigger] self.exon_end@[j] <= self.exon_start@[j
                        + 1],
            decreases n - i,
        {
            if !(self.tx_start <= self.exon_start[i] && self.exon_start[i] <= self.exon_end[i]
                && self.exon_end[i] <= self.tx_end) {
                return false;
            }
            if i + 1 < n && self.exon_end[i] > self.exon_start[i + 1] {
                return false;
            }
            i = i + 1;
        }
        true
    }
}

} // verus!
