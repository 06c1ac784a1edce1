//! The first and the last codon of a transcript's coding span, each possibly
//! split between the terminal exon and its neighbour.

use crate::bed::{is_plus, BedRecord};
use vstd::math::min;
use vstd::prelude::*;

verus! {

/// Up to three bases in one or two pieces. The first piece lies in exon
/// `index`; the second, where there is one, in the exon next to it. A piece
/// that is not used has length zero.
#[derive(Debug, Clone, Copy)]
pub struct Codon {
    pub start: u32,
    pub end: u32,
    pub index: u32,
    pub start2: u32,
    pub end2: u32,
}

impl Codon {
    /// The number of bases in both pieces together.
    pub open spec fn size(&self) -> int {
        (self.end - self.start) + (self.end2 - self.start2)
    }

    /// The codon without a base.
    pub open spec fn empty() -> Codon {
        Codon { start: 0, end: 0, index: 0, start2: 0, end2: 0 }
    }

    /// The codon without a base.
    pub fn new() -> (c: Codon)
        ensures
            c == Codon::empty(),
    {
        Codon { start: 0, end: 0, index: 0, start2: 0, end2: 0 }
    }
}

/// Whether the codon has all three of its bases.
pub fn codon_complete(codon: &Codon) -> (r: bool)
    ensures
        r == (codon.size() == 3),
{
    (codon.end as i64 - codon.start as i64) + (codon.end2 as i64 - codon.start2 as i64) == 3
}

/// The frame of exon `i` seen from the low end of its coding part: the
/// number of bases, modulo three, by which that end is past a codon boundary.
pub open spec fn low_boundary_frame(r: &BedRecord, i: int) -> int {
    if r.forward() {
        r.frame(i)
    } else {
        (r.frame(i) + r.coding_len(i)) % 3
    }
}

/// The frame of exon `i` seen from the high end of its coding part.
pub open spec fn high_boundary_frame(r: &BedRecord, i: int) -> int {
    if r.forward() {
        (r.frame(i) + r.coding_len(i)) % 3
    } else {
        r.frame(i)
    }
}

/// Whether a codon that found `have` of its bases in the terminal exon looks
/// for the rest in the neighbour: only when it lacks some, there is a
/// neighbour, and it found at least as many as it lacks.
pub open spec fn borrows(r: &BedRecord, have: nat) -> bool {
    have < 3 && r.exon_count >= 2 && have >= 3 - have
}

/// The codon at the low end of the coding span, read off the first exon.
/// There is none in a record without exons. It is empty where the first
/// exon has no coding base or does not begin on a codon boundary.
pub open spec fn first_codon_spec(r: &BedRecord) -> Option<Codon> {
    if r.exon_count == 0 {
        None
    } else if r.frame(0) < 0 || low_boundary_frame(r, 0) != 0 {
        Some(Codon::empty())
    } else {
        let have = r.coding_len(0);
        let start = r.coding_start(0);
        let whole = Codon {
            start: start as u32,
            end: (start + min(3, have as int)) as u32,
            index: 0,
            start2: 0,
            end2: 0,
        };
        let lent = min(3 - have, r.coding_len(1) as int);
        if borrows(r, have) && lent > 0 {
            Some(
                Codon {
                    start2: r.coding_start(1) as u32,
                    end2: (r.coding_start(1) + lent) as u32,
                    ..whole
                },
            )
        } else {
            Some(whole)
        }
    }
}

/// The codon at the high end of the coding span, read off the last exon.
/// There is none in a record without exons. It is empty where the last exon
/// has no coding base or does not end on a codon boundary.
pub open spec fn last_codon_spec(r: &BedRecord) -> Option<Codon> {
    let last = r.exon_count - 1;
    if r.exon_count == 0 {
        None
    } else if r.frame(last) < 0 || high_boundary_frame(r, last) != 0 {
        Some(Codon::empty())
    } else {
        let have = r.coding_len(last);
        let end = r.coding_end(last);
        let whole = Codon {
            start: (end - min(3, have as int)) as u32,
            end: end as u32,
            index: last as u32,
            start2: 0,
            end2: 0,
        };
        let lent = min(3 - have, r.coding_len(last - 1) as int);
        if borrows(r, have) && lent > 0 {
            Some(
                Codon {
                    start2: (r.coding_end(last - 1) - lent) as u32,
                    end2: r.coding_end(last - 1) as u32,
                    ..whole
                },
            )
        } else {
            Some(whole)
        }
    }
}

/// The pieces of `c` are intervals of coding bases: the first in exon
/// `anchor`, the second, if it is used, in exon `neighbour`.
pub open spec fn codon_within(r: &BedRecord, c: Codon, anchor: int, neighbour: int) -> bool {
    &&& c.start <= c.end
    &&& c.start2 <= c.end2
    &&& c.size() <= 3
    &&& c.start < c.end ==> c.index == anchor && r.coding_start(anchor) <= c.start && c.end
        <= r.coding_end(anchor)
    &&& c.start2 < c.end2 ==> c.start < c.end && 0 <= neighbour < r.exon_count && r.coding_start(
        neighbour,
    ) <= c.start2 && c.end2 <= r.coding_end(neighbour)
}

/// The codon at the low end of the coding span.
pub fn first_codon(record: &BedRecord) -> (r: Option<Codon>)
    requires
        record.wf(),
    ensures
        r == first_codon_spec(record),
        r matches Some(c) ==> codon_within(record, c, 0, 1),
{
    if record.exon_count == 0 {
        return None;
    }
    let frames = record.get_frames();
    let frame = frames[0];
    if frame < 0 {
        return Some(Codon::new());
    }
    let have = record.coding_bases(0);
    let boundary: u64 = if is_plus(record.strand.as_str()) {
        frame as u64
    } else {
        (frame as u64 + have as u64) % 3
    };
    if boundary != 0 {
        return Some(Codon::new());
    }
    let start = if record.exon_start[0] > record.cds_start {
        record.exon_start[0]
    } else {
        record.cds_start
    };
    let taken: u32 = if have < 3 {
        have
    } else {
        3
    };
    let mut codon = Codon { start: start, end: start + taken, index: 0, start2: 0, end2: 0 };
    if have < 3 && record.exon_count >= 2 && have >= 3 - have {
        let spare = record.coding_bases(1);
        let lent: u32 = if spare < 3 - have {
            spare
        } else {
            3 - have
        };
        if lent > 0 {
            let start2 = if record.exon_start[1] > record.cds_start {
                record.exon_start[1]
            } else {
                record.cds_start
            };
            codon.start2 = start2;
            codon.end2 = start2 + lent;
        }
    }
    Some(codon)
}

/// The codon at the high end of the coding span.
pub fn last_codon(record: &BedRecord) -> (r: Option<Codon>)
    requires
        record.wf(),
    ensures
        r == last_codon_spec(record),
        r matches Some(c) ==> codon_within(record, c, record.exon_count - 1, record.exon_count - 2),
{
    if record.exon_count == 0 {
        return None;
    }
    let last: usize = (record.exon_count - 1) as usize;
    let frames = record.get_frames();
    let frame = frames[last];
    if frame < 0 {
        return Some(Codon::new());
    }
    let have = record.coding_bases(last);
    let boundary: u64 = if is_plus(record.strand.as_str()) {
        (frame as u64 + have as u64) % 3
    } else {
        frame as u64
    };
    if boundary != 0 {
        return Some(Codon::new());
    }
    let end = if record.exon_end[last] < record.cds_end {
        record.exon_end[last]
    } else {
        record.cds_end
    };
    let taken: u32 = if have < 3 {
        have
    } else {
        3
    };
    let mut codon = Codon {
        start: end - taken,
        end: end,
        index: last as u32,
        start2: 0,
        end2: 0,
    };
    if have < 3 && record.exon_count >= 2 && have >= 3 - have {
        let spare = record.coding_bases(last - 1);
        let lent: u32 = if spare < 3 - have {
            spare
        } else {
            3 - have
        };
        if lent > 0 {
            let end2 = if record.exon_end[last - 1] < record.cds_end {
                record.exon_end[last - 1]
            } else {
                record.cds_end
            };
            codon.start2 = end2 - lent;
            codon.end2 = end2;
        }
    }
    Some(codon)
}

/// A record whose coding span is empty has neither a first nor a last codon
/// that is complete: where there is a codon at all, it has no base.
pub proof fn lemma_noncoding_has_no_codon(r: &BedRecord)
    requires
        r.cds_start >= r.cds_end,
    ensures
        first_codon_spec(r) matches Some(c) ==> c == Codon::empty() && c.size() != 3,
        last_codon_spec(r) matches Some(c) ==> c == Codon::empty() && c.size() != 3,
{
}

/// Whether three coding bases stand at the low end of the coding span: the
/// first exon begins its coding part on a codon boundary, and holds three
/// bases itself, or two with a third at the start of the second exon's
/// coding part.
pub open spec fn codon_at_low_end(r: &BedRecord) -> bool {
    &&& r.exon_count > 0
    &&& r.coding_len(0) > 0
    &&& low_boundary_frame(r, 0) == 0
    &&& r.coding_len(0) >= 3 || (r.exon_count >= 2 && r.coding_len(0) == 2 && r.coding_len(1)
        >= 1)
}

/// Whether three coding bases stand at the high end of the coding span: the
/// last exon ends its coding part on a codon boundary, and holds three bases
/// itself, or two with a third at the end of the coding part of the exon
/// before it.
pub open spec fn codon_at_high_end(r: &BedRecord) -> bool {
    let last = r.exon_count - 1;
    &&& r.exon_count > 0
    &&& r.coding_len(last) > 0
    &&& high_boundary_frame(r, last) == 0
    &&& r.coding_len(last) >= 3 || (r.exon_count >= 2 && r.coding_len(last) == 2 && r.coding_len(
        last - 1,
    ) >= 1)
}

/// The first codon is complete exactly where three coding bases stand at
/// the low end of the coding span, and the last codon exactly where three
/// stand at its high end.
pub proof fn lemma_complete_codons(r: &BedRecord)
    requires
        r.wf(),
    ensures
        (first_codon_spec(r) matches Some(c) && c.size() == 3) <==> codon_at_low_end(r),
        (last_codon_spec(r) matches Some(c) && c.size() == 3) <==> codon_at_high_end(r),
{
}

} // verus!
