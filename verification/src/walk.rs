//! Moving a position along the exons of a transcript, as if the introns
//! were not there.

use crate::bed::BedRecord;
use vstd::prelude::*;

verus! {

/// Whether `pos` lies in exon `i`, its two ends included.
pub open spec fn holds(r: &BedRecord, i: int, pos: int) -> bool {
    r.exon_start@[i] <= pos <= r.exon_end@[i]
}

/// The first exon from `from` on that holds `pos`; the exon count if none does.
pub open spec fn first_holding(r: &BedRecord, from: int, pos: int) -> int
    decreases r.exon_count - from,
{
    if from >= r.exon_count {
        r.exon_count as int
    } else if holds(r, from, pos) {
        from
    } else {
        first_holding(r, from + 1, pos)
    }
}

/// How many bases lie between `pos` and the high end of exon `i`.
pub open spec fn room_above(r: &BedRecord, i: int, pos: int) -> nat {
    if pos <= r.exon_end@[i] {
        (r.exon_end@[i] - pos) as nat
    } else {
        0
    }
}

/// How many bases lie between the low end of exon `i` and `pos`.
pub open spec fn room_below(r: &BedRecord, i: int, pos: int) -> nat {
    if r.exon_start@[i] <= pos {
        (pos - r.exon_start@[i]) as nat
    } else {
        0
    }
}

/// Where `steps` bases upwards from `pos` in exon `i` end. The walk stays in
/// an exon as long as that exon has room for the steps that are left, and
/// otherwise goes on from the low end of the next exon. It fails when the
/// exons run out.
pub open spec fn walk_up(r: &BedRecord, i: int, pos: int, steps: nat) -> Option<int>
    decreases r.exon_count - i,
{
    if i < 0 || i >= r.exon_count {
        None
    } else if steps <= room_above(r, i, pos) {
        Some(pos + steps)
    } else {
        walk_up(r, i + 1, r.exon_start@[i + 1] as int, (steps - room_above(r, i, pos)) as nat)
    }
}

/// Where `steps` bases downwards from `pos` in exon `i` end, in the same way.
pub open spec fn walk_down(r: &BedRecord, i: int, pos: int, steps: nat) -> Option<int>
    decreases i + 1,
{
    if i < 0 || i >= r.exon_count {
        None
    } else if steps <= room_below(r, i, pos) {
        Some(pos - steps)
    } else {
        walk_down(r, i - 1, r.exon_end@[i - 1] as int, (steps - room_below(r, i, pos)) as nat)
    }
}

/// The position `dist` bases from `pos`, counted in exons only: upwards for
/// a positive distance, downwards for a negative one. There is none when
/// `pos` is outside the transcript or in no exon, or when the exons run out
/// before the distance is covered.
pub open spec fn move_pos_spec(r: &BedRecord, pos: int, dist: int) -> Option<int> {
    let i = first_holding(r, 0, pos);
    if !(r.tx_start <= pos <= r.tx_end) || i >= r.exon_count {
        None
    } else if dist >= 0 {
        walk_up(r, i, pos, dist as nat)
    } else {
        walk_down(r, i, pos, (-dist) as nat)
    }
}

/// The first exon that holds `pos`; the exon count if none does.
pub fn find_exon(record: &BedRecord, pos: u32) -> (i: usize)
    requires
        record.wf(),
    ensures
        i == first_holding(record, 0, pos as int),
        i <= record.exon_count,
        i < record.exon_count ==> holds(record, i as int, pos as int),
{
    let n: usize = record.exon_count as usize;
    let mut i: usize = 0;
    while i < n
        invariant
            record.wf(),
            n == record.exon_count,
            i <= n,
            first_holding(record, 0, pos as int) == first_holding(record, i as int, pos as int),
        decreases n - i,
    {
        if record.exon_start[i] <= pos && pos <= record.exon_end[i] {
            return i;
        }
        i = i + 1;
    }
    i
}

/// Moves `pos` by `dist` bases along the exons.
pub fn move_pos(record: &BedRecord, pos: u32, dist: i32) -> (r: Option<u32>)
    requires
        record.wf(),
    ensures
        match r {
            Some(q) => move_pos_spec(record, pos as int, dist as int) == Some(q as int),
            None => move_pos_spec(record, pos as int, dist as int) is None,
        },
{
    if !(record.tx_start <= pos && pos <= record.tx_end) {
        return None;
    }
    let n: usize = record.exon_count as usize;
    let mut i: usize = find_exon(record, pos);
    if i >= n {
        return None;
    }
    let mut at: u32 = pos;
    if dist >= 0 {
        let mut steps: u32 = dist as u32;
        loop
            invariant
                record.wf(),
                n == record.exon_count,
                i < n,
                walk_up(record, i as int, at as int, steps as nat) == move_pos_spec(
                    record,
                    pos as int,
                    dist as int,
                ),
            decreases n - i,
        {
            let room: u32 = if at <= record.exon_end[i] {
                record.exon_end[i] - at
            } else {
                0
            };
            if steps <= room {
                return Some(at + steps);
            }
            if i + 1 >= n {
                assert(walk_up(record, i + 1, record.exon_start@[i + 1] as int, (steps - room) as nat)
                    is None);
                return None;
            }
            steps = steps - room;
            i = i + 1;
            at = record.exon_start[i];
        }
    } else {
        let mut steps: u32 = if dist == i32::MIN {
            0x8000_0000
        } else {
            (-dist) as u32
        };
        loop
            invariant
                record.wf(),
                n == record.exon_count,
                i < n,
                walk_down(record, i as int, at as int, steps as nat) == move_pos_spec(
                    record,
                    pos as int,
                    dist as int,
                ),
            decreases i,
        {
            let room: u32 = if record.exon_start[i] <= at {
                at - record.exon_start[i]
            } else {
                0
            };
            if steps <= room {
                return Some(at - steps);
            }
            if i == 0 {
                assert(walk_down(record, -1, record.exon_end@[-1] as int, (steps - room) as nat)
                    is None);
                return None;
            }
            steps = steps - room;
            i = i - 1;
            at = record.exon_end[i];
        }
    }
}

/// The last exon below `upto` that holds `pos`; -1 if none does.
pub open spec fn last_holding(r: &BedRecord, upto: int, pos: int) -> int
    decreases upto,
{
    if upto <= 0 {
        -1
    } else if holds(r, upto - 1, pos) {
        upto - 1
    } else {
        last_holding(r, upto - 1, pos)
    }
}

/// In a valid record a later exon begins where an earlier one has ended.
pub proof fn lemma_exons_ascend(r: &BedRecord, a: int, b: int)
    requires
        r.valid(),
        0 <= a < b < r.exon_count,
    ensures
        r.exon_end@[a] <= r.exon_start@[b],
    decreases b - a,
{
    if a + 1 < b {
        lemma_exons_ascend(r, a, b - 1);
        assert(r.exon_start@[b - 1] <= r.exon_end@[b - 1]);
        assert(r.exon_end@[b - 1] <= r.exon_start@[b - 1 + 1]);
    } else {
        assert(r.exon_end@[a] <= r.exon_start@[a + 1]);
    }
}

/// The first exon that holds a position holds it, and no exon before it does.
pub proof fn lemma_first_holding(r: &BedRecord, from: int, pos: int, k: int)
    requires
        0 <= from <= k < r.exon_count,
        holds(r, k, pos),
    ensures
        from <= first_holding(r, from, pos) <= k,
        holds(r, first_holding(r, from, pos), pos),
    decreases r.exon_count - from,
{
    if !holds(r, from, pos) {
        lemma_first_holding(r, from + 1, pos, k);
    }
}

/// Where the first exon from `from` on that holds a position is in range, it holds the position.
pub proof fn lemma_first_holding_found(r: &BedRecord, from: int, pos: int)
    requires
        0 <= from,
        first_holding(r, from, pos) < r.exon_count,
    ensures
        from <= first_holding(r, from, pos),
        holds(r, first_holding(r, from, pos), pos),
    decreases r.exon_count - from,
{
    if from < r.exon_count && !holds(r, from, pos) {
        lemma_first_holding_found(r, from + 1, pos);
    }
}

/// The last exon that holds a position holds it, and no exon after it does.
pub proof fn lemma_last_holding(r: &BedRecord, upto: int, pos: int, k: int)
    requires
        0 <= k < upto <= r.exon_count,
        holds(r, k, pos),
    ensures
        k <= last_holding(r, upto, pos) < upto,
        holds(r, last_holding(r, upto, pos), pos),
    decreases upto,
{
    if !holds(r, upto - 1, pos) {
        lemma_last_holding(r, upto - 1, pos, k);
    }
}

/// Two exons of a valid record that hold one position have only exons
/// without a base between them, and a walk from that position ends in the
/// same place whichever of the two it is begun in.
pub proof fn lemma_same_walk(r: &BedRecord, j: int, k: int, pos: int, steps: nat)
    requires
        r.valid(),
        0 <= j <= k < r.exon_count,
        holds(r, j, pos),
        holds(r, k, pos),
    ensures
        walk_up(r, j, pos, steps) == walk_up(r, k, pos, steps),
        walk_down(r, j, pos, steps) == walk_down(r, k, pos, steps),
    decreases k - j,
{
    if j < k {
        lemma_exons_ascend(r, j, k);
        assert(r.exon_start@[j] <= r.exon_end@[j]);
        assert(r.exon_start@[k] <= r.exon_end@[k]);
        if j + 1 < k {
            lemma_exons_ascend(r, j, j + 1);
            lemma_exons_ascend(r, j + 1, k);
            lemma_exons_ascend(r, j, k - 1);
            lemma_exons_ascend(r, k - 1, k);
        }
        assert(r.exon_start@[j + 1] <= r.exon_end@[j + 1]);
        assert(r.exon_start@[k - 1] <= r.exon_end@[k - 1]);
        assert(r.exon_end@[j] <= r.exon_start@[j + 1]);
        assert(holds(r, j + 1, pos));
        assert(holds(r, k - 1, pos));
        lemma_same_walk(r, j + 1, k, pos, steps);
        lemma_same_walk(r, j, k - 1, pos, steps);
    }
}

/// The exon in which a walk upwards ends; the exon count where it fails.
pub open spec fn landing_up(r: &BedRecord, i: int, pos: int, steps: nat) -> int
    decreases r.exon_count - i,
{
    if i < 0 || i >= r.exon_count {
        r.exon_count as int
    } else if steps <= room_above(r, i, pos) {
        i
    } else {
        landing_up(r, i + 1, r.exon_start@[i + 1] as int, (steps - room_above(r, i, pos)) as nat)
    }
}

/// The exon in which a walk downwards ends; -1 where it fails.
pub open spec fn landing_down(r: &BedRecord, i: int, pos: int, steps: nat) -> int
    decreases i + 1,
{
    if i < 0 || i >= r.exon_count {
        -1
    } else if steps <= room_below(r, i, pos) {
        i
    } else {
        landing_down(r, i - 1, r.exon_end@[i - 1] as int, (steps - room_below(r, i, pos)) as nat)
    }
}

/// A walk downwards within one exon, begun `up` bases higher with `up`
/// more steps, ends in the same place.
pub proof fn lemma_down_from_higher(r: &BedRecord, i: int, pos: int, up: nat, extra: nat)
    requires
        0 <= i < r.exon_count,
        r.exon_start@[i] <= pos,
    ensures
        walk_down(r, i, pos + up, up + extra) == walk_down(r, i, pos, extra),
{
}

/// A walk upwards within one exon, begun `down` bases lower with `down`
/// more steps, ends in the same place.
pub proof fn lemma_up_from_lower(r: &BedRecord, i: int, pos: int, down: nat, extra: nat)
    requires
        0 <= i < r.exon_count,
        pos <= r.exon_end@[i],
    ensures
        walk_up(r, i, pos - down, down + extra) == walk_up(r, i, pos, extra),
{
}

/// Walking up and then down again by as many steps, and `extra` more,
/// ends where walking down by `extra` from the start ends, unless the walk
/// up leaves its exon at once and there is nothing more to walk down.
pub proof fn lemma_up_then_down(r: &BedRecord, i: int, pos: int, steps: nat, extra: nat)
    requires
        r.valid(),
        0 <= i < r.exon_count,
        holds(r, i, pos),
        walk_up(r, i, pos, steps) is Some,
        steps > room_above(r, i, pos) ==> room_above(r, i, pos) + extra > 0,
    ensures
        i <= landing_up(r, i, pos, steps) < r.exon_count,
        holds(r, landing_up(r, i, pos, steps), walk_up(r, i, pos, steps)->0),
        walk_down(
            r,
            landing_up(r, i, pos, steps),
            walk_up(r, i, pos, steps)->0,
            steps + extra,
        ) == walk_down(r, i, pos, extra),
    decreases r.exon_count - i,
{
    let room = room_above(r, i, pos);
    if steps <= room {
        lemma_down_from_higher(r, i, pos, steps, extra);
    } else {
        let next = r.exon_start@[i + 1] as int;
        let left = (steps - room) as nat;
        assert(i + 1 < r.exon_count);
        assert(r.exon_start@[i + 1] <= r.exon_end@[i + 1]);
        lemma_up_then_down(r, i + 1, next, left, room + extra);
        let k = landing_up(r, i + 1, next, left);
        let q = walk_up(r, i + 1, next, left)->0;
        assert(walk_down(r, k, q, left + (room + extra)) == walk_down(r, i + 1, next, room + extra));
        assert(room_below(r, i + 1, next) == 0);
        assert(walk_down(r, i + 1, next, room + extra) == walk_down(
            r,
            i,
            r.exon_end@[i] as int,
            room + extra,
        ));
        lemma_down_from_higher(r, i, pos, room, extra);
    }
}

/// Walking down and then up again by as many steps, and `extra` more,
/// ends where walking up by `extra` from the start ends, unless the walk
/// down leaves its exon at once and there is nothing more to walk up.
pub proof fn lemma_down_then_up(r: &BedRecord, i: int, pos: int, steps: nat, extra: nat)
    requires
        r.valid(),
        0 <= i < r.exon_count,
        holds(r, i, pos),
        walk_down(r, i, pos, steps) is Some,
        steps > room_below(r, i, pos) ==> room_below(r, i, pos) + extra > 0,
    ensures
        0 <= landing_down(r, i, pos, steps) <= i,
        holds(r, landing_down(r, i, pos, steps), walk_down(r, i, pos, steps)->0),
        walk_up(
            r,
            landing_down(r, i, pos, steps),
            walk_down(r, i, pos, steps)->0,
            steps + extra,
        ) == walk_up(r, i, pos, extra),
    decreases i,
{
    let room = room_below(r, i, pos);
    if steps <= room {
        lemma_up_from_lower(r, i, pos, steps, extra);
    } else {
        let next = r.exon_end@[i - 1] as int;
        let left = (steps - room) as nat;
        assert(i - 1 >= 0);
        assert(r.exon_start@[i - 1] <= r.exon_end@[i - 1]);
        lemma_down_then_up(r, i - 1, next, left, room + extra);
        let k = landing_down(r, i - 1, next, left);
        let q = walk_down(r, i - 1, next, left)->0;
        assert(walk_up(r, k, q, left + (room + extra)) == walk_up(r, i - 1, next, room + extra));
        assert(room_above(r, i - 1, next) == 0);
        assert(r.exon_start@[i - 1 + 1] == r.exon_start@[i]);
        assert(walk_up(r, i - 1, next, room + extra) == walk_up(
            r,
            i,
            r.exon_start@[i] as int,
            room + extra,
        ));
        lemma_up_from_lower(r, i, pos, room, extra);
    }
}

/// The number of bases in the exons `lo..hi`.
pub open spec fn exon_bases(r: &BedRecord, lo: int, hi: int) -> int
    decreases hi - lo,
{
    if lo >= hi {
        0
    } else {
        exon_bases(r, lo, hi - 1) + (r.exon_end@[hi - 1] - r.exon_start@[hi - 1])
    }
}

/// How far `pos` in exon `i` is from the start of the transcript when the
/// introns are left out.
pub open spec fn spliced_offset(r: &BedRecord, i: int, pos: int) -> int {
    exon_bases(r, 0, i) + (pos - r.exon_start@[i])
}

/// A walk upwards ends in an exon, as many bases further on in the
/// spliced transcript as it has steps.
pub proof fn lemma_walk_up_distance(r: &BedRecord, i: int, pos: int, steps: nat)
    requires
        r.valid(),
        0 <= i < r.exon_count,
        holds(r, i, pos),
        walk_up(r, i, pos, steps) is Some,
    ensures
        i <= landing_up(r, i, pos, steps) < r.exon_count,
        holds(r, landing_up(r, i, pos, steps), walk_up(r, i, pos, steps)->0),
        spliced_offset(r, landing_up(r, i, pos, steps), walk_up(r, i, pos, steps)->0)
            == spliced_offset(r, i, pos) + steps,
    decreases r.exon_count - i,
{
    if steps > room_above(r, i, pos) {
        let next = r.exon_start@[i + 1] as int;
        let left = (steps - room_above(r, i, pos)) as nat;
        assert(walk_up(r, i + 1, next, left) is Some);
        assert(i + 1 < r.exon_count);
        assert(r.exon_start@[i + 1] <= r.exon_end@[i + 1]);
        lemma_walk_up_distance(
            r,
            i + 1,
            r.exon_start@[i + 1] as int,
            (steps - room_above(r, i, pos)) as nat,
        );
        assert(exon_bases(r, 0, i + 1) == exon_bases(r, 0, i) + (r.exon_end@[i]
            - r.exon_start@[i]));
    }
}

/// A walk downwards ends in an exon, as many bases further back in the
/// spliced transcript as it has steps.
pub proof fn lemma_walk_down_distance(r: &BedRecord, i: int, pos: int, steps: nat)
    requires
        r.valid(),
        0 <= i < r.exon_count,
        holds(r, i, pos),
        walk_down(r, i, pos, steps) is Some,
    ensures
        0 <= landing_down(r, i, pos, steps) <= i,
        holds(r, landing_down(r, i, pos, steps), walk_down(r, i, pos, steps)->0),
        spliced_offset(r, landing_down(r, i, pos, steps), walk_down(r, i, pos, steps)->0)
            == spliced_offset(r, i, pos) - steps,
    decreases i,
{
    if steps > room_below(r, i, pos) {
        let next = r.exon_end@[i - 1] as int;
        let left = (steps - room_below(r, i, pos)) as nat;
        assert(walk_down(r, i - 1, next, left) is Some);
        assert(i - 1 >= 0);
        assert(r.exon_start@[i - 1] <= r.exon_end@[i - 1]);
        lemma_walk_down_distance(
            r,
            i - 1,
            r.exon_end@[i - 1] as int,
            (steps - room_below(r, i, pos)) as nat,
        );
        assert(exon_bases(r, 0, i) == exon_bases(r, 0, i - 1) + (r.exon_end@[i - 1]
            - r.exon_start@[i - 1]));
    }
}

/// The exon in which a move ends.
pub open spec fn landing(r: &BedRecord, pos: int, dist: int) -> int {
    if dist >= 0 {
        landing_up(r, first_holding(r, 0, pos), pos, dist as nat)
    } else {
        landing_down(r, first_holding(r, 0, pos), pos, (-dist) as nat)
    }
}

/// A move covers its distance in the exons: where it succeeds, it ends in
/// an exon, and in the spliced transcript, from which the introns are left
/// out, it ends exactly `dist` bases from where it began.
pub proof fn lemma_move_pos_distance(r: &BedRecord, pos: int, dist: int)
    requires
        r.valid(),
        move_pos_spec(r, pos, dist) is Some,
    ensures
        0 <= landing(r, pos, dist) < r.exon_count,
        holds(r, landing(r, pos, dist), move_pos_spec(r, pos, dist)->0),
        spliced_offset(r, landing(r, pos, dist), move_pos_spec(r, pos, dist)->0) == spliced_offset(
            r,
            first_holding(r, 0, pos),
            pos,
        ) + dist,
{
    lemma_first_holding_found(r, 0, pos);
    if dist >= 0 {
        lemma_walk_up_distance(r, first_holding(r, 0, pos), pos, dist as nat);
    } else {
        lemma_walk_down_distance(r, first_holding(r, 0, pos), pos, (-dist) as nat);
    }
}

/// Whether a move from `pos` by `dist` can be undone: a move upwards must
/// not begin at the high end of the last exon that holds `pos`, nor a move
/// downwards at the low end of the first. From such an end the move
/// crosses an intron at once, and the way back stops at its other side.
pub open spec fn can_return(r: &BedRecord, pos: int, dist: int) -> bool {
    &&& dist > 0 ==> pos < r.exon_end@[last_holding(r, r.exon_count as int, pos)]
    &&& dist < 0 ==> pos > r.exon_start@[first_holding(r, 0, pos)]
}

/// Moving a position, and then moving the result by the opposite distance,
/// gives the position back, where both moves succeed and the first can be
/// undone.
pub proof fn lemma_move_pos_inverse(r: &BedRecord, pos: int, dist: int)
    requires
        r.valid(),
        can_return(r, pos, dist),
        move_pos_spec(r, pos, dist) is Some,
        move_pos_spec(r, move_pos_spec(r, pos, dist)->0, -dist) is Some,
    ensures
        move_pos_spec(r, move_pos_spec(r, pos, dist)->0, -dist) == Some(pos),
{
    let n = r.exon_count as int;
    let i = first_holding(r, 0, pos);
    let q = move_pos_spec(r, pos, dist)->0;
    lemma_first_holding_found(r, 0, pos);
    if dist > 0 {
        let m = last_holding(r, n, pos);
        lemma_last_holding(r, n, pos, i);
        lemma_same_walk(r, i, m, pos, dist as nat);
        lemma_up_then_down(r, m, pos, dist as nat, 0);
        let k = landing_up(r, m, pos, dist as nat);
        lemma_first_holding(r, 0, q, k);
        lemma_same_walk(r, first_holding(r, 0, q), k, q, dist as nat);
    } else if dist < 0 {
        lemma_down_then_up(r, i, pos, (-dist) as nat, 0);
        let k = landing_down(r, i, pos, (-dist) as nat);
        lemma_first_holding(r, 0, q, k);
        lemma_same_walk(r, first_holding(r, 0, q), k, q, (-dist) as nat);
    }
}

} // verus!
