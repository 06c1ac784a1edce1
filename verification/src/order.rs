//! The order of the output: by sequence name in natural order, then by
//! start, rows that tie staying as they came.

use crate::lines::{row_view, rows_view, Row, RowView};
use std::cmp::Ordering;
use vstd::prelude::*;

verus! {

/// How `natord::compare` orders two strings: negative where the left one
/// comes first, zero where neither does, positive where the right one does.
pub uninterp spec fn natural_order(left: Seq<char>, right: Seq<char>) -> int;

/// `natord::compare`: a comparison of two strings that depends on their
/// characters alone. Its three outcomes are handed on as -1, 0 and 1.
#[verifier::external_body]
fn natural_compare(left: &str, right: &str) -> (r: i8)
    ensures
        r == natural_order(left@, right@),
        -1 <= r <= 1,
{
    match natord::compare(left, right) {
        Ordering::Less => -1,
        Ordering::Equal => 0,
        Ordering::Greater => 1,
    }
}

/// How two rows are ordered: by their sequence names in natural order and,
/// where that does not decide, by their starts.
pub open spec fn row_order(a: RowView, b: RowView) -> int {
    let by_name = natural_order(a.0, b.0);
    if by_name != 0 {
        by_name
    } else if a.2 < b.2 {
        -1
    } else if a.2 > b.2 {
        1
    } else {
        0
    }
}

/// How rows `i` and `j` of `rows` are ordered.
pub open spec fn pair_order(rows: Seq<RowView>, i: int, j: int) -> int {
    row_order(rows[i], rows[j])
}

/// Whether row `i` belongs before row `j`: it is ordered first, or the two
/// tie and it came first.
pub open spec fn before(rows: Seq<RowView>, i: int, j: int) -> bool {
    pair_order(rows, i, j) < 0 || (pair_order(rows, i, j) == 0 && i < j)
}

/// Whether the rows are ordered without contradiction: two rows compare
/// the opposite way round when they are exchanged, and a row that is not
/// after a second, which is not after a third, is not after the third.
pub open spec fn consistent(rows: Seq<RowView>) -> bool {
    &&& forall|i: int, j: int|
        0 <= i < rows.len() && 0 <= j < rows.len() ==> #[trigger] pair_order(rows, i, j)
            == -pair_order(rows, j, i)
    &&& forall|i: int, j: int, k: int|
        0 <= i < rows.len() && 0 <= j < rows.len() && 0 <= k < rows.len() && #[trigger] pair_order(
            rows,
            i,
            j,
        ) <= 0 && #[trigger] pair_order(rows, j, k) <= 0 ==> pair_order(rows, i, k) <= 0
}

/// Whether `s` names each of the rows `lo..hi` once.
pub open spec fn names_each(s: Seq<usize>, lo: int, hi: int) -> bool {
    &&& s.len() == hi - lo
    &&& forall|k: int| 0 <= k < s.len() ==> lo <= #[trigger] s[k] < hi
    &&& forall|a: int, b: int| 0 <= a < b < s.len() ==> #[trigger] s[a] != #[trigger] s[b]
}

/// Whether each row that `s` names belongs before those it names later.
pub open spec fn in_order(rows: Seq<RowView>, s: Seq<usize>) -> bool {
    forall|a: int, b: int|
        0 <= a < b < s.len() ==> before(rows, #[trigger] s[a] as int, #[trigger] s[b] as int)
}

/// Whether no two neighbours in `s` are the wrong way round: the first
/// belongs before the second, or at least the second does not belong
/// before the first.
pub open spec fn settled(rows: Seq<RowView>, s: Seq<usize>) -> bool {
    forall|k: int|
        0 <= k < s.len() - 1 ==> before(rows, #[trigger] s[k] as int, s[k + 1] as int) || !before(
            rows,
            s[k + 1] as int,
            s[k] as int,
        )
}

/// Among rows that are ordered without contradiction, of two different
/// rows one belongs before the other.
pub proof fn lemma_before_total(rows: Seq<RowView>, i: int, j: int)
    requires
        consistent(rows),
        0 <= i < rows.len(),
        0 <= j < rows.len(),
        i != j,
        !before(rows, i, j),
    ensures
        before(rows, j, i),
{
    assert(pair_order(rows, i, j) == -pair_order(rows, j, i));
}

/// Among rows that are ordered without contradiction, belonging before
/// carries over from row to row.
pub proof fn lemma_before_trans(rows: Seq<RowView>, i: int, j: int, k: int)
    requires
        consistent(rows),
        0 <= i < rows.len(),
        0 <= j < rows.len(),
        0 <= k < rows.len(),
        before(rows, i, j),
        before(rows, j, k),
    ensures
        before(rows, i, k),
{
    assert(pair_order(rows, i, j) <= 0 && pair_order(rows, j, k) <= 0);
    assert(pair_order(rows, i, k) <= 0);
    if pair_order(rows, i, k) == 0 {
        assert(pair_order(rows, k, i) == -pair_order(rows, i, k));
        assert(pair_order(rows, k, i) <= 0 && pair_order(rows, i, j) <= 0);
        assert(pair_order(rows, k, j) <= 0);
        assert(pair_order(rows, j, k) == -pair_order(rows, k, j));
        assert(pair_order(rows, j, k) <= 0 && pair_order(rows, k, i) <= 0);
        assert(pair_order(rows, j, i) <= 0);
        assert(pair_order(rows, i, j) == -pair_order(rows, j, i));
    }
}

/// How two rows are ordered: -1, 0 or 1.
pub fn compare_rows(a: &Row, b: &Row) -> (r: i8)
    ensures
        r == row_order(row_view(*a), row_view(*b)),
{
    let by_name = natural_compare(a.0.as_str(), b.0.as_str());
    if by_name != 0 {
        by_name
    } else if a.2 < b.2 {
        -1
    } else if a.2 > b.2 {
        1
    } else {
        0
    }
}

/// Whether row `i` belongs before row `j`.
pub fn belongs_before(rows: &Vec<Row>, i: usize, j: usize) -> (r: bool)
    requires
        i < rows.len(),
        j < rows.len(),
    ensures
        r == before(rows_view(rows@), i as int, j as int),
{
    let c = compare_rows(&rows[i], &rows[j]);
    c < 0 || (c == 0 && i < j)
}

/// Merges two runs of row numbers, taking from the second only a row that
/// belongs before the next row of the first.
fn merge(
    rows: &Vec<Row>,
    left: &Vec<usize>,
    right: &Vec<usize>,
    Ghost(lo): Ghost<int>,
    Ghost(mid): Ghost<int>,
    Ghost(hi): Ghost<int>,
) -> (out: Vec<usize>)
    requires
        0 <= lo <= mid <= hi <= rows.len(),
        names_each(left@, lo, mid),
        names_each(right@, mid, hi),
        settled(rows_view(rows@), left@),
        settled(rows_view(rows@), right@),
        consistent(rows_view(rows@)) ==> in_order(rows_view(rows@), left@) && in_order(
            rows_view(rows@),
            right@,
        ),
    ensures
        names_each(out@, lo, hi),
        settled(rows_view(rows@), out@),
        consistent(rows_view(rows@)) ==> in_order(rows_view(rows@), out@),
{
    let ghost rv = rows_view(rows@);
    let mut out: Vec<usize> = Vec::new();
    let mut i: usize = 0;
    let mut j: usize = 0;
    let ghost mut from_left: bool = true;
    while i < left.len() || j < right.len()
        invariant
            0 <= lo <= mid <= hi <= rows.len(),
            rv == rows_view(rows@),
            names_each(left@, lo, mid),
            names_each(right@, mid, hi),
            settled(rv, left@),
            settled(rv, right@),
            settled(rv, out@),
            out@.len() > 0 && from_left ==> i > 0 && out@.last() == left@[i - 1] && (j
                < right@.len() ==> !before(rv, right@[j as int] as int, out@.last() as int)),
            out@.len() > 0 && !from_left ==> j > 0 && out@.last() == right@[j - 1] && (i
                < left@.len() ==> before(rv, out@.last() as int, left@[i as int] as int)),
            consistent(rv) ==> in_order(rv, left@) && in_order(rv, right@),
            i <= left.len(),
            j <= right.len(),
            out@.len() == i + j,
            forall|k: int|
                0 <= k < out@.len() ==> (exists|a: int| 0 <= a < i && left@[a] == #[trigger] out@[k])
                    || (exists|b: int| 0 <= b < j && right@[b] == out@[k]),
            forall|a: int, b: int| 0 <= a < b < out@.len() ==> #[trigger] out@[a] != #[trigger] out@[b],
            consistent(rv) ==> in_order(rv, out@),
            consistent(rv) ==> forall|k: int, a: int|
                0 <= k < out@.len() && i <= a < left@.len() ==> before(
                    rv,
                    #[trigger] out@[k] as int,
                    #[trigger] left@[a] as int,
                ),
            consistent(rv) ==> forall|k: int, b: int|
                0 <= k < out@.len() && j <= b < right@.len() ==> before(
                    rv,
                    #[trigger] out@[k] as int,
                    #[trigger] right@[b] as int,
                ),
        decreases left.len() - i + right.len() - j,
    {
        let ghost prev = out@;
        let take_right = if i >= left.len() {
            true
        } else if j >= right.len() {
            false
        } else {
            belongs_before(rows, right[j], left[i])
        };
        if take_right {
            let x = right[j];
            out.push(x);
            proof {
                assert forall|k: int| 0 <= k < out@.len() - 1 implies before(
                    rv,
                    #[trigger] out@[k] as int,
                    out@[k + 1] as int,
                ) || !before(rv, out@[k + 1] as int, out@[k] as int) by {
                    if k + 1 < prev.len() {
                        assert(out@[k] == prev[k] && out@[k + 1] == prev[k + 1]);
                    } else {
                        assert(out@[k] == prev.last());
                        if !from_left {
                            assert(right@[j - 1] == prev.last());
                            assert(right@[j - 1 + 1] == x);
                        }
                    }
                }
                from_left = false;
                assert forall|a: int, b: int| 0 <= a < b < out@.len() implies #[trigger] out@[a]
                    != #[trigger] out@[b] by {
                    if b == prev.len() {
                        assert(out@[a] == prev[a]);
                    } else {
                        assert(out@[a] == prev[a] && out@[b] == prev[b]);
                    }
                }
                assert forall|k: int| 0 <= k < out@.len() implies (exists|a: int|
                    0 <= a < i && left@[a] == #[trigger] out@[k]) || (exists|b: int|
                    0 <= b < j + 1 && right@[b] == out@[k]) by {
                    if k < prev.len() {
                        assert(out@[k] == prev[k]);
                    } else {
                        assert(right@[j as int] == out@[k]);
                    }
                }
                if consistent(rv) {
                    assert forall|a: int, b: int| 0 <= a < b < out@.len() implies before(
                        rv,
                        #[trigger] out@[a] as int,
                        #[trigger] out@[b] as int,
                    ) by {
                        if b == prev.len() {
                            assert(out@[a] == prev[a]);
                            assert(before(rv, prev[a] as int, right@[j as int] as int));
                        } else {
                            assert(out@[a] == prev[a] && out@[b] == prev[b]);
                        }
                    }
                    assert forall|k: int, a: int|
                        0 <= k < out@.len() && i <= a < left@.len() implies before(
                        rv,
                        #[trigger] out@[k] as int,
                        #[trigger] left@[a] as int,
                    ) by {
                        if k < prev.len() {
                            assert(out@[k] == prev[k]);
                        } else {
                            assert(before(rv, x as int, left@[i as int] as int));
                            if a > i {
                                assert(before(rv, left@[i as int] as int, left@[a] as int));
                                lemma_before_trans(
                                    rv,
                                    x as int,
                                    left@[i as int] as int,
                                    left@[a] as int,
                                );
                            }
                        }
                    }
                    assert forall|k: int, b: int|
                        0 <= k < out@.len() && j + 1 <= b < right@.len() implies before(
                        rv,
                        #[trigger] out@[k] as int,
                        #[trigger] right@[b] as int,
                    ) by {
                        if k < prev.len() {
                            assert(out@[k] == prev[k]);
                        } else {
                            assert(before(rv, right@[j as int] as int, right@[b] as int));
                        }
                    }
                }
            }
            j = j + 1;
        } else {
            let x = left[i];
            out.push(x);
            proof {
                assert forall|k: int| 0 <= k < out@.len() - 1 implies before(
                    rv,
                    #[trigger] out@[k] as int,
                    out@[k + 1] as int,
                ) || !before(rv, out@[k + 1] as int, out@[k] as int) by {
                    if k + 1 < prev.len() {
                        assert(out@[k] == prev[k] && out@[k + 1] == prev[k + 1]);
                    } else {
                        assert(out@[k] == prev.last());
                        if from_left {
                            assert(left@[i - 1] == prev.last());
                            assert(left@[i - 1 + 1] == x);
                        }
                    }
                }
                from_left = true;
                assert forall|a: int, b: int| 0 <= a < b < out@.len() implies #[trigger] out@[a]
                    != #[trigger] out@[b] by {
                    if b == prev.len() {
                        assert(out@[a] == prev[a]);
                    } else {
                        assert(out@[a] == prev[a] && out@[b] == prev[b]);
                    }
                }
                assert forall|k: int| 0 <= k < out@.len() implies (exists|a: int|
                    0 <= a < i + 1 && left@[a] == #[trigger] out@[k]) || (exists|b: int|
                    0 <= b < j && right@[b] == out@[k]) by {
                    if k < prev.len() {
                        assert(out@[k] == prev[k]);
                    } else {
                        assert(left@[i as int] == out@[k]);
                    }
                }
                if consistent(rv) {
                    assert forall|a: int, b: int| 0 <= a < b < out@.len() implies before(
                        rv,
                        #[trigger] out@[a] as int,
                        #[trigger] out@[b] as int,
                    ) by {
                        if b == prev.len() {
                            assert(out@[a] == prev[a]);
                            assert(before(rv, prev[a] as int, left@[i as int] as int));
                        } else {
                            assert(out@[a] == prev[a] && out@[b] == prev[b]);
                        }
                    }
                    assert forall|k: int, a: int|
                        0 <= k < out@.len() && i + 1 <= a < left@.len() implies before(
                        rv,
                        #[trigger] out@[k] as int,
                        #[trigger] left@[a] as int,
                    ) by {
                        if k < prev.len() {
                            assert(out@[k] == prev[k]);
                        } else {
                            assert(before(rv, left@[i as int] as int, left@[a] as int));
                        }
                    }
                    assert forall|k: int, b: int|
                        0 <= k < out@.len() && j <= b < right@.len() implies before(
                        rv,
                        #[trigger] out@[k] as int,
                        #[trigger] right@[b] as int,
                    ) by {
                        if k < prev.len() {
                            assert(out@[k] == prev[k]);
                        } else {
                            assert(left@[i as int] != right@[j as int]);
                            lemma_before_total(rv, right@[j as int] as int, x as int);
                            if b > j {
                                assert(before(rv, right@[j as int] as int, right@[b] as int));
                                lemma_before_trans(
                                    rv,
                                    x as int,
                                    right@[j as int] as int,
                                    right@[b] as int,
                                );
                            }
                        }
                    }
                }
            }
            i = i + 1;
        }
    }
    out
}

/// The numbers of the rows `lo..hi`, sorted.
fn sort_range(rows: &Vec<Row>, lo: usize, hi: usize) -> (out: Vec<usize>)
    requires
        lo <= hi <= rows.len(),
    ensures
        names_each(out@, lo as int, hi as int),
        settled(rows_view(rows@), out@),
        consistent(rows_view(rows@)) ==> in_order(rows_view(rows@), out@),
    decreases hi - lo,
{
    if hi - lo <= 1 {
        let mut out: Vec<usize> = Vec::new();
        if lo < hi {
            out.push(lo);
        }
        out
    } else {
        let mid = lo + (hi - lo) / 2;
        let left = sort_range(rows, lo, mid);
        let right = sort_range(rows, mid, hi);
        merge(rows, &left, &right, Ghost(lo as int), Ghost(mid as int), Ghost(hi as int))
    }
}

/// Whether `order` sorts `rows`: it names each row once; no two rows that
/// it names one after the other are the wrong way round; and, where the
/// rows are ordered without contradiction, it names each row before all
/// those that belong after it.
pub open spec fn sorts(rows: Seq<RowView>, order: Seq<usize>) -> bool {
    &&& names_each(order, 0, rows.len() as int)
    &&& settled(rows, order)
    &&& consistent(rows) ==> in_order(rows, order)
}

/// The numbers of the rows in sorted order.
pub fn sort_order(rows: &Vec<Row>) -> (order: Vec<usize>)
    ensures
        sorts(rows_view(rows@), order@),
{
    sort_range(rows, 0, rows.len())
}

/// The rows `rows` in the order `order`.
pub open spec fn arranged(rows: Seq<RowView>, order: Seq<usize>) -> Seq<RowView> {
    Seq::new(order.len(), |k: int| rows[order[k] as int])
}

/// The rows sorted: by sequence name in natural order, then by start, rows
/// that tie staying as they came.
pub fn sort_rows(rows: &Vec<Row>) -> (out: Vec<Row>)
    ensures
        exists|order: Seq<usize>| #[trigger]
            sorts(rows_view(rows@), order) && rows_view(out@) == arranged(rows_view(rows@), order),
{
    let order = sort_order(rows);
    let ghost rv = rows_view(rows@);
    let mut out: Vec<Row> = Vec::new();
    let mut k: usize = 0;
    assert(rows_view(out@) =~= arranged(rv, order@.take(0)));
    while k < order.len()
        invariant
            k <= order.len(),
            rv == rows_view(rows@),
            names_each(order@, 0, rows.len() as int),
            rows_view(out@) == arranged(rv, order@.take(k as int)),
        decreases order.len() - k,
    {
        let row = &rows[order[k]];
        let copy: Row = (
            row.0.clone(),
            row.1.clone(),
            row.2,
            row.3,
            row.4.clone(),
            row.5.clone(),
            row.6.clone(),
        );
        let ghost before_push = out@;
        out.push(copy);
        assert(rows_view(out@) =~= rows_view(before_push).push(row_view(copy)));
        assert(arranged(rv, order@.take(k + 1)) =~= arranged(rv, order@.take(k as int)).push(
            rv[order@[k as int] as int],
        ));
        k = k + 1;
    }
    assert(order@.take(k as int) =~= order@);
    out
}

} // verus!
