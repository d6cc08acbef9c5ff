//! What holds of the windows and of their statistics, whatever the table.
use vstd::prelude::*;
use crate::table::Col;
use crate::window::{same_group, trailing, window_rows, lemma_trailing_members,
    lemma_trailing_none};
use crate::stats::{centered, deviation, flagged, window_squares, window_sum};

verus! {

/// The trailing window of row `i` at `j` is the same in two tables in which
/// the same rows at or before `j` are of the partition of row `i`.
pub proof fn lemma_trailing_local(
    t1: Seq<Col>,
    t2: Seq<Col>,
    keys: Seq<Seq<char>>,
    i: int,
    j: int,
    w: nat,
)
    requires
        forall|r: int| 0 <= r <= j ==> same_group(t1, keys, r, i) == same_group(t2, keys, r, i),
    ensures
        trailing(t1, keys, i, j, w) == trailing(t2, keys, i, j, w),
    decreases j + 1,
{
    if j >= 0 && w > 0 {
        if same_group(t1, keys, j, i) {
            lemma_trailing_local(t1, t2, keys, i, j - 1, (w - 1) as nat);
        } else {
            lemma_trailing_local(t1, t2, keys, i, j - 1, w);
        }
    }
}

/// How many rows at or before row `j` are of the partition of row `i`.
pub open spec fn partition_rows(t: Seq<Col>, keys: Seq<Seq<char>>, i: int, j: int) -> nat
    decreases j + 1,
{
    if j < 0 {
        0
    } else if same_group(t, keys, j, i) {
        partition_rows(t, keys, i, j - 1) + 1
    } else {
        partition_rows(t, keys, i, j - 1)
    }
}

/// A window grows with its partition until it holds `w` rows, and holds
/// `w` rows from then on.
pub proof fn lemma_window_grows(t: Seq<Col>, keys: Seq<Seq<char>>, i: int, j: int, w: nat)
    ensures
        trailing(t, keys, i, j, w).len() == if partition_rows(t, keys, i, j) < w {
            partition_rows(t, keys, i, j)
        } else {
            w
        },
    decreases j + 1,
{
    if j >= 0 && w > 0 {
        if same_group(t, keys, j, i) {
            lemma_window_grows(t, keys, i, j - 1, (w - 1) as nat);
        } else {
            lemma_window_grows(t, keys, i, j - 1, w);
        }
    }
}

/// A row leaves the windows of its partition once `w` later rows of the
/// partition have come: a window holds no row that has `w` or more rows of
/// the partition after it.
pub proof fn lemma_old_rows_leave(
    t: Seq<Col>,
    keys: Seq<Seq<char>>,
    i: int,
    j: int,
    w: nat,
    r: int,
)
    requires
        0 <= r <= j,
        partition_rows(t, keys, i, j) - partition_rows(t, keys, i, r) >= w,
    ensures
        !trailing(t, keys, i, j, w).contains(r),
    decreases j + 1,
{
    let here = trailing(t, keys, i, j, w);
    if w == 0 {
    } else if same_group(t, keys, j, i) {
        let before = trailing(t, keys, i, j - 1, (w - 1) as nat);
        assert(here == before.push(j));
        if r < j {
            lemma_old_rows_leave(t, keys, i, j - 1, (w - 1) as nat, r);
        }
        if here.contains(r) {
            let k = choose|k: int| 0 <= k < here.len() && here[k] == r;
            if k < before.len() {
                assert(before[k] == r);
            }
        }
    } else {
        lemma_old_rows_leave(t, keys, i, j - 1, w, r);
    }
}

/// A window holds every row of the partition between its first row and the
/// row it belongs to, and where it holds fewer than `w` rows it holds every
/// row of the partition so far.
pub proof fn lemma_trailing_complete(
    t: Seq<Col>,
    keys: Seq<Seq<char>>,
    i: int,
    j: int,
    w: nat,
    r: int,
)
    requires
        0 <= r <= j,
        same_group(t, keys, r, i),
    ensures
        trailing(t, keys, i, j, w).contains(r) || (trailing(t, keys, i, j, w).len() == w && (w == 0
            || r < trailing(t, keys, i, j, w)[0])),
    decreases j + 1,
{
    let here = trailing(t, keys, i, j, w);
    if w == 0 {
    } else if same_group(t, keys, j, i) {
        let before = trailing(t, keys, i, j - 1, (w - 1) as nat);
        assert(here == before.push(j));
        assert(here[here.len() - 1] == j);
        if r < j {
            lemma_trailing_complete(t, keys, i, j - 1, (w - 1) as nat, r);
            if before.contains(r) {
                let k = choose|k: int| 0 <= k < before.len() && before[k] == r;
                assert(here[k] == r);
            } else if before.len() > 0 {
                assert(here[0] == before[0]);
            }
        }
    } else {
        lemma_trailing_complete(t, keys, i, j - 1, w, r);
    }
}

/// The sums over a window depend on the values in the window's rows only.
pub proof fn lemma_sums_local(v1: Seq<int>, v2: Seq<int>, m: Seq<int>)
    requires
        forall|k: int| 0 <= k < m.len() ==> v1[#[trigger] m[k]] == v2[m[k]],
    ensures
        window_sum(v1, m) == window_sum(v2, m),
        window_squares(v1, m) == window_squares(v2, m),
    decreases m.len(),
{
    if m.len() > 0 {
        let front = m.drop_last();
        assert forall|k: int| 0 <= k < front.len() implies v1[#[trigger] front[k]] == v2[front[k]] by {
            assert(front[k] == m[k]);
        }
        lemma_sums_local(v1, v2, front);
        assert(v1[m[m.len() - 1]] == v2[m[m.len() - 1]]);
    }
}

/// The sums over a window of equal values.
pub proof fn lemma_sums_constant(v: Seq<int>, m: Seq<int>, x: int)
    requires
        forall|k: int| 0 <= k < m.len() ==> v[#[trigger] m[k]] == x,
    ensures
        window_sum(v, m) == m.len() * x,
        window_squares(v, m) == m.len() * (x * x),
    decreases m.len(),
{
    if m.len() > 0 {
        let front = m.drop_last();
        assert forall|k: int| 0 <= k < front.len() implies v[#[trigger] front[k]] == x by {
            assert(front[k] == m[k]);
        }
        lemma_sums_constant(v, front, x);
        assert(v[m[m.len() - 1]] == x);
        let n = front.len() as int;
        assert(n * x + x == (n + 1) * x) by (nonlinear_arith);
        assert(n * (x * x) + x * x == (n + 1) * (x * x)) by (nonlinear_arith);
    }
}

/// The first row of a partition is its own window: the sum is its value, so
/// the rolling mean is the value itself; the deviation is zero, so the
/// z-score is zero; and the row is no anomaly.
pub proof fn lemma_first_row_of_partition(
    t: Seq<Col>,
    keys: Seq<Seq<char>>,
    v: Seq<int>,
    w: nat,
    i: int,
    num: nat,
    den: nat,
)
    requires
        w >= 1,
        0 <= i,
        forall|r: int| 0 <= r < i ==> !same_group(t, keys, r, i),
    ensures
        window_rows(t, keys, w, i) == seq![i],
        window_sum(v, window_rows(t, keys, w, i)) == v[i],
        deviation(v, window_rows(t, keys, w, i)) == 0,
        centered(v, window_rows(t, keys, w, i), i) == 0,
        !flagged(v, window_rows(t, keys, w, i), i, num, den),
{
    lemma_trailing_none(t, keys, i, i - 1, (w - 1) as nat);
    assert(same_group(t, keys, i, i));
    let m = window_rows(t, keys, w, i);
    assert(m =~= seq![i]);
    assert(forall|k: int| 0 <= k < m.len() ==> v[#[trigger] m[k]] == v[i]);
    lemma_sums_constant(v, m, v[i]);
    let x = v[i];
    assert(1 * x == x && 1 * (x * x) == x * x && 1 * (x * x) - x * x == 0) by (nonlinear_arith);
}

/// A window never holds more than `w` rows, all of them of the row's own
/// partition, and the statistics of a row depend on the values in the rows
/// of its window only: whatever stands in an earlier row of the partition,
/// or in a row of another partition, changes nothing.
pub proof fn lemma_window_cap(
    t: Seq<Col>,
    keys: Seq<Seq<char>>,
    v1: Seq<int>,
    v2: Seq<int>,
    w: nat,
    i: int,
    num: nat,
    den: nat,
)
    requires
        w >= 1,
        0 <= i,
        forall|k: int|
            0 <= k < window_rows(t, keys, w, i).len() ==> v1[#[trigger] window_rows(t, keys, w, i)[k]]
                == v2[window_rows(t, keys, w, i)[k]],
    ensures
        window_rows(t, keys, w, i).len() <= w,
        window_sum(v1, window_rows(t, keys, w, i)) == window_sum(v2, window_rows(t, keys, w, i)),
        deviation(v1, window_rows(t, keys, w, i)) == deviation(v2, window_rows(t, keys, w, i)),
        centered(v1, window_rows(t, keys, w, i), i) == centered(v2, window_rows(t, keys, w, i), i),
        flagged(v1, window_rows(t, keys, w, i), i, num, den) == flagged(
            v2,
            window_rows(t, keys, w, i),
            i,
            num,
            den,
        ),
{
    let m = window_rows(t, keys, w, i);
    lemma_trailing_members(t, keys, i, i, w);
    lemma_sums_local(v1, v2, m);
    assert(same_group(t, keys, i, i));
    assert(m == trailing(t, keys, i, i - 1, (w - 1) as nat).push(i));
    assert(m[m.len() - 1] == i);
}

/// A window of equal values has no deviation: the rolling standard
/// deviation is zero, the z-score of a row that holds the same value is
/// zero, and the row is no anomaly.
pub proof fn lemma_constant_window(v: Seq<int>, m: Seq<int>, i: int, num: nat, den: nat)
    requires
        forall|k: int| 0 <= k < m.len() ==> v[#[trigger] m[k]] == v[i],
    ensures
        deviation(v, m) == 0,
        centered(v, m, i) == 0,
        !flagged(v, m, i, num, den),
{
    lemma_sums_constant(v, m, v[i]);
    let n = m.len() as int;
    let x = v[i];
    assert(n * (n * (x * x)) - (n * x) * (n * x) == 0) by (nonlinear_arith);
}

/// The statistics of a row depend on its own partition only. Take two
/// tables in which the same rows up to row `i` are of the partition of row
/// `i`, with the same values in them: the window of row `i` and its
/// statistics are the same in both, however the rows of other partitions
/// differ or are ordered.
pub proof fn lemma_group_independence(
    t1: Seq<Col>,
    t2: Seq<Col>,
    keys: Seq<Seq<char>>,
    v1: Seq<int>,
    v2: Seq<int>,
    w: nat,
    i: int,
    num: nat,
    den: nat,
)
    requires
        w >= 1,
        0 <= i,
        forall|r: int| 0 <= r <= i ==> same_group(t1, keys, r, i) == same_group(t2, keys, r, i),
        forall|r: int| 0 <= r <= i && same_group(t1, keys, r, i) ==> v1[r] == v2[r],
    ensures
        window_rows(t1, keys, w, i) == window_rows(t2, keys, w, i),
        window_sum(v1, window_rows(t1, keys, w, i)) == window_sum(v2, window_rows(t2, keys, w, i)),
        deviation(v1, window_rows(t1, keys, w, i)) == deviation(v2, window_rows(t2, keys, w, i)),
        centered(v1, window_rows(t1, keys, w, i), i) == centered(
            v2,
            window_rows(t2, keys, w, i),
            i,
        ),
        flagged(v1, window_rows(t1, keys, w, i), i, num, den) == flagged(
            v2,
            window_rows(t2, keys, w, i),
            i,
            num,
            den,
        ),
{
    lemma_trailing_local(t1, t2, keys, i, i, w);
    lemma_trailing_members(t1, keys, i, i, w);
    let m = window_rows(t1, keys, w, i);
    assert forall|k: int| 0 <= k < m.len() implies v1[#[trigger] m[k]] == v2[m[k]] by {
        assert(same_group(t1, keys, m[k], i));
    }
    lemma_sums_local(v1, v2, m);
    assert(same_group(t1, keys, i, i));
}

} // verus!
