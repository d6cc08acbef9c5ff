//! Exact moments of a window of integers, and the engine that derives them
//! for every row of a table.
use vstd::prelude::*;
use crate::error::RollupError;
use crate::table::{Cell, Col, ColumnData, ColumnKind, Table, column_of, int_of, rows};
use crate::wide::mul_wide;
use crate::partition::Partitions;
use crate::window::{accepted, as_rows, lemma_trailing_members, names, rejected, resolve,
    window_rows};

verus! {

/// The integers of a column of integers.
pub open spec fn ints(values: Seq<i32>) -> Seq<int> {
    Seq::new(values.len(), |k: int| values[k] as int)
}

/// The integers in the cells of a column.
pub open spec fn cell_ints(cells: Seq<Cell>) -> Seq<int> {
    Seq::new(cells.len(), |k: int| int_of(cells[k]))
}

/// The sum of the values in the rows `m`.
pub open spec fn window_sum(v: Seq<int>, m: Seq<int>) -> int
    decreases m.len(),
{
    if m.len() == 0 {
        0
    } else {
        window_sum(v, m.drop_last()) + v[m.last()]
    }
}

/// The sum of the squares of the values in the rows `m`.
pub open spec fn window_squares(v: Seq<int>, m: Seq<int>) -> int
    decreases m.len(),
{
    if m.len() == 0 {
        0
    } else {
        window_squares(v, m.drop_last()) + v[m.last()] * v[m.last()]
    }
}

/// The variance of the values in the rows `m`, times the square of their
/// number: the standard deviation is its root over the number of rows.
pub open spec fn deviation(v: Seq<int>, m: Seq<int>) -> int {
    m.len() * window_squares(v, m) - window_sum(v, m) * window_sum(v, m)
}

/// The distance of row `i`'s value from the mean of the rows `m`, times
/// their number.
pub open spec fn centered(v: Seq<int>, m: Seq<int>, i: int) -> int {
    m.len() * v[i] - window_sum(v, m)
}

/// A threshold on the absolute value of a z-score: the ratio of `num` to
/// `den`, where `den` is not zero.
#[derive(Clone, Copy, Debug, PartialEq, Eq)]
pub struct Threshold {
    pub num: u64,
    pub den: u64,
}

/// Whether row `i` is an anomaly against the rows `m`: the deviation is not
/// zero and the z-score, `centered` over the root of `deviation`, is beyond
/// `num / den` in absolute value.
pub open spec fn flagged(v: Seq<int>, m: Seq<int>, i: int, num: nat, den: nat) -> bool {
    &&& deviation(v, m) > 0
    &&& den * den * (centered(v, m, i) * centered(v, m, i)) > num * num * deviation(v, m)
}

/// The squared distances of a window's values from any `x` add up to
/// nothing below zero.
pub proof fn lemma_spread_nonnegative(v: Seq<int>, m: Seq<int>, x: int)
    ensures
        window_squares(v, m) - 2 * x * window_sum(v, m) + m.len() * (x * x) >= 0,
    decreases m.len(),
{
    if m.len() > 0 {
        let front = m.drop_last();
        lemma_spread_nonnegative(v, front, x);
        let y = v[m.last()];
        let n = front.len() as int;
        let s = window_sum(v, front);
        let q = window_squares(v, front);
        assert((q + y * y) - 2 * x * (s + y) + (n + 1) * (x * x) == (q - 2 * x * s + n * (x * x))
            + (y - x) * (y - x)) by (nonlinear_arith);
        assert((y - x) * (y - x) >= 0) by (nonlinear_arith);
    }
}

/// The deviation of a window is never negative, so the rolling standard
/// deviation, its root over the number of rows, is defined for every row.
pub proof fn lemma_deviation_nonnegative(v: Seq<int>, m: Seq<int>)
    ensures
        deviation(v, m) >= 0,
    decreases m.len(),
{
    if m.len() > 0 {
        let front = m.drop_last();
        lemma_deviation_nonnegative(v, front);
        let y = v[m.last()];
        lemma_spread_nonnegative(v, front, y);
        let n = front.len() as int;
        let s = window_sum(v, front);
        let q = window_squares(v, front);
        assert((n + 1) * (q + y * y) - (s + y) * (s + y) == (n * q - s * s) + (q - 2 * y * s + n
            * (y * y))) by (nonlinear_arith);
    }
}

/// The rolling statistics of one row, as exact integers.
///
/// With `n = count`: the rolling mean is `sum / n`, the rolling standard
/// deviation is the square root of `deviation` over `n`, and the z-score is
/// `centered` over the square root of `deviation` where `deviation` is
/// positive, and zero where it is not.
#[derive(Clone, Copy, Debug, PartialEq, Eq)]
pub struct RowStats {
    /// The number of rows in the window.
    pub count: u32,
    /// The sum of the window's values.
    pub sum: i128,
    /// `count` times the sum of the squares, less the square of the sum.
    pub deviation: i128,
    /// `count` times the row's value, less the sum.
    pub centered: i128,
    /// Whether the z-score is beyond the threshold in absolute value.
    pub is_anomaly: bool,
}

/// `s` holds the statistics of row `i` over the window `m`.
pub open spec fn describes(s: RowStats, v: Seq<int>, m: Seq<int>, i: int, threshold: Threshold) -> bool {
    &&& s.count == m.len()
    &&& s.sum == window_sum(v, m)
    &&& s.deviation == deviation(v, m)
    &&& s.centered == centered(v, m, i)
    &&& s.is_anomaly == flagged(v, m, i, threshold.num as nat, threshold.den as nat)
}

/// Whether `centered` over the root of `deviation` is beyond the threshold
/// in absolute value, for a positive `deviation`.
fn beyond(centered: i128, deviation: i128, threshold: Threshold) -> (over: bool)
    requires
        -18446744065119617025 <= centered <= 18446744065119617025,
        deviation > 0,
    ensures
        over == (threshold.den * threshold.den * (centered * centered) > threshold.num
            * threshold.num * deviation),
{
    let magnitude: u128 = if centered < 0 {
        (-centered) as u128
    } else {
        centered as u128
    };
    assert(magnitude * magnitude == centered * centered) by (nonlinear_arith)
        requires
            magnitude == centered || magnitude == -centered,
    ;
    assert(magnitude * magnitude <= 340282366604025813516997721482669850625)
        by (nonlinear_arith)
        requires
            0 <= magnitude <= 18446744065119617025,
    ;
    let num: u128 = threshold.num as u128;
    let den: u128 = threshold.den as u128;
    assert(0 <= num * num <= 340282366920938463426481119284349108225) by (nonlinear_arith)
        requires
            0 <= num <= 0xffff_ffff_ffff_ffff,
    ;
    assert(0 <= den * den <= 340282366920938463426481119284349108225) by (nonlinear_arith)
        requires
            0 <= den <= 0xffff_ffff_ffff_ffff,
    ;
    let left = mul_wide(den * den, magnitude * magnitude);
    let right = mul_wide(num * num, deviation as u128);
    left.exceeds(&right)
}

/// The statistics of row `row` of `values` over the window `members`.
pub fn window_stats(values: &Vec<i32>, members: &Vec<usize>, row: usize, threshold: Threshold) -> (s:
    RowStats)
    requires
        members@.len() <= u32::MAX,
        forall|k: int| 0 <= k < members@.len() ==> (#[trigger] members@[k]) < values@.len(),
        row < values@.len(),
    ensures
        describes(s, ints(values@), as_rows(members@), row as int, threshold),
        s.deviation >= 0,
{
    proof {
        lemma_deviation_nonnegative(ints(values@), as_rows(members@));
    }
    let ghost v = ints(values@);
    let ghost m = as_rows(members@);
    let mut sum: i128 = 0;
    let mut squares: i128 = 0;
    let mut k: usize = 0;
    while k < members.len()
        invariant
            v == ints(values@),
            m == as_rows(members@),
            members@.len() <= u32::MAX,
            forall|l: int| 0 <= l < members@.len() ==> (#[trigger] members@[l]) < values@.len(),
            k <= members@.len(),
            sum == window_sum(v, m.take(k as int)),
            squares == window_squares(v, m.take(k as int)),
            -k * 0x8000_0000 <= sum <= k * 0x7fff_ffff,
            0 <= squares <= k * 0x4000_0000_0000_0000,
        decreases members@.len() - k,
    {
        let x: i128 = values[members[k]] as i128;
        proof {
            assert(m.take(k + 1).drop_last() =~= m.take(k as int));
            assert(m.take(k + 1).last() == members@[k as int] as int);
            assert(v[members@[k as int] as int] == x);
            assert(0 <= x * x <= 0x4000_0000_0000_0000) by (nonlinear_arith)
                requires
                    -0x8000_0000 <= x <= 0x7fff_ffff,
            ;
        }
        sum = sum + x;
        squares = squares + x * x;
        k += 1;
    }
    assert(m.take(k as int) =~= m);
    let n: i128 = members.len() as i128;
    let x: i128 = values[row] as i128;
    proof {
        assert(0 <= n * squares <= 85070591690620534613323169079597465600)
            by (nonlinear_arith)
            requires
                0 <= n <= 0xffff_ffff,
                0 <= squares <= n * 0x4000_0000_0000_0000,
        ;
        assert(0 <= sum * sum <= 85070591690620534613323169079597465600)
            by (nonlinear_arith)
            requires
                0 <= n <= 0xffff_ffff,
                -n * 0x8000_0000 <= sum <= n * 0x7fff_ffff,
        ;
        assert(-n * 0x8000_0000 <= n * x <= n * 0x7fff_ffff) by (nonlinear_arith)
            requires
                0 <= n,
                -0x8000_0000 <= x <= 0x7fff_ffff,
        ;
        assert(n * 0xffff_ffff <= 18446744065119617025) by (nonlinear_arith)
            requires
                0 <= n <= 0xffff_ffff,
        ;
    }
    let deviation: i128 = n * squares - sum * sum;
    let centered: i128 = n * x - sum;
    let is_anomaly = if deviation > 0 {
        beyond(centered, deviation, threshold)
    } else {
        false
    };
    RowStats { count: members.len() as u32, sum, deviation, centered, is_anomaly }
}

/// The rolling statistics of every row of `table`, row by row.
///
/// Rows are partitioned by the columns that `keys` names. The statistics of a
/// row are taken over the last `window` rows of its partition up to and
/// including itself, or over all of them where there are fewer. The value
/// column holds integers; one that holds reals is refused, since no exact
/// moments exist for it. A row is flagged where its z-score is beyond the
/// threshold in absolute value; a threshold with a zero `den` is refused.
pub fn rollup_impl(
    table: &Table,
    keys: &[String],
    value: &str,
    window: u32,
    threshold: Threshold,
) -> (res:
    Result<Vec<RowStats>, RollupError>)
    requires
        table.wf(),
    ensures
        match res {
            Ok(out) => {
                &&& accepted(table@, names(keys@), value@, window as nat)
                &&& threshold.den > 0
                &&& table@[column_of(table@, value@)].kind == ColumnKind::Int
                &&& out@.len() == rows(table@)
                &&& forall|i: int|
                    0 <= i < out@.len() ==> describes(
                        #[trigger] out@[i],
                        cell_ints(table@[column_of(table@, value@)].cells),
                        window_rows(table@, names(keys@), window as nat, i),
                        i,
                        threshold,
                    )
            },
            Err(e) => match e {
                RollupError::InvalidThreshold => {
                    &&& accepted(table@, names(keys@), value@, window as nat)
                    &&& threshold.den == 0
                },
                RollupError::ValueNotExact => {
                    &&& accepted(table@, names(keys@), value@, window as nat)
                    &&& threshold.den > 0
                    &&& table@[column_of(table@, value@)].kind == ColumnKind::Real
                },
                _ => rejected(table@, names(keys@), value@, window as nat, e),
            },
        },
{
    let resolved = match resolve(table, keys, value, window) {
        Ok(r) => r,
        Err(e) => {
            return Err(e);
        },
    };
    if threshold.den == 0 {
        return Err(RollupError::InvalidThreshold);
    }
    let ghost t = table@;
    let ghost ks = names(keys@);
    let ghost cells = t[resolved.value_col as int].cells;
    let values: &Vec<i32> = match &table.column(resolved.value_col).data {
        ColumnData::Int(v) => v,
        _ => {
            return Err(RollupError::ValueNotExact);
        },
    };
    assert(cell_ints(cells) =~= ints(values@));
    assert(t[resolved.value_col as int].cells.len() == t[0].cells.len());
    let n = table.height();
    let mut state = Partitions::new();
    let mut out: Vec<RowStats> = Vec::new();
    let mut i: usize = 0;
    while i < n
        invariant
            t == table@,
            ks == names(keys@),
            table.wf(),
            crate::window::resolves(t, ks, resolved.key_cols@),
            n == rows(t),
            n == values@.len(),
            cell_ints(cells) == ints(values@),
            i <= n,
            window >= 1,
            state.tracks(t, ks, window as nat, i as int),
            out@.len() == i,
            forall|r: int|
                0 <= r < i ==> (#[trigger] out@[r]).deviation >= 0 && describes(
                    out@[r],
                    cell_ints(cells),
                    window_rows(t, ks, window as nat, r),
                    r,
                    threshold,
                ),
        decreases n - i,
    {
        let g = state.advance(table, &resolved.key_cols, Ghost(ks), i, window);
        let members = &state.windows[g];
        proof {
            lemma_trailing_members(t, ks, i as int, i as int, window as nat);
            assert forall|k: int| 0 <= k < members@.len() implies (#[trigger] members@[k])
                < values@.len() by {
                assert(as_rows(members@)[k] == members@[k] as int);
            }
        }
        let s = window_stats(values, members, i, threshold);
        out.push(s);
        i += 1;
    }
    Ok(out)
}

} // verus!
