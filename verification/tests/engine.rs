use rusty_cruncher::error::RollupError;
use rusty_cruncher::stats::{rollup_impl, window_stats, RowStats, Threshold};
use rusty_cruncher::table::{ColumnData, Table};
use rusty_cruncher::partition::Partitions;
use rusty_cruncher::window::{resolve, rolling_windows};

fn text(items: &[&str]) -> ColumnData {
    ColumnData::Text(items.iter().map(|s| s.to_string()).collect())
}

fn services(values: Vec<i32>) -> Table {
    let names: Vec<&str> = (0..values.len()).map(|i| if i % 2 == 0 { "A" } else { "B" }).collect();
    let mut t = Table::new();
    t.push_column("service".to_string(), text(&names)).unwrap();
    t.push_column("value".to_string(), ColumnData::Int(values)).unwrap();
    t
}

fn thr(whole: u64) -> Threshold {
    Threshold { num: whole, den: 1 }
}

fn keys() -> Vec<String> {
    vec!["service".to_string()]
}

fn value() -> String {
    "value".to_string()
}

#[test]
fn alternating_services_window_two() {
    let t = services(vec![1, 2, 3, 4, 5, 6]);
    let out = rollup_impl(&t, &keys(), &value(), 2, thr(3)).unwrap();
    assert_eq!(out.len(), 6);
    // group A holds 1, 3, 5; the row with value 5 has the window [3, 5]
    assert_eq!(
        out[4],
        RowStats { count: 2, sum: 8, deviation: 4, centered: 2, is_anomaly: false }
    );
    // group B holds 2, 4, 6; the row with value 4 has the window [2, 4]
    assert_eq!(
        out[3],
        RowStats { count: 2, sum: 6, deviation: 4, centered: 2, is_anomaly: false }
    );
    assert_eq!(
        out[5],
        RowStats { count: 2, sum: 10, deviation: 4, centered: 2, is_anomaly: false }
    );
    for s in &out {
        assert!(!s.is_anomaly);
    }
    // mean 4 and standard deviation 1 for the window [3, 5]
    let mean = out[4].sum as f64 / out[4].count as f64;
    let std = (out[4].deviation as f64).sqrt() / out[4].count as f64;
    assert_eq!(mean, 4.0);
    assert_eq!(std, 1.0);
}

#[test]
fn windows_of_alternating_services() {
    let t = services(vec![1, 2, 3, 4, 5, 6]);
    let plan = rolling_windows(&t, &keys(), &value(), 2).unwrap();
    assert_eq!(
        plan,
        vec![vec![0], vec![1], vec![0, 2], vec![1, 3], vec![2, 4], vec![3, 5]]
    );
    let plan = rolling_windows(&t, &keys(), &value(), 3).unwrap();
    assert_eq!(plan[4], vec![0, 2, 4]);
    assert_eq!(plan[5], vec![1, 3, 5]);
    let plan = rolling_windows(&t, &keys(), &value(), 1).unwrap();
    assert_eq!(plan, vec![vec![0], vec![1], vec![2], vec![3], vec![4], vec![5]]);
}

#[test]
fn one_result_per_row_in_row_order() {
    let values = vec![7, -3, 12, 0, 5, 5, 9, 1, -8];
    let t = services(values.clone());
    let out = rollup_impl(&t, &keys(), &value(), 3, thr(2)).unwrap();
    assert_eq!(out.len(), values.len());
    let plan = rolling_windows(&t, &keys(), &value(), 3).unwrap();
    assert_eq!(plan.len(), values.len());
    for i in 0..values.len() {
        // the window of a row ends in the row itself
        assert_eq!(*plan[i].last().unwrap(), i);
        let n = plan[i].len() as i128;
        let sum: i128 = plan[i].iter().map(|r| values[*r] as i128).sum();
        assert_eq!(out[i].count as i128, n);
        assert_eq!(out[i].sum, sum);
        assert_eq!(out[i].centered, n * values[i] as i128 - sum);
    }
}

#[test]
fn first_row_of_a_partition_is_its_own_window() {
    let t = services(vec![41, -17, 3, 4]);
    let out = rollup_impl(&t, &keys(), &value(), 5, thr(0)).unwrap();
    assert_eq!(
        out[0],
        RowStats { count: 1, sum: 41, deviation: 0, centered: 0, is_anomaly: false }
    );
    assert_eq!(
        out[1],
        RowStats { count: 1, sum: -17, deviation: 0, centered: 0, is_anomaly: false }
    );
}

#[test]
fn window_grows_then_slides() {
    let mut t = Table::new();
    t.push_column("g".to_string(), ColumnData::Int(vec![1, 1, 1, 1, 1])).unwrap();
    t.push_column("value".to_string(), ColumnData::Int(vec![10, 20, 30, 40, 50])).unwrap();
    let k = vec!["g".to_string()];
    let out = rollup_impl(&t, &k, &value(), 3, thr(100)).unwrap();
    let counts: Vec<u32> = out.iter().map(|s| s.count).collect();
    let sums: Vec<i128> = out.iter().map(|s| s.sum).collect();
    assert_eq!(counts, vec![1, 2, 3, 3, 3]);
    assert_eq!(sums, vec![10, 30, 60, 90, 120]);
    // window [30, 40, 50]: 3 * (900 + 1600 + 2500) - 120 * 120
    assert_eq!(out[4].deviation, 600);
    assert_eq!(out[4].centered, 30);
}

#[test]
fn values_before_the_window_change_nothing() {
    let a = services(vec![1, 2, 3, 4, 5, 6, 7, 8]);
    let b = services(vec![1000, -2000, 3, 4, 5, 6, 7, 8]);
    let x = rollup_impl(&a, &keys(), &value(), 2, thr(1)).unwrap();
    let y = rollup_impl(&b, &keys(), &value(), 2, thr(1)).unwrap();
    for i in 4..8 {
        assert_eq!(x[i], y[i]);
    }
    assert_ne!(x[2], y[2]);
}

#[test]
fn constant_window_has_no_deviation() {
    let mut t = Table::new();
    t.push_column("g".to_string(), text(&["x", "x", "x", "x", "x"])).unwrap();
    t.push_column("value".to_string(), ColumnData::Int(vec![9, 4, 4, 4, 4])).unwrap();
    let k = vec!["g".to_string()];
    let out = rollup_impl(&t, &k, &value(), 3, thr(0)).unwrap();
    assert_eq!(
        out[3],
        RowStats { count: 3, sum: 12, deviation: 0, centered: 0, is_anomaly: false }
    );
    assert_eq!(out[4], out[3]);
    assert_ne!(out[2].deviation, 0);
}

#[test]
fn other_groups_do_not_matter() {
    // the rows of B are permuted; those of A stay
    let a = services(vec![1, 2, 3, 4, 5, 6]);
    let b = services(vec![1, 6, 3, 2, 5, 4]);
    let x = rollup_impl(&a, &keys(), &value(), 2, thr(1)).unwrap();
    let y = rollup_impl(&b, &keys(), &value(), 2, thr(1)).unwrap();
    for i in [0, 2, 4] {
        assert_eq!(x[i], y[i]);
    }
}

#[test]
fn partitions_by_several_keys() {
    let mut t = Table::new();
    t.push_column("service".to_string(), text(&["A", "A", "A", "A"])).unwrap();
    t.push_column("user".to_string(), ColumnData::Int(vec![1, 2, 1, 2])).unwrap();
    t.push_column("value".to_string(), ColumnData::Int(vec![5, 6, 7, 8])).unwrap();
    let one = vec!["service".to_string()];
    let two = vec!["service".to_string(), "user".to_string()];
    assert_eq!(rolling_windows(&t, &one, &value(), 4).unwrap()[3], vec![0, 1, 2, 3]);
    assert_eq!(rolling_windows(&t, &two, &value(), 4).unwrap()[3], vec![1, 3]);
    assert_eq!(rolling_windows(&t, &two, &value(), 4).unwrap()[2], vec![0, 2]);
}

#[test]
fn threshold_is_strict() {
    let mut t = Table::new();
    t.push_column("g".to_string(), ColumnData::Int(vec![0; 10])).unwrap();
    t.push_column(
        "value".to_string(),
        ColumnData::Int(vec![0, 0, 0, 0, 0, 0, 0, 0, 0, 100]),
    )
    .unwrap();
    let k = vec!["g".to_string()];
    // the last row: deviation 90000 (root 300), centered 900, z-score 3
    let at = rollup_impl(&t, &k, &value(), 10, thr(3)).unwrap();
    assert_eq!(
        at[9],
        RowStats { count: 10, sum: 100, deviation: 90000, centered: 900, is_anomaly: false }
    );
    let below = rollup_impl(&t, &k, &value(), 10, thr(2)).unwrap();
    assert!(below[9].is_anomaly);
    assert!(!below[8].is_anomaly);
    let above = rollup_impl(&t, &k, &value(), 10, thr(4)).unwrap();
    assert!(!above[9].is_anomaly);
}

#[test]
fn negative_outlier_is_flagged() {
    let mut t = Table::new();
    t.push_column("g".to_string(), ColumnData::Int(vec![0; 10])).unwrap();
    t.push_column(
        "value".to_string(),
        ColumnData::Int(vec![0, 0, 0, 0, 0, 0, 0, 0, 0, -100]),
    )
    .unwrap();
    let k = vec!["g".to_string()];
    let out = rollup_impl(&t, &k, &value(), 10, thr(2)).unwrap();
    assert_eq!(out[9].centered, -900);
    assert!(out[9].is_anomaly);
}

#[test]
fn extreme_values_are_exact() {
    let values = vec![i32::MIN, i32::MAX];
    let s = window_stats(&values, &vec![0, 1], 1, thr(u64::MAX));
    assert_eq!(s.count, 2);
    assert_eq!(s.sum, -1);
    assert_eq!(s.deviation, 18446744065119617025);
    assert_eq!(s.centered, 4294967295);
    assert!(!s.is_anomaly);
    let s = window_stats(&values, &vec![0, 1], 0, thr(0));
    assert_eq!(s.centered, -4294967295);
    assert!(s.is_anomaly);
}

#[test]
fn stats_of_a_given_window() {
    let values = vec![5, 1, 9, 3];
    let s = window_stats(&values, &vec![1, 3], 3, thr(0));
    assert_eq!(s, RowStats { count: 2, sum: 4, deviation: 4, centered: 2, is_anomaly: true });
    let s = window_stats(&values, &vec![], 3, thr(0));
    assert_eq!(s, RowStats { count: 0, sum: 0, deviation: 0, centered: 0, is_anomaly: false });
}

#[test]
fn empty_keys_are_refused() {
    let t = services(vec![1, 2]);
    let none: Vec<String> = Vec::new();
    assert_eq!(rollup_impl(&t, &none, &value(), 2, thr(3)), Err(RollupError::EmptyKeys));
    assert_eq!(rolling_windows(&t, &none, &value(), 2), Err(RollupError::EmptyKeys));
    // no key comes before a value that is missing
    assert_eq!(
        rollup_impl(&t, &none, &"nothing".to_string(), 0, thr(3)),
        Err(RollupError::EmptyKeys)
    );
}

#[test]
fn missing_key_is_named() {
    let t = services(vec![1, 2]);
    let k = vec!["service".to_string(), "host".to_string(), "zone".to_string()];
    assert_eq!(rollup_impl(&t, &k, &value(), 2, thr(3)), Err(RollupError::KeyNotFound(1)));
    assert_eq!(
        rollup_impl(&t, &k, &"nothing".to_string(), 2, thr(3)),
        Err(RollupError::KeyNotFound(1))
    );
}

#[test]
fn missing_value_column_is_refused() {
    let t = services(vec![1, 2]);
    assert_eq!(
        rollup_impl(&t, &keys(), &"amount".to_string(), 2, thr(3)),
        Err(RollupError::ValueNotFound)
    );
    assert_eq!(
        rolling_windows(&t, &keys(), &"amount".to_string(), 0),
        Err(RollupError::ValueNotFound)
    );
}

#[test]
fn text_value_column_is_refused() {
    let t = services(vec![1, 2]);
    assert_eq!(
        rollup_impl(&t, &keys(), &"service".to_string(), 2, thr(3)),
        Err(RollupError::ValueNotNumeric)
    );
}

#[test]
fn zero_window_is_refused() {
    let t = services(vec![1, 2]);
    assert_eq!(rollup_impl(&t, &keys(), &value(), 0, thr(3)), Err(RollupError::InvalidWindow));
    assert_eq!(rolling_windows(&t, &keys(), &value(), 0), Err(RollupError::InvalidWindow));
}

#[test]
fn real_values_have_windows_but_no_exact_moments() {
    let mut t = Table::new();
    t.push_column("service".to_string(), text(&["A", "B", "A"])).unwrap();
    t.push_column(
        "value".to_string(),
        ColumnData::Real(vec![1.5f64.to_bits(), 2.5f64.to_bits(), 4.0f64.to_bits()]),
    )
    .unwrap();
    assert_eq!(
        rolling_windows(&t, &keys(), &value(), 2).unwrap(),
        vec![vec![0], vec![1], vec![0, 2]]
    );
    assert_eq!(rollup_impl(&t, &keys(), &value(), 2, thr(3)), Err(RollupError::ValueNotExact));
}

#[test]
fn resolve_finds_the_columns() {
    let mut t = Table::new();
    t.push_column("value".to_string(), ColumnData::Int(vec![1])).unwrap();
    t.push_column("user".to_string(), ColumnData::Int(vec![1])).unwrap();
    t.push_column("service".to_string(), text(&["A"])).unwrap();
    let k = vec!["service".to_string(), "user".to_string()];
    let r = resolve(&t, &k, &value(), 1).unwrap();
    assert_eq!(r.key_cols, vec![2, 1]);
    assert_eq!(r.value_col, 0);
}

#[test]
fn empty_table_gives_no_rows() {
    let t = services(vec![]);
    assert_eq!(rollup_impl(&t, &keys(), &value(), 2, thr(3)), Ok(vec![]));
}

#[test]
fn threshold_may_be_a_ratio() {
    let mut t = Table::new();
    t.push_column("g".to_string(), ColumnData::Int(vec![0; 10])).unwrap();
    t.push_column(
        "value".to_string(),
        ColumnData::Int(vec![0, 0, 0, 0, 0, 0, 0, 0, 0, 100]),
    )
    .unwrap();
    let k = vec!["g".to_string()];
    // the z-score of the last row is 3
    let flag = |num: u64, den: u64| {
        rollup_impl(&t, &k, &value(), 10, Threshold { num, den }).unwrap()[9].is_anomaly
    };
    assert!(flag(5, 2));
    assert!(flag(299, 100));
    assert!(!flag(300, 100));
    assert!(!flag(7, 2));
    assert!(flag(u64::MAX - 1, u64::MAX / 3));
    assert!(!flag(u64::MAX, u64::MAX / 3));
    assert!(!flag(u64::MAX, 1));
    assert!(flag(1, u64::MAX));
}

#[test]
fn extreme_values_against_extreme_thresholds() {
    let values = vec![i32::MIN, i32::MAX];
    // centered 4294967295, deviation 4294967295 squared: the z-score is 1
    let s = window_stats(&values, &vec![0, 1], 1, Threshold { num: u64::MAX, den: u64::MAX });
    assert!(!s.is_anomaly);
    let s = window_stats(&values, &vec![0, 1], 1, Threshold { num: u64::MAX - 1, den: u64::MAX });
    assert!(s.is_anomaly);
    let s = window_stats(&values, &vec![0, 1], 1, Threshold { num: u64::MAX, den: u64::MAX - 1 });
    assert!(!s.is_anomaly);
}

#[test]
fn ratio_over_zero_is_refused() {
    let t = services(vec![1, 2]);
    let bad = Threshold { num: 3, den: 0 };
    assert_eq!(rollup_impl(&t, &keys(), &value(), 2, bad), Err(RollupError::InvalidThreshold));
    // the window is looked at first
    assert_eq!(rollup_impl(&t, &keys(), &value(), 0, bad), Err(RollupError::InvalidWindow));
}

fn naive_window(groups: &[(i32, String)], i: usize, w: usize) -> Vec<usize> {
    let mut rows: Vec<usize> = (0..=i).filter(|r| groups[*r] == groups[i]).collect();
    if rows.len() > w {
        rows.drain(..rows.len() - w);
    }
    rows
}

#[test]
fn windows_agree_with_a_scan_of_all_earlier_rows() {
    let n = 300;
    let mut seed: u64 = 12345;
    let mut next = || {
        seed = seed.wrapping_mul(6364136223846793005).wrapping_add(1442695040888963407);
        (seed >> 33) as i32
    };
    let users: Vec<i32> = (0..n).map(|_| next() % 4).collect();
    let hosts: Vec<String> = (0..n).map(|_| format!("h{}", next() % 3)).collect();
    let values: Vec<i32> = (0..n).map(|_| next() % 1000 - 500).collect();
    let groups: Vec<(i32, String)> =
        users.iter().cloned().zip(hosts.iter().cloned()).collect();
    let mut t = Table::new();
    t.push_column("user".to_string(), ColumnData::Int(users)).unwrap();
    t.push_column("value".to_string(), ColumnData::Int(values.clone())).unwrap();
    t.push_column("host".to_string(), ColumnData::Text(hosts)).unwrap();
    let k = vec!["host".to_string(), "user".to_string()];
    for w in [1usize, 2, 3, 7, 50, 1000] {
        let plan = rolling_windows(&t, &k, &value(), w as u32).unwrap();
        let out = rollup_impl(&t, &k, &value(), w as u32, thr(2)).unwrap();
        assert_eq!(plan.len(), n);
        assert_eq!(out.len(), n);
        for i in 0..n {
            let expected = naive_window(&groups, i, w);
            assert_eq!(plan[i], expected);
            let count = expected.len() as i128;
            let sum: i128 = expected.iter().map(|r| values[*r] as i128).sum();
            let squares: i128 = expected.iter().map(|r| (values[*r] as i128).pow(2)).sum();
            let deviation = count * squares - sum * sum;
            let centered = count * values[i] as i128 - sum;
            assert_eq!(out[i].count as i128, count);
            assert_eq!(out[i].sum, sum);
            assert_eq!(out[i].deviation, deviation);
            assert_eq!(out[i].centered, centered);
            assert_eq!(
                out[i].is_anomaly,
                deviation > 0 && centered * centered > 4 * deviation
            );
        }
    }
}

#[test]
fn partitions_start_empty() {
    let p = Partitions::new();
    assert!(p.latest.is_empty());
    assert!(p.windows.is_empty());
}
