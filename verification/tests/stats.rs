use sudoku::stats::AnyStatistic;
use sudoku::stats::Count;
use sudoku::stats::Formatted;
use sudoku::stats::Maximum;
use sudoku::stats::Mean;
use sudoku::stats::Minimum;
use sudoku::stats::ReportBuilder;
use sudoku::stats::Statistic;
use sudoku::stats::Sum;
use sudoku::stats::{One, Zero};
use sudoku::threads::ThreadMode;

#[test]
fn test_mean() {
    let mut m = Mean::new();
    m.update(10);
    m.update(20);
    m.update(33);
    assert_eq!(m.value(), 21);
    assert_eq!(m.name(), "mean");
}

#[test]
fn test_sum_count() {
    let mut s = Sum::new();
    let mut c = Count::new();
    for v in [5u64, 7, 11] {
        s.update(v);
        c.update(v);
    }
    assert_eq!(s.value(), 23);
    assert_eq!(c.value(), 3);
}

#[test]
fn test_min_max() {
    let mut lo = Minimum::new();
    let mut hi = Maximum::new();
    assert_eq!(lo.value(), 0);
    assert_eq!(hi.value(), 0);
    for v in [9u64, 2, 14, 3] {
        lo.update(v);
        hi.update(v);
    }
    assert_eq!(lo.value(), 2);
    assert_eq!(hi.value(), 14);
}

#[test]
fn test_report() {
    let mut report = ReportBuilder::new()
        .with("Steps", Formatted::new(AnyStatistic::Minimum(Minimum::new()), "", 0))
        .with("Steps", Formatted::new(AnyStatistic::Maximum(Maximum::new()), "", 0))
        .with("Time", Formatted::new(AnyStatistic::Mean(Mean::new()), "ms", 0))
        .build();
    report.update("Steps", 4);
    report.update("Steps", 10);
    report.update("Time", 100);
    report.update("Time", 50);
    assert_eq!(report.field_names(), vec!["Steps".to_string(), "Time".to_string()]);
    assert_eq!(report.values("Steps"), vec![4, 10]);
    assert_eq!(report.values("Time"), vec![75]);
    assert!(report.values("Missing").is_empty());
}

#[test]
fn test_zero_one() {
    assert_eq!(u64::zero(), 0);
    assert_eq!(u64::one(), 1);
    assert_eq!(u128::zero(), 0);
    assert_eq!(i64::one(), 1);
    assert_eq!(i128::zero(), 0);
}

#[test]
fn test_thread_mode() {
    assert_eq!(ThreadMode::new(0), ThreadMode::SingleThreaded);
    assert_eq!(ThreadMode::new(1), ThreadMode::SingleThreaded);
    assert_eq!(ThreadMode::new(4), ThreadMode::MultiThreaded(4));
    assert_eq!(ThreadMode::new(4).count(), 4);
    assert_eq!(ThreadMode::new(1).count(), 1);
}
