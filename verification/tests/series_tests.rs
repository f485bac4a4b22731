use gem_downloads::series::fill;
use gem_downloads::series::sort_samples;
use gem_downloads::series::RawSample;

fn sample(date: i64, total: i64) -> RawSample {
    RawSample { date, total }
}

#[test]
fn empty_input_gives_empty_series() {
    let series = fill("nothing", &vec![]);
    assert_eq!(series.name, "nothing");
    assert_eq!(series.records.len(), 0);
}

#[test]
fn singleton_gives_baseline_and_sample_day() {
    let series = fill("one", &vec![sample(10, 7)]);
    assert_eq!(series.records.len(), 2);
    let baseline = &series.records[0];
    assert_eq!(baseline.date, 9);
    assert_eq!(baseline.total, 0);
    assert_eq!(baseline.delta, None);
    let day = &series.records[1];
    assert_eq!(day.date, 10);
    assert_eq!(day.total, 7);
    assert_eq!(day.delta, Some(7));
}

#[test]
fn gap_of_three_interpolates_and_reconstructs() {
    // totals 0 at day 0, 10 at day 3: intermediate days get floor(10*i/3)
    let series = fill("gem", &vec![sample(0, 0), sample(3, 10)]);
    let dates: Vec<i64> = series.records.iter().map(|r| r.date).collect();
    assert_eq!(dates, vec![-1, 0, 1, 2, 3]);
    let totals: Vec<i64> = series.records.iter().map(|r| r.total).collect();
    assert_eq!(totals, vec![0, 0, 3, 6, 10]);
    let deltas: Vec<Option<i64>> = series.records.iter().map(|r| r.delta).collect();
    assert_eq!(deltas, vec![None, Some(0), Some(3), Some(3), Some(4)]);
}

#[test]
fn consecutive_days_need_no_interpolation() {
    let series = fill("gem", &vec![sample(5, 100), sample(6, 140), sample(7, 150)]);
    let totals: Vec<i64> = series.records.iter().map(|r| r.total).collect();
    assert_eq!(totals, vec![0, 100, 140, 150]);
    let deltas: Vec<Option<i64>> = series.records.iter().map(|r| r.delta).collect();
    assert_eq!(deltas, vec![None, Some(100), Some(40), Some(10)]);
}

#[test]
fn decreasing_totals_interpolate_with_negative_deltas() {
    // a data correction: the total drops from 10 to 3 over three days,
    // and the quotient is rounded toward zero
    let series = fill("gem", &vec![sample(0, 10), sample(3, 3)]);
    let totals: Vec<i64> = series.records.iter().map(|r| r.total).collect();
    assert_eq!(totals, vec![0, 10, 8, 6, 3]);
    let deltas: Vec<Option<i64>> = series.records.iter().map(|r| r.delta).collect();
    assert_eq!(deltas, vec![None, Some(10), Some(-2), Some(-2), Some(-3)]);
}

#[test]
fn density_one_record_per_day() {
    let series = fill("gem", &vec![sample(100, 1), sample(107, 50), sample(110, 60)]);
    // from the day before the first sample to the last sample's day
    assert_eq!(series.records.len(), (110 - 100 + 2) as usize);
    for (j, r) in series.records.iter().enumerate() {
        assert_eq!(r.date, 99 + j as i64);
    }
    // sampled days keep their exact totals
    assert_eq!(series.records[1].total, 1);
    assert_eq!(series.records[8].total, 50);
    assert_eq!(series.records[11].total, 60);
}

#[test]
fn deltas_telescope_to_last_total() {
    let series = fill("gem", &vec![sample(3, 17), sample(9, 40), sample(12, 35)]);
    let sum: i64 = series.records.iter().filter_map(|r| r.delta).sum();
    assert_eq!(sum, 35);
}

#[test]
fn sort_samples_orders_by_date() {
    let mut samples = vec![sample(5, 50), sample(1, 10), sample(3, 30)];
    sort_samples(&mut samples);
    let dates: Vec<i64> = samples.iter().map(|s| s.date).collect();
    assert_eq!(dates, vec![1, 3, 5]);
    let totals: Vec<i64> = samples.iter().map(|s| s.total).collect();
    assert_eq!(totals, vec![10, 30, 50]);
}

#[test]
fn sort_samples_keeps_every_sample_and_is_stable() {
    let mut samples = vec![sample(2, 1), sample(2, 2), sample(1, 3)];
    sort_samples(&mut samples);
    let pairs: Vec<(i64, i64)> = samples.iter().map(|s| (s.date, s.total)).collect();
    // the two day-2 samples keep their input order
    assert_eq!(pairs, vec![(1, 3), (2, 1), (2, 2)]);
}
