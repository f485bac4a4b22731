use gem_downloads::group::group;
use gem_downloads::series::fill;
use gem_downloads::series::DailyRecord;
use gem_downloads::series::EntitySeries;
use gem_downloads::series::RawSample;

fn record(date: i64, total: i64, delta: Option<i64>) -> DailyRecord {
    DailyRecord { date, total, delta }
}

fn series(name: &str, records: Vec<DailyRecord>) -> EntitySeries {
    EntitySeries {
        name: name.to_string(),
        records,
    }
}

#[test]
fn groups_merge_by_date_in_ascending_order() {
    let a = series("a", vec![record(1, 5, None), record(2, 8, Some(3))]);
    let b = series("b", vec![record(2, 100, None), record(3, 110, Some(10))]);
    let groups = group(&vec![a, b]);

    assert_eq!(groups.len(), 3);
    assert_eq!(groups[0].date, 1);
    assert_eq!(groups[1].date, 2);
    assert_eq!(groups[2].date, 3);

    assert_eq!(groups[0].entries.len(), 1);
    assert_eq!(groups[0].entries[0].name, "a");
    assert_eq!(groups[0].entries[0].total, 5);

    let mut day2: Vec<(String, i64, Option<i64>)> = groups[1]
        .entries
        .iter()
        .map(|e| (e.name.clone(), e.total, e.delta))
        .collect();
    day2.sort();
    assert_eq!(
        day2,
        vec![
            ("a".to_string(), 8, Some(3)),
            ("b".to_string(), 100, None)
        ]
    );

    assert_eq!(groups[2].entries.len(), 1);
    assert_eq!(groups[2].entries[0].name, "b");
    assert_eq!(groups[2].entries[0].delta, Some(10));
}

#[test]
fn aggregation_keeps_every_record() {
    let a = series("a", vec![record(1, 1, None), record(2, 2, Some(1))]);
    let b = series("b", vec![record(2, 5, None)]);
    let c = series("c", vec![record(1, 7, None), record(2, 8, Some(1)), record(9, 9, Some(1))]);
    let input = vec![a, b, c];
    let record_count: usize = input.iter().map(|s| s.records.len()).sum();
    let groups = group(&input);
    let entry_count: usize = groups.iter().map(|g| g.entries.len()).sum();
    assert_eq!(entry_count, record_count);
}

#[test]
fn duplicate_dates_of_two_gems_both_appear() {
    let a = series("a", vec![record(4, 1, None)]);
    let b = series("b", vec![record(4, 2, None)]);
    let groups = group(&vec![a, b]);
    assert_eq!(groups.len(), 1);
    assert_eq!(groups[0].date, 4);
    assert_eq!(groups[0].entries.len(), 2);
}

#[test]
fn empty_input_gives_no_groups() {
    let groups = group(&vec![]);
    assert_eq!(groups.len(), 0);
}

#[test]
fn grouping_filled_series_covers_every_day() {
    let a = fill("a", &vec![RawSample { date: 1, total: 4 }, RawSample { date: 3, total: 10 }]);
    let b = fill("b", &vec![RawSample { date: 2, total: 6 }]);
    let groups = group(&vec![a, b]);
    let dates: Vec<i64> = groups.iter().map(|g| g.date).collect();
    assert_eq!(dates, vec![0, 1, 2, 3]);
    // day 2 holds gem a's interpolated record and gem b's sample day
    assert_eq!(groups[2].entries.len(), 2);
}
