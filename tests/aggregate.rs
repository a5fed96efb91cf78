use crime_charts::chart::{bar_chart_plan, time_series_plan};
use crime_charts::counts::{aggregate_counts, top_k};
use crime_charts::dates::{count_by_date, count_dates, crime_day, CalendarDate};
use crime_charts::ranking::label_less;
use crime_charts::record::{filter_records, CrimeRecord};

fn rec(area: &str, desc: &str, date: &str) -> CrimeRecord {
    CrimeRecord { area: area.to_string(), crime_desc: desc.to_string(), crime_date: date.to_string() }
}

fn day(year: i32, month: u32, day: u32) -> CalendarDate {
    CalendarDate { year, month, day }
}

fn by_desc(descs: &[&str]) -> Vec<CrimeRecord> {
    descs.iter().map(|d| rec("Central", d, "01/01/2023 10:00:00 AM")).collect()
}

#[test]
fn counts_by_category() {
    let records = by_desc(&["THEFT", "THEFT", "BURGLARY", "THEFT", "ARSON"]);
    let counts = aggregate_counts(&records, |r| r.crime_desc.clone());
    assert_eq!(counts.len(), 3);
    assert_eq!(counts.count("THEFT"), 3);
    assert_eq!(counts.count("BURGLARY"), 1);
    assert_eq!(counts.count("ARSON"), 1);
    assert_eq!(counts.count("FRAUD"), 0);
    let total: usize = (0..counts.len()).map(|i| counts.entry(i).1).sum();
    assert_eq!(total, records.len());
}

#[test]
fn top_two_breaks_ties_by_label() {
    let records = by_desc(&["THEFT", "THEFT", "BURGLARY", "THEFT", "ARSON"]);
    let counts = aggregate_counts(&records, |r| r.crime_desc.clone());
    let top = top_k(&counts, 2);
    assert_eq!(top, vec![("THEFT".to_string(), 3), ("ARSON".to_string(), 1)]);
}

#[test]
fn top_five_of_three_equal_counts() {
    let records = by_desc(&["VANDALISM", "ARSON", "THEFT"]);
    let counts = aggregate_counts(&records, |r| r.crime_desc.clone());
    let top = top_k(&counts, 5);
    assert_eq!(
        top,
        vec![("ARSON".to_string(), 1), ("THEFT".to_string(), 1), ("VANDALISM".to_string(), 1)]
    );
}

#[test]
fn top_k_is_ordered_and_bounded() {
    let records = by_desc(&["A", "B", "B", "C", "C", "C", "D", "D", "D", "D", "E"]);
    let counts = aggregate_counts(&records, |r| r.crime_desc.clone());
    let top = top_k(&counts, 3);
    assert_eq!(top.len(), 3);
    assert_eq!(top, vec![("D".to_string(), 4), ("C".to_string(), 3), ("B".to_string(), 2)]);
    assert_eq!(top_k(&counts, 10).len(), 5);
}

#[test]
fn top_zero_is_empty() {
    let records = by_desc(&["THEFT", "ARSON"]);
    let counts = aggregate_counts(&records, |r| r.crime_desc.clone());
    assert!(top_k(&counts, 0).is_empty());
    let plan = bar_chart_plan(&counts, 0);
    assert!(plan.bars.is_empty());
    assert_eq!(plan.max_count, 0);
}

#[test]
fn counts_by_area() {
    let records = vec![rec("Hollywood", "X", ""), rec("Central", "X", ""), rec("Hollywood", "Y", "")];
    let counts = aggregate_counts(&records, |r| r.area.clone());
    assert_eq!(counts.count("Hollywood"), 2);
    assert_eq!(counts.count("Central"), 1);
}

#[test]
fn bar_chart_plan_takes_the_top_and_its_maximum() {
    let records = by_desc(&["THEFT", "THEFT", "BURGLARY", "THEFT", "ARSON"]);
    let counts = aggregate_counts(&records, |r| r.crime_desc.clone());
    let plan = bar_chart_plan(&counts, 5);
    assert_eq!(plan.bars.len(), 3);
    assert_eq!(plan.bars[0], ("THEFT".to_string(), 3));
    assert_eq!(plan.max_count, 3);
}

#[test]
fn empty_input_gives_empty_plans() {
    let records: Vec<CrimeRecord> = Vec::new();
    let counts = aggregate_counts(&records, |r| r.crime_desc.clone());
    assert_eq!(counts.len(), 0);
    let plan = bar_chart_plan(&counts, 5);
    assert!(plan.bars.is_empty());
    assert_eq!(plan.max_count, 0);
    let days = count_by_date(&records);
    assert_eq!(days.len(), 0);
    let series = time_series_plan(&days);
    assert!(series.points.is_empty());
    assert_eq!(series.first, day(1970, 1, 1));
    assert_eq!(series.last, day(1970, 1, 1));
    assert_eq!(series.max_count, 0);
}

#[test]
fn filter_then_count_by_day() {
    let records = vec![
        rec("Hollywood", "VEHICLE - STOLEN", "01/01/2023 10:00:00 AM"),
        rec("Hollywood", "VEHICLE - STOLEN", "01/01/2023 11:00:00 PM"),
        rec("Hollywood", "VEHICLE - STOLEN", "01/02/2023 09:00:00 AM"),
        rec("Hollywood", "VEHICLE - STOLEN", "bogus"),
    ];
    let matching = filter_records(&records, "VEHICLE - STOLEN", "Hollywood");
    assert_eq!(matching.len(), 4);
    let days = count_by_date(&matching);
    assert_eq!(days.len(), 2);
    let mut entries: Vec<(CalendarDate, usize)> = (0..days.len()).map(|i| days.entry(i)).collect();
    entries.sort_by_key(|e| (e.0.year, e.0.month, e.0.day));
    assert_eq!(entries, vec![(day(2023, 1, 1), 2), (day(2023, 1, 2), 1)]);
    let total: usize = entries.iter().map(|e| e.1).sum();
    assert!(total <= matching.len());
    assert_eq!(total, 3);
}

#[test]
fn day_total_equals_matching_when_all_parse() {
    let records = vec![
        rec("Hollywood", "VEHICLE - STOLEN", "03/15/2022 01:30:00 PM"),
        rec("Hollywood", "VEHICLE - STOLEN", "12/31/2021 12:00:00 AM"),
        rec("Central", "VEHICLE - STOLEN", "bogus"),
    ];
    let matching = filter_records(&records, "VEHICLE - STOLEN", "Hollywood");
    let days = count_by_date(&matching);
    let total: usize = (0..days.len()).map(|i| days.entry(i).1).sum();
    assert_eq!(total, matching.len());
}

#[test]
fn timestamp_parses_to_its_day() {
    assert_eq!(crime_day(&rec("", "", "07/04/2021 11:59:59 PM")), Some(day(2021, 7, 4)));
    assert_eq!(crime_day(&rec("", "", "02/29/2020 12:00:00 AM")), Some(day(2020, 2, 29)));
    assert_eq!(crime_day(&rec("", "", "02/30/2020 12:00:00 AM")), None);
    assert_eq!(crime_day(&rec("", "", "2023-01-01")), None);
}

#[test]
fn sentinel_date_is_dropped() {
    let sentinel = rec("Hollywood", "VEHICLE - STOLEN", "1970-01-01");
    assert_eq!(crime_day(&sentinel), None);
    let days = count_by_date(&vec![sentinel]);
    assert_eq!(days.len(), 0);
}

#[test]
fn count_dates_skips_missing_days() {
    let days = count_dates(&vec![Some(day(2023, 5, 1)), None, Some(day(2023, 5, 1)), Some(day(2022, 1, 9))]);
    assert_eq!(days.len(), 2);
    let mut entries: Vec<(CalendarDate, usize)> = (0..days.len()).map(|i| days.entry(i)).collect();
    entries.sort_by_key(|e| (e.0.year, e.0.month, e.0.day));
    assert_eq!(entries, vec![(day(2022, 1, 9), 1), (day(2023, 5, 1), 2)]);
}

#[test]
fn time_series_is_in_day_order() {
    let days = count_dates(&vec![
        Some(day(2023, 5, 1)),
        Some(day(2021, 12, 31)),
        Some(day(2023, 5, 1)),
        Some(day(2023, 4, 30)),
        Some(day(2023, 5, 1)),
    ]);
    let plan = time_series_plan(&days);
    assert_eq!(plan.points, vec![(day(2021, 12, 31), 1), (day(2023, 4, 30), 1), (day(2023, 5, 1), 3)]);
    assert_eq!(plan.first, day(2021, 12, 31));
    assert_eq!(plan.last, day(2023, 5, 1));
    assert_eq!(plan.max_count, 3);
}

#[test]
fn plans_are_deterministic() {
    let records = by_desc(&["B", "A", "C", "A", "B", "D"]);
    let first = bar_chart_plan(&aggregate_counts(&records, |r| r.crime_desc.clone()), 5);
    let second = bar_chart_plan(&aggregate_counts(&records, |r| r.crime_desc.clone()), 5);
    assert_eq!(first.bars, second.bars);
    assert_eq!(first.bars, vec![("A".to_string(), 2), ("B".to_string(), 2), ("C".to_string(), 1), ("D".to_string(), 1)]);
}

#[test]
fn label_order_is_lexicographic() {
    let s = |x: &str| x.to_string();
    assert!(label_less(&s("ARSON"), &s("BURGLARY")));
    assert!(!label_less(&s("BURGLARY"), &s("ARSON")));
    assert!(label_less(&s("THEFT"), &s("THEFTS")));
    assert!(!label_less(&s("THEFT"), &s("THEFT")));
    assert!(label_less(&s(""), &s("A")));
    assert!(label_less(&s("Z"), &s("a")));
}
