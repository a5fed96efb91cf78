use crime_charts::record::{filter_records, matches_filter, parse_theft_data, record_from_row, CrimeRecord};

fn row(fields: &[&str]) -> Vec<String> {
    fields.iter().map(|f| f.to_string()).collect()
}

#[test]
fn malformed_rows_are_tolerated() {
    let text = "area,crime_desc,crime_date\nArea1,Theft,2023-01-01\nnull row\nArea2,Burglary,2023-01-02\n";
    let records = parse_theft_data(text).expect("short rows are not an error");
    assert_eq!(records.len(), 3);
    assert_eq!(records[0].crime_date, "2023-01-01");
    assert_eq!(records[0].area, "Unknown");
    assert_eq!(records[0].crime_desc, "Unknown");
    assert_eq!(records[1].crime_date, "1970-01-01");
    assert_eq!(records[2].crime_date, "2023-01-02");
}

#[test]
fn header_only_text_gives_no_records() {
    let records = parse_theft_data("a,b,c,d,e,f,g,h,i,j\n").unwrap();
    assert!(records.is_empty());
    assert!(parse_theft_data("").unwrap().is_empty());
}

#[test]
fn full_row_maps_columns_two_five_and_nine() {
    let text = "h0,h1,h2,h3,h4,h5,h6,h7,h8,h9\n\
                x,x,01/01/2023 10:00:00 AM,x,x,Hollywood,x,x,x,VEHICLE - STOLEN\n";
    let records = parse_theft_data(text).unwrap();
    assert_eq!(records.len(), 1);
    assert_eq!(records[0].crime_date, "01/01/2023 10:00:00 AM");
    assert_eq!(records[0].area, "Hollywood");
    assert_eq!(records[0].crime_desc, "VEHICLE - STOLEN");
}

#[test]
fn quoted_fields_are_unescaped() {
    let text = "h0,h1,h2,h3,h4,h5,h6,h7,h8,h9\n,,\"01/02/2023 09:00:00 AM\",,,\"Van, Nuys\",,,,\"SHOPLIFTING \"\"PETTY\"\"\"\n";
    let records = parse_theft_data(text).unwrap();
    assert_eq!(records[0].area, "Van, Nuys");
    assert_eq!(records[0].crime_desc, "SHOPLIFTING \"PETTY\"");
}

#[test]
fn records_keep_source_row_order() {
    let text = "h0,h1,h2,h3,h4,h5\n,,d1,,,A\n,,d2,,,B\n,,d3,,,C\n";
    let records = parse_theft_data(text).unwrap();
    let areas: Vec<&str> = records.iter().map(|r| r.area.as_str()).collect();
    assert_eq!(areas, vec!["A", "B", "C"]);
    let dates: Vec<&str> = records.iter().map(|r| r.crime_date.as_str()).collect();
    assert_eq!(dates, vec!["d1", "d2", "d3"]);
}

#[test]
fn short_row_gets_sentinels() {
    let r = record_from_row(&row(&["a", "b", "c", "d", "e", "Central"]));
    assert_eq!(r.crime_date, "c");
    assert_eq!(r.area, "Central");
    assert_eq!(r.crime_desc, "Unknown");
    let empty = record_from_row(&row(&[]));
    assert_eq!(empty.crime_date, "1970-01-01");
    assert_eq!(empty.area, "Unknown");
    assert_eq!(empty.crime_desc, "Unknown");
}

fn rec(area: &str, desc: &str, date: &str) -> CrimeRecord {
    CrimeRecord { area: area.to_string(), crime_desc: desc.to_string(), crime_date: date.to_string() }
}

#[test]
fn filter_is_exact_and_case_sensitive() {
    let records = vec![
        rec("Hollywood", "VEHICLE - STOLEN", "1"),
        rec("hollywood", "VEHICLE - STOLEN", "2"),
        rec("Hollywood", "VEHICLE - STOLEN ", "3"),
        rec("Central", "VEHICLE - STOLEN", "4"),
        rec("Hollywood", "VEHICLE - STOLEN", "5"),
    ];
    assert!(matches_filter(&records[0], "VEHICLE - STOLEN", "Hollywood"));
    assert!(!matches_filter(&records[1], "VEHICLE - STOLEN", "Hollywood"));
    let kept = filter_records(&records, "VEHICLE - STOLEN", "Hollywood");
    let dates: Vec<&str> = kept.iter().map(|r| r.crime_date.as_str()).collect();
    assert_eq!(dates, vec!["1", "5"]);
}

#[test]
fn filter_that_misses_everything_is_empty() {
    let records: Vec<CrimeRecord> = (0..10).map(|i| rec("Central", "THEFT", &format!("{i}"))).collect();
    assert!(filter_records(&records, "VEHICLE - STOLEN", "Hollywood").is_empty());
}
