use vstd::prelude::*;
use vstd::string::*;

verus! {

/// One incident: a location label, a category label and the unparsed
/// timestamp, in the format `MM/DD/YYYY hh:mm:ss AM|PM`.
#[derive(Debug, Clone)]
pub struct CrimeRecord {
    pub area: String,
    pub crime_desc: String,
    pub crime_date: String,
}

/// Zero-based column holding the timestamp.
pub const DATE_COLUMN: usize = 2;

/// Zero-based column holding the location label.
pub const AREA_COLUMN: usize = 5;

/// Zero-based column holding the category label.
pub const DESC_COLUMN: usize = 9;

/// Sentinel for a missing location or category.
pub open spec fn unknown_label() -> Seq<char> {
    seq!['U', 'n', 'k', 'n', 'o', 'w', 'n']
}

/// Sentinel for a missing timestamp; it never parses as one.
pub open spec fn epoch_label() -> Seq<char> {
    seq!['1', '9', '7', '0', '-', '0', '1', '-', '0', '1']
}

/// The field at column `i` of a row, or `default` when the row is shorter.
pub open spec fn field_or(row: Seq<Seq<char>>, i: int, default: Seq<char>) -> Seq<char> {
    if 0 <= i < row.len() {
        row[i]
    } else {
        default
    }
}

/// The record that a row of fields describes.
pub open spec fn row_describes(row: Seq<Seq<char>>, r: CrimeRecord) -> bool {
    &&& r.crime_date@ == field_or(row, DATE_COLUMN as int, epoch_label())
    &&& r.area@ == field_or(row, AREA_COLUMN as int, unknown_label())
    &&& r.crime_desc@ == field_or(row, DESC_COLUMN as int, unknown_label())
}

/// The fields of a row, as character sequences.
pub open spec fn row_view(row: Vec<String>) -> Seq<Seq<char>> {
    row@.map_values(|f: String| f@)
}

/// The rows of a table, as sequences of character sequences.
pub open spec fn rows_view(rows: Seq<Vec<String>>) -> Seq<Seq<Seq<char>>> {
    rows.map_values(|row: Vec<String>| row_view(row))
}

/// Whether a record matches a category and a location exactly.
pub open spec fn is_match(r: CrimeRecord, crime: Seq<char>, location: Seq<char>) -> bool {
    r.crime_desc@ == crime && r.area@ == location
}

/// The records that match a category and a location, in their order.
pub open spec fn matching(records: Seq<CrimeRecord>, crime: Seq<char>, location: Seq<char>) -> Seq<CrimeRecord>
    decreases records.len(),
{
    if records.len() == 0 {
        Seq::empty()
    } else {
        let rest = matching(records.drop_last(), crime, location);
        if is_match(records.last(), crime, location) {
            rest.push(records.last())
        } else {
            rest
        }
    }
}

/// The field at column `i`, or `default` where the row is shorter.
fn field_or_default(row: &Vec<String>, i: usize, default: &str) -> (r: String)
    ensures
        r@ == field_or(row_view(*row), i as int, default@),
{
    if i < row.len() {
        row[i].clone()
    } else {
        String::from_str(default)
    }
}

/// Builds a record from a row by the fixed column mapping; a missing column
/// gets its sentinel.
pub fn record_from_row(row: &Vec<String>) -> (r: CrimeRecord)
    ensures
        row_describes(row_view(*row), r),
{
    proof {
        reveal_strlit("Unknown");
        reveal_strlit("1970-01-01");
        assert("Unknown"@ =~= unknown_label());
        assert("1970-01-01"@ =~= epoch_label());
    }
    let crime_date = field_or_default(row, DATE_COLUMN, "1970-01-01");
    let area = field_or_default(row, AREA_COLUMN, "Unknown");
    let crime_desc = field_or_default(row, DESC_COLUMN, "Unknown");
    CrimeRecord { area, crime_desc, crime_date }
}

/// Builds one record per row, in the rows' order.
pub fn records_from_rows(rows: &Vec<Vec<String>>) -> (r: Vec<CrimeRecord>)
    ensures
        r.len() == rows.len(),
        forall|i: int| 0 <= i < rows.len() ==> row_describes(#[trigger] rows_view(rows@)[i], r[i]),
{
    let mut out: Vec<CrimeRecord> = Vec::new();
    let mut i: usize = 0;
    while i < rows.len()
        invariant
            i <= rows.len(),
            out.len() == i,
            forall|j: int| 0 <= j < i ==> row_describes(#[trigger] rows_view(rows@)[j], out[j]),
        decreases rows.len() - i,
    {
        let rec = record_from_row(&rows[i]);
        out.push(rec);
        i = i + 1;
    }
    out
}

/// A field-by-field copy of a record.
fn copy_record(r: &CrimeRecord) -> (c: CrimeRecord)
    ensures
        c == *r,
{
    CrimeRecord { area: r.area.clone(), crime_desc: r.crime_desc.clone(), crime_date: r.crime_date.clone() }
}

/// Whether a record has exactly the given category and location.
pub fn matches_filter(r: &CrimeRecord, crime: &str, location: &str) -> (b: bool)
    ensures
        b == is_match(*r, crime@, location@),
{
    same_text(&r.crime_desc, crime) && same_text(&r.area, location)
}

/// Whether a string and a text hold the same characters.
fn same_text(a: &String, b: &str) -> (r: bool)
    ensures
        r == (a@ == b@),
{
    *a == String::from_str(b)
}

/// The records of the given category at the given location, in their order.
pub fn filter_records(records: &Vec<CrimeRecord>, crime: &str, location: &str) -> (r: Vec<CrimeRecord>)
    ensures
        r@ == matching(records@, crime@, location@),
{
    let mut out: Vec<CrimeRecord> = Vec::new();
    let mut i: usize = 0;
    while i < records.len()
        invariant
            i <= records.len(),
            out@ == matching(records@.subrange(0, i as int), crime@, location@),
        decreases records.len() - i,
    {
        proof {
            assert(records@.subrange(0, i + 1).drop_last() =~= records@.subrange(0, i as int));
        }
        if matches_filter(&records[i], crime, location) {
            out.push(copy_record(&records[i]));
        }
        i = i + 1;
    }
    proof {
        assert(records@.subrange(0, i as int) =~= records@);
    }
    out
}

/// The error type of the csv crate, carried opaquely.
#[verifier::external_type_specification]
#[verifier::external_body]
pub struct ExCsvError(csv::Error);

/// Why an ingest failed.
#[derive(Debug, Clone, Copy, PartialEq, Eq)]
pub enum IngestError {
    /// The text could not be lexed as CSV (a quoting error, for instance).
    Malformed,
}

/// What the csv crate's reader yields on a text: the data rows after the
/// header, each as its fields, or nothing when lexing fails.
pub uninterp spec fn csv_data_rows(text: Seq<char>) -> Option<Seq<Seq<Seq<char>>>>;

/// Relies on the csv crate's `Reader::records`, with the first row taken as the
/// header and rows of any length accepted: it yields each data row's fields in
/// order, or stops at the first row that fails to lex.
#[verifier::external_body]
fn lex_csv_rows(text: &str) -> (r: Result<Vec<Vec<String>>, csv::Error>)
    ensures
        r is Ok <==> csv_data_rows(text@) is Some,
        r is Ok ==> rows_view(r->Ok_0@) == csv_data_rows(text@)->0,
{
    let mut reader = csv::ReaderBuilder::new().flexible(true).from_reader(text.as_bytes());
    reader.records().map(|row| row.map(|fields| fields.iter().map(String::from).collect())).collect()
}

/// Reads the records of a CSV text with a header row: one record per data
/// row, in the text's order. Fails only where the text does not lex.
pub fn parse_theft_data(text: &str) -> (r: Result<Vec<CrimeRecord>, IngestError>)
    ensures
        r is Err <==> csv_data_rows(text@) is None,
        r is Err ==> r->Err_0 == IngestError::Malformed,
        r is Ok ==> r->Ok_0.len() == csv_data_rows(text@)->0.len(),
        r is Ok ==> forall|i: int|
            0 <= i < r->Ok_0.len() ==> row_describes(#[trigger] csv_data_rows(text@)->0[i], r->Ok_0[i]),
{
    match lex_csv_rows(text) {
        Ok(rows) => Ok(records_from_rows(&rows)),
        Err(_) => Err(IngestError::Malformed),
    }
}

} // verus!
