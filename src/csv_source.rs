//! The CSV parser of the `csv` crate, seen through named results.

use vstd::prelude::*;

verus! {

#[verifier::external_type_specification]
#[verifier::external_body]
pub struct ExCsvError(csv::Error);

/// The fields of a sequence of strings, as character sequences.
pub open spec fn strings_view(v: Seq<String>) -> Seq<Seq<char>> {
    v.map_values(|s: String| s@)
}

/// The header row that the `csv` crate reads from `data` with its default
/// settings, or `None` where that row cannot be read.
pub uninterp spec fn csv_header(data: Seq<u8>) -> Option<Seq<Seq<char>>>;

/// The data rows that the `csv` crate reads from `data` after the header
/// row, in order; `None` for a row that it reports as an error.
pub uninterp spec fn csv_records(data: Seq<u8>) -> Seq<Option<Seq<Seq<char>>>>;

/// Relies on `csv::Reader::from_reader` and `csv::Reader::headers`: the first
/// row of `data` read as UTF-8 fields, or the error met while reading it.
#[verifier::external_body]
pub(crate) fn read_header(data: &[u8]) -> (r: Result<Vec<String>, csv::Error>)
    ensures
        match r {
            Ok(h) => csv_header(data@) == Some(strings_view(h@)),
            Err(_) => csv_header(data@) is None,
        },
{
    let mut reader = csv::Reader::from_reader(data);
    reader.headers().map(|h| h.iter().map(String::from).collect())
}

/// Relies on `csv::Reader::from_reader` and `csv::Reader::records`: each row
/// after the header, in order, as UTF-8 fields or as the error met on it.
#[verifier::external_body]
pub(crate) fn read_records(data: &[u8]) -> (r: Vec<Result<Vec<String>, csv::Error>>)
    ensures
        r@.len() == csv_records(data@).len(),
        forall|i: int|
            0 <= i < r@.len() ==> match #[trigger] r@[i] {
                Ok(f) => csv_records(data@)[i] == Some(strings_view(f@)),
                Err(_) => csv_records(data@)[i] is None,
            },
{
    let mut reader = csv::Reader::from_reader(data);
    reader.records().map(|rec| rec.map(|f| f.iter().map(String::from).collect())).collect()
}

} // verus!
