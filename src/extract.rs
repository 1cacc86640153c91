//! Selection of one named column from the rows of a CSV document.

use vstd::prelude::*;

use crate::csv_source::{csv_header, csv_records, read_header, read_records, strings_view};

verus! {

/// Why a CSV document yields no column values.
#[derive(Clone, Copy, Debug, PartialEq, Eq, Structural)]
pub enum ExtractError {
    /// The header row cannot be read.
    Parse,
    /// The header row does not name the requested column.
    MissingColumn,
}

/// The name of the column that holds an email address or a mobile number.
pub const RECORD_FIELD: &'static str = "mob_or_email";

/// The rows as the parser hands them out, a failed row as `None`.
pub open spec fn rows_view<E>(records: Seq<Result<Vec<String>, E>>) -> Seq<Option<Seq<Seq<char>>>> {
    records.map_values(
        |r: Result<Vec<String>, E>|
            match r {
                Ok(f) => Some(strings_view(f@)),
                Err(_) => None,
            },
    )
}

/// The first position at or after `from` where `header` names `column`.
pub open spec fn first_match(header: Seq<Seq<char>>, column: Seq<char>, from: nat) -> Option<nat>
    decreases header.len() - from,
{
    if from >= header.len() {
        None
    } else if header[from as int] == column {
        Some(from)
    } else {
        first_match(header, column, from + 1)
    }
}

/// The position of the first header field equal to `column`.
pub open spec fn column_index(header: Seq<Seq<char>>, column: Seq<char>) -> Option<nat> {
    first_match(header, column, 0)
}

/// The field at `index` of a row that was read and has that many fields.
pub open spec fn row_field(row: Option<Seq<Seq<char>>>, index: nat) -> Option<Seq<char>> {
    match row {
        Some(fields) => if index < fields.len() {
            Some(fields[index as int])
        } else {
            None
        },
        None => None,
    }
}

/// A row that yields a value for the column at `index`.
pub open spec fn well_formed(row: Option<Seq<Seq<char>>>, index: nat) -> bool {
    row_field(row, index) is Some
}

/// The values of the column at `index`, one for each well-formed row, in
/// row order; other rows are skipped.
pub open spec fn column_values(rows: Seq<Option<Seq<Seq<char>>>>, index: nat) -> Seq<Seq<char>> {
    rows.filter_map(|row: Option<Seq<Seq<char>>>| row_field(row, index))
}

/// What extracting `column` from a document with this header and these rows
/// gives.
pub open spec fn extraction(
    header: Option<Seq<Seq<char>>>,
    rows: Seq<Option<Seq<Seq<char>>>>,
    column: Seq<char>,
) -> Result<Seq<Seq<char>>, ExtractError> {
    match header {
        None => Err(ExtractError::Parse),
        Some(h) => match column_index(h, column) {
            None => Err(ExtractError::MissingColumn),
            Some(i) => Ok(column_values(rows, i)),
        },
    }
}

/// The view of an extraction result.
pub open spec fn result_view(r: Result<Vec<String>, ExtractError>) -> Result<Seq<Seq<char>>, ExtractError> {
    match r {
        Ok(v) => Ok(strings_view(v@)),
        Err(e) => Err(e),
    }
}

/// Finds the first header field equal to `column`.
pub fn find_column(header: &Vec<String>, column: &str) -> (r: Option<usize>)
    ensures
        match column_index(strings_view(header@), column@) {
            Some(i) => r is Some && r->0 == i,
            None => r is None,
        },
{
    let ghost h = strings_view(header@);
    let wanted = String::from_str(column);
    let mut i: usize = 0;
    while i < header.len()
        invariant
            i <= header.len(),
            h == strings_view(header@),
            wanted@ == column@,
            column_index(h, column@) == first_match(h, column@, i as nat),
        decreases header.len() - i,
    {
        assert(h[i as int] == header@[i as int]@);
        if header[i] == wanted {
            return Some(i);
        }
        i = i + 1;
    }
    None
}

/// Takes from each record that was read and has the column the value of the
/// column that `header` names `column`, in record order.
pub fn select_column<E>(
    header: &Vec<String>,
    records: &Vec<Result<Vec<String>, E>>,
    column: &str,
) -> (r: Result<Vec<String>, ExtractError>)
    ensures
        result_view(r) == extraction(Some(strings_view(header@)), rows_view(records@), column@),
{
    let index = match find_column(header, column) {
        Some(index) => index,
        None => return Err(ExtractError::MissingColumn),
    };
    let ghost rows = rows_view(records@);
    let ghost f = |row: Option<Seq<Seq<char>>>| row_field(row, index as nat);
    let mut out: Vec<String> = Vec::new();
    let mut i: usize = 0;
    while i < records.len()
        invariant
            i <= records.len(),
            rows == rows_view(records@),
            f == (|row: Option<Seq<Seq<char>>>| row_field(row, index as nat)),
            strings_view(out@) == rows.take(i as int).filter_map(f),
        decreases records.len() - i,
    {
        let ghost before = out@;
        match &records[i] {
            Ok(fields) => {
                if index < fields.len() {
                    out.push(fields[index].clone());
                }
            },
            Err(_) => {},
        }
        proof {
            let t = rows.take(i as int + 1);
            assert(t.drop_last() =~= rows.take(i as int));
            assert(t.last() == rows[i as int]);
            assert(strings_view(out@) =~= match f(rows[i as int]) {
                Some(v) => strings_view(before).push(v),
                None => strings_view(before),
            });
        }
        i = i + 1;
    }
    proof {
        assert(rows.take(records.len() as int) =~= rows);
    }
    Ok(out)
}

/// Extracts the column named `column` from the CSV document `data`: the
/// value of that column in each data row that the parser reads, in order.
/// Rows that the parser rejects are skipped.
pub fn extract_column(data: &[u8], column: &str) -> (r: Result<Vec<String>, ExtractError>)
    ensures
        result_view(r) == extraction(csv_header(data@), csv_records(data@), column@),
{
    let header = match read_header(data) {
        Ok(header) => header,
        Err(_) => return Err(ExtractError::Parse),
    };
    let records = read_records(data);
    proof {
        assert(rows_view(records@) =~= csv_records(data@));
    }
    select_column(&header, &records, column)
}

/// Extracts the email address or mobile number of each record of the CSV
/// document `data`, from its column `mob_or_email`.
pub fn get_data_from(data: &[u8]) -> (r: Result<Vec<String>, ExtractError>)
    ensures
        result_view(r) == extraction(csv_header(data@), csv_records(data@), RECORD_FIELD@),
{
    extract_column(data, RECORD_FIELD)
}

/// Where every row is well formed, there is one value for each row, the
/// value of row `i` in place `i`.
pub proof fn lemma_all_rows_well_formed(rows: Seq<Option<Seq<Seq<char>>>>, index: nat)
    requires
        forall|i: int| 0 <= i < rows.len() ==> well_formed(#[trigger] rows[i], index),
    ensures
        column_values(rows, index).len() == rows.len(),
        forall|i: int|
            0 <= i < rows.len() ==> Some(#[trigger] column_values(rows, index)[i]) == row_field(
                rows[i],
                index,
            ),
    decreases rows.len(),
{
    if rows.len() > 0 {
        let rest = rows.drop_last();
        assert forall|i: int| 0 <= i < rest.len() implies well_formed(#[trigger] rest[i], index) by {
            assert(rest[i] == rows[i]);
        }
        lemma_all_rows_well_formed(rest, index);
        assert(well_formed(rows[rows.len() - 1], index));
    }
}

/// The values of two runs of rows, one after the other, are the values of
/// the first run followed by those of the second.
pub proof fn lemma_rows_concat(a: Seq<Option<Seq<Seq<char>>>>, b: Seq<Option<Seq<Seq<char>>>>, index: nat)
    ensures
        column_values(a + b, index) == column_values(a, index) + column_values(b, index),
    decreases b.len(),
{
    if b.len() == 0 {
        assert(a + b =~= a);
        assert(column_values(a, index) + column_values(b, index) =~= column_values(a, index));
    } else {
        let rest = b.drop_last();
        lemma_rows_concat(a, rest, index);
        assert((a + b).drop_last() =~= a + rest);
        assert((a + b).last() == b.last());
        match row_field(b.last(), index) {
            Some(v) => {
                assert(column_values(a + b, index) =~= column_values(a, index) + column_values(
                    rest,
                    index,
                ).push(v));
            },
            None => {},
        }
    }
}

/// A malformed row between other rows adds no value and leaves the values
/// of the others, and their order, as they were.
pub proof fn lemma_malformed_row_skipped(
    a: Seq<Option<Seq<Seq<char>>>>,
    row: Option<Seq<Seq<char>>>,
    b: Seq<Option<Seq<Seq<char>>>>,
    index: nat,
)
    requires
        !well_formed(row, index),
    ensures
        column_values(a + seq![row] + b, index) == column_values(a + b, index),
{
    lemma_rows_concat(a + seq![row], b, index);
    lemma_rows_concat(a, seq![row], index);
    lemma_rows_concat(a, b, index);
    let one = seq![row];
    assert(one.drop_last() =~= Seq::<Option<Seq<Seq<char>>>>::empty());
    assert(one.last() == row);
    reveal_with_fuel(Seq::filter_map, 2);
    assert(column_values(one, index) =~= Seq::<Seq<char>>::empty());
    assert(column_values(a, index) + column_values(one, index) =~= column_values(a, index));
}

/// There are exactly as many values as well-formed rows.
pub proof fn lemma_value_count(rows: Seq<Option<Seq<Seq<char>>>>, index: nat)
    ensures
        column_values(rows, index).len() == rows.filter(
            |row: Option<Seq<Seq<char>>>| well_formed(row, index),
        ).len(),
    decreases rows.len(),
{
    reveal(Seq::filter);
    if rows.len() > 0 {
        lemma_value_count(rows.drop_last(), index);
    }
}

/// Where no row is well formed there are no values.
pub proof fn lemma_no_well_formed_rows(rows: Seq<Option<Seq<Seq<char>>>>, index: nat)
    requires
        forall|i: int| 0 <= i < rows.len() ==> !well_formed(#[trigger] rows[i], index),
    ensures
        column_values(rows, index) == Seq::<Seq<char>>::empty(),
    decreases rows.len(),
{
    if rows.len() > 0 {
        let rest = rows.drop_last();
        assert forall|i: int| 0 <= i < rest.len() implies !well_formed(#[trigger] rest[i], index) by {
            assert(rest[i] == rows[i]);
        }
        lemma_no_well_formed_rows(rest, index);
        assert(!well_formed(rows[rows.len() - 1], index));
    }
}

} // verus!
