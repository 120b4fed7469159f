//! The whole export: from its text to its rows.

use crate::row::{parse_row, row_value, RowFault, RowParseError, RowView, WooCommerceRow};
use vstd::prelude::*;

verus! {

/// The error of the `csv` crate's reader. Nothing is known of its inside.
#[verifier::external_type_specification]
#[verifier::external_body]
pub struct ExCsvError(csv::Error);

/// The records that the `csv` crate's reader finds in `data` after the
/// header line, in their order: the cells of each, or `None` for a record
/// that the reader refuses.
pub uninterp spec fn csv_records(data: Seq<char>) -> Seq<Option<Seq<Seq<char>>>>;

/// The cells of a record that was read, `None` for one that was refused.
pub open spec fn record_cells(record: Result<Vec<String>, csv::Error>) -> Option<Seq<Seq<char>>> {
    match record {
        Ok(cells) => Some(cells.deep_view()),
        Err(_) => None,
    }
}

/// The cells of each of `records`.
pub open spec fn records_cells(records: Seq<Result<Vec<String>, csv::Error>>) -> Seq<
    Option<Seq<Seq<char>>>,
> {
    Seq::new(records.len(), |i: int| record_cells(records[i]))
}

/// Reads the records of a comma-separated text whose first line is a
/// header.
///
/// Trusted: this runs `csv::Reader::records` on a reader that
/// `csv::ReaderBuilder::new` made with its defaults, and copies each
/// record's cells out of the `StringRecord`. The result is a function of
/// the text alone, which `csv_records` names; the reader yields no record
/// for an empty text.
#[verifier::external_body]
fn read_records(data: &str) -> (records: Vec<Result<Vec<String>, csv::Error>>)
    ensures
        records_cells(records@) == csv_records(data@),
        data@.len() == 0 ==> records@.len() == 0,
{
    let mut reader = csv::ReaderBuilder::new().from_reader(data.as_bytes());
    reader
        .records()
        .map(|r| r.map(|record| record.iter().map(|cell| cell.to_owned()).collect()))
        .collect()
}

/// What the reader says of a record that it refused.
///
/// Trusted: this is the `Display` text of `csv::Error`. Nothing is claimed
/// of it.
#[verifier::external_body]
fn reader_message(error: &csv::Error) -> String {
    format!("{}", error)
}

/// The rows of an export.
#[derive(Debug)]
pub struct InputData {
    /// The rows, in the order of the lines.
    pub data: Vec<WooCommerceRow>,
}

/// The rows that `records` make, or the fault of the first record that
/// makes none.
pub open spec fn rows_value(records: Seq<Option<Seq<Seq<char>>>>) -> Result<Seq<RowView>, RowFault>
    decreases records.len(),
{
    if records.len() == 0 {
        Ok(Seq::empty())
    } else {
        match rows_value(records.drop_last()) {
            Err(fault) => Err(fault),
            Ok(rows) => match records.last() {
                None => Err(RowFault::Unreadable),
                Some(cells) => match row_value(cells) {
                    Ok(row) => Ok(rows.push(row)),
                    Err(fault) => Err(fault),
                },
            },
        }
    }
}

/// Once a record fails, so does every longer run of records, in the same
/// way.
pub proof fn lemma_rows_value_fails_on(records: Seq<Option<Seq<Seq<char>>>>, k: int)
    requires
        0 <= k <= records.len(),
        rows_value(records.take(k)) is Err,
    ensures
        rows_value(records) == rows_value(records.take(k)),
    decreases records.len() - k,
{
    if k == records.len() {
        assert(records.take(k) == records);
    } else {
        assert(records.take(k + 1).drop_last() == records.take(k));
        lemma_rows_value_fails_on(records, k + 1);
    }
}

/// The row that one record makes, if it makes one.
pub open spec fn row_of_record(record: Option<Seq<Seq<char>>>) -> Option<RowView> {
    match record {
        Some(cells) => match row_value(cells) {
            Ok(row) => Some(row),
            Err(_) => None,
        },
        None => None,
    }
}

/// Where records make rows, each record makes one, and the rows stand in
/// the order of their records.
pub proof fn lemma_rows_follow_records(records: Seq<Option<Seq<Seq<char>>>>)
    requires
        rows_value(records) is Ok,
    ensures
        rows_value(records)->Ok_0.len() == records.len(),
        forall|i: int|
            0 <= i < records.len() ==> row_of_record(#[trigger] records[i]) == Some(
                rows_value(records)->Ok_0[i],
            ),
    decreases records.len(),
{
    if records.len() > 0 {
        let front = records.drop_last();
        lemma_rows_follow_records(front);
        let rows = rows_value(records)->Ok_0;
        let earlier = rows_value(front)->Ok_0;
        assert forall|i: int| 0 <= i < records.len() implies row_of_record(
            #[trigger] records[i],
        ) == Some(rows[i]) by {
            if i < front.len() {
                assert(front[i] == records[i]);
                assert(rows[i] == earlier[i]);
            }
        }
    }
}

/// One record that makes no row, wherever it stands, fails them all: no
/// rows are made of records that hold it.
pub proof fn lemma_bad_record_fails_all(records: Seq<Option<Seq<Seq<char>>>>, k: int)
    requires
        0 <= k < records.len(),
        records[k] matches Some(cells) ==> row_value(cells) is Err,
    ensures
        rows_value(records) is Err,
{
    let upto = records.take(k + 1);
    assert(upto.last() == records[k]);
    assert(rows_value(upto) is Err);
    lemma_rows_value_fails_on(records, k + 1);
}

/// Makes rows of the records that the reader found. The first record that
/// makes no row ends the work: no row is handed out then.
pub fn rows_from_records(records: &Vec<Result<Vec<String>, csv::Error>>) -> (r: Result<
    InputData,
    RowParseError,
>)
    ensures
        match rows_value(records_cells(records@)) {
            Ok(rows) => r matches Ok(input) && input.data.deep_view() == rows,
            Err(fault) => r matches Err(e) && e@ == fault,
        },
{
    let ghost all = records_cells(records@);
    let mut data: Vec<WooCommerceRow> = Vec::new();
    let mut i: usize = 0;
    assert(data.deep_view() =~= Seq::<RowView>::empty());
    while i < records.len()
        invariant
            i <= records.len(),
            all == records_cells(records@),
            rows_value(all.take(i as int)) == Ok::<Seq<RowView>, RowFault>(data.deep_view()),
        decreases records.len() - i,
    {
        assert(all.take(i + 1).drop_last() == all.take(i as int));
        assert(all.take(i + 1).last() == record_cells(records@[i as int]));
        let parsed: Result<WooCommerceRow, RowParseError> = match &records[i] {
            Ok(cells) => parse_row(cells),
            Err(error) => Err(RowParseError::Unreadable { detail: reader_message(error) }),
        };
        match parsed {
            Ok(row) => {
                let ghost before = data.deep_view();
                data.push(row);
                assert(data.deep_view() == before.push(row@));
            },
            Err(e) => {
                proof {
                    lemma_rows_value_fails_on(all, i + 1);
                }
                return Err(e);
            },
        }
        i = i + 1;
    }
    assert(all.take(i as int) == all);
    Ok(InputData { data })
}

/// Reads an export: its header line is passed over, and every line after
/// it becomes a row. One line that is no row fails the whole export. A text
/// with nothing in it is an export without rows.
pub fn parse_csv(data: &str) -> (r: Result<InputData, RowParseError>)
    ensures
        match rows_value(csv_records(data@)) {
            Ok(rows) => r matches Ok(input) && input.data.deep_view() == rows,
            Err(fault) => r matches Err(e) && e@ == fault,
        },
        data@.len() == 0 ==> (r matches Ok(input) && input.data@.len() == 0),
{
    let records = read_records(data);
    proof {
        if data@.len() == 0 {
            assert(records_cells(records@).len() == 0);
        }
    }
    rows_from_records(&records)
}

} // verus!
