//! Comma-separated tables, read and written by the `csv` crate.
//!
//! A row is a sequence of fields, a field a sequence of characters. What the
//! crate makes of bytes and of rows is named here and left unsaid: no contract
//! of this library spells out the format.
use vstd::prelude::*;

use crate::text::decimal;

verus! {

/// A reader of the `csv` crate.
#[verifier::external_type_specification]
#[verifier::external_body]
#[verifier::reject_recursive_types(R)]
pub struct ExCsvReader<R>(csv::Reader<R>);

/// A `csv::Writer` that writes into memory.
#[verifier::external_body]
pub struct RecordWriter {
    inner: csv::Writer<Vec<u8>>,
}

/// A record: its fields, or what is told of it where it cannot be read.
pub type Record = Result<Seq<Seq<char>>, Seq<char>>;

/// The records that the `csv` crate finds in `data`, without a header row and
/// with rows of any width. A record that is not UTF-8 is `Err`, with the text of
/// the crate's error.
pub uninterp spec fn csv_records(data: Seq<u8>) -> Seq<Result<Seq<Seq<char>>, Seq<char>>>;

/// The records that `reader` has not yielded yet.
pub uninterp spec fn csv_remaining(reader: csv::Reader<&[u8]>) -> Seq<
    Result<Seq<Seq<char>>, Seq<char>>,
>;

/// The rows that `writer` has taken.
pub uninterp spec fn csv_written(writer: RecordWriter) -> Seq<Seq<Seq<char>>>;

/// The bytes that the `csv` crate writes for `rows`.
pub uninterp spec fn csv_bytes(rows: Seq<Seq<Seq<char>>>) -> Seq<u8>;

/// The rows as a reader yields them when it can read them all.
pub open spec fn readable(rows: Seq<Seq<Seq<char>>>) -> Seq<Record> {
    Seq::new(rows.len(), |i: int| Ok(rows[i]))
}

/// What the `csv` crate tells of a row of `width` fields in a table of rows of
/// `expected` fields.
pub open spec fn unequal_text(width: nat, expected: nat) -> Seq<char> {
    "CSV error: found record with "@ + decimal(width) + " fields, but the previous record has "@
        + decimal(expected) + " fields"@
}

/// Rows that reading gives back as they were written: each has a field, and
/// the first character of the table is not a byte order mark, which a reader
/// drops.
pub open spec fn reads_back(rows: Seq<Seq<Seq<char>>>) -> bool {
    &&& forall|i: int| 0 <= i < rows.len() ==> (#[trigger] rows[i]).len() > 0
    &&& rows.len() > 0 && rows[0][0].len() > 0 ==> rows[0][0][0] != '\u{feff}'
}

/// `csv::ReaderBuilder` with headers off and flexible rows on, over bytes in
/// memory. The reader has every record of the bytes still to yield. A record
/// takes at least one byte, so there are no more records than bytes.
#[verifier::external_body]
pub(crate) fn open_reader<'a>(data: &'a [u8]) -> (reader: csv::Reader<&'a [u8]>)
    ensures
        csv_remaining(reader) == csv_records(data@),
        csv_remaining(reader).len() <= data@.len(),
{
    csv::ReaderBuilder::new().has_headers(false).flexible(true).from_reader(data)
}

/// `csv::Reader::records` and one `next` of the iterator it returns. Yields the
/// first record that is left, as owned fields, or the text of the error where
/// that record is not UTF-8; yields nothing once none is left. Over bytes in
/// memory no other error can come. The text tells the place of the record and
/// of the field in it, and so depends on the bytes alone.
#[verifier::external_body]
pub(crate) fn next_record(reader: &mut csv::Reader<&[u8]>) -> (next: Option<
    Result<Vec<String>, String>,
>)
    ensures
        csv_remaining(*old(reader)).len() == 0 ==> next is None && csv_remaining(
            *final(reader),
        ).len() == 0,
        csv_remaining(*old(reader)).len() > 0 ==> {
            &&& csv_remaining(*final(reader)) == csv_remaining(*old(reader)).drop_first()
            &&& next matches Some(result) && match csv_remaining(*old(reader))[0] {
                Ok(fields) => result matches Ok(row) && row.deep_view() == fields,
                Err(told) => result matches Err(text) && text@ == told,
            }
        },
{
    reader.records().next().map(
        |result| match result {
            Ok(record) => Ok(record.iter().map(str::to_owned).collect()),
            Err(error) => Err(error.to_string()),
        },
    )
}

/// `csv::WriterBuilder` with headers off, over an empty vector. Nothing is
/// written yet.
#[verifier::external_body]
pub(crate) fn open_writer() -> (writer: RecordWriter)
    ensures
        csv_written(writer) == Seq::<Seq<Seq<char>>>::empty(),
{
    RecordWriter { inner: csv::WriterBuilder::new().has_headers(false).from_writer(Vec::new()) }
}

/// `csv::Writer::write_record`. A row is taken exactly if it is as wide as the
/// first row that was written, or is the first itself; the text of the error
/// tells both widths. A vector takes every byte, so no other error can come. A
/// writer that refused a row is dropped.
#[verifier::external_body]
pub(crate) fn write_record(writer: RecordWriter, row: &Vec<String>) -> (result: Result<
    RecordWriter,
    String,
>)
    ensures
        match result {
            Ok(next) => {
                &&& csv_written(writer).len() == 0 || csv_written(writer)[0].len() == row@.len()
                &&& csv_written(next) == csv_written(writer).push(row.deep_view())
            },
            Err(text) => {
                &&& csv_written(writer).len() > 0
                &&& csv_written(writer)[0].len() != row@.len()
                &&& text@ == unequal_text(row@.len(), csv_written(writer)[0].len())
            },
        },
{
    let mut writer = writer;
    match writer.inner.write_record(row) {
        Ok(()) => Ok(writer),
        Err(error) => Err(error.to_string()),
    }
}

/// `csv::Writer::into_inner`. Hands over the bytes of the rows that were
/// written. Rows that [`reads_back`] admits are the records of those bytes.
#[verifier::external_body]
pub(crate) fn into_bytes(writer: RecordWriter) -> (data: Vec<u8>)
    ensures
        data@ == csv_bytes(csv_written(writer)),
        reads_back(csv_written(writer)) ==> csv_records(data@) == readable(csv_written(writer)),
{
    writer.inner.into_inner().expect("a vector takes every byte")
}

}
