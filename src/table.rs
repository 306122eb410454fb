//! Reading and writing tables in the delimited text encoding, through the
//! csv crate.
use vstd::prelude::*;
use crate::group::{fields_view, rows_view};

verus! {

/// An error of the csv crate, carried through unchanged.
#[verifier::external_type_specification]
#[verifier::external_body]
pub struct ExCsvError(csv::Error);

/// What the csv crate's reader, with its default settings, makes of `input`:
/// the header row and the data rows, or `None` where it reports an error.
pub uninterp spec fn csv_table_of(input: Seq<u8>) -> Option<(Seq<Seq<char>>, Seq<Seq<Seq<char>>>)>;

/// What the csv crate's writer, with its default settings, makes of `rows`,
/// or `None` where it reports an error.
pub uninterp spec fn csv_encoding_of(rows: Seq<Seq<Seq<char>>>) -> Option<Seq<u8>>;

/// Relies on `csv::Reader::from_reader`, `Reader::headers` and
/// `Reader::records`: the first record of `input` is the header, the others
/// are the data rows, and the outcome depends on the bytes alone.
#[verifier::external_body]
pub(crate) fn read_table(input: &[u8]) -> (r: Result<(Vec<String>, Vec<Vec<String>>), csv::Error>)
    ensures
        r is Err <==> csv_table_of(input@) is None,
        r matches Ok((h, rows)) ==> csv_table_of(input@) == Some(
            (fields_view(h@), rows_view(rows@)),
        ),
{
    let mut rdr = csv::Reader::from_reader(input);
    let header: Vec<String> = rdr.headers()?.iter().map(|f| f.to_string()).collect();
    let mut rows: Vec<Vec<String>> = Vec::new();
    for rec in rdr.records() {
        rows.push(rec?.iter().map(|f| f.to_string()).collect());
    }
    Ok((header, rows))
}

/// Relies on `csv::Writer::from_writer`, `Writer::write_record` and
/// `Writer::into_inner` over an in-memory buffer: the bytes written depend on
/// the rows alone.
#[verifier::external_body]
pub(crate) fn write_table(rows: &Vec<Vec<String>>) -> (r: Result<Vec<u8>, csv::Error>)
    ensures
        r is Err <==> csv_encoding_of(rows_view(rows@)) is None,
        r matches Ok(b) ==> csv_encoding_of(rows_view(rows@)) == Some(b@),
{
    let mut wtr = csv::Writer::from_writer(Vec::new());
    for row in rows {
        wtr.write_record(row)?;
    }
    wtr.into_inner().map_err(|e| csv::Error::from(e.into_error()))
}

} // verus!
