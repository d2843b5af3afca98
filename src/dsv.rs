//! The conventional side of the conversion: delimiter-separated text, read
//! and written by the csv crate with no header row and any number of fields
//! per record.

use vstd::prelude::*;
use vstd::utf8::encode_utf8;
use crate::engine::Grid;

verus! {

#[verifier::external_type_specification]
#[verifier::external_body]
pub struct ExCsvError(csv::Error);

/// Delimiter-separated text that the csv reader could not take apart.
#[derive(Clone, Copy, Debug, PartialEq, Eq, Structural)]
pub struct MalformedDsv;

/// What csv reads from `data` with the field delimiter `delimiter`: the
/// records, or `None` where the reader reports an error (a field that is not
/// UTF-8).
pub uninterp spec fn dsv_records(data: Seq<u8>, delimiter: u8) -> Option<Grid>;

/// The line that csv writes for the record `rec` with the field delimiter
/// `delimiter`, terminator included.
pub uninterp spec fn dsv_line(rec: Seq<Seq<char>>, delimiter: u8) -> Seq<u8>;

/// The text of a grid: its records' lines one after another.
pub open spec fn dsv_text(g: Grid, delimiter: u8) -> Seq<u8>
    decreases g.len(),
{
    if g.len() == 0 {
        Seq::empty()
    } else {
        dsv_text(g.drop_last(), delimiter) + dsv_line(g.last(), delimiter)
    }
}

/// Relies on csv's `ReaderBuilder` (given delimiter, no header row, flexible
/// field counts) and its `records` iterator: the records read, each field as
/// a `String`, or the first error the reader reports. Both depend on the
/// bytes and the delimiter alone.
#[verifier::external_body]
fn read_records(data: &[u8], delimiter: u8) -> (r: Result<Vec<Vec<String>>, csv::Error>)
    ensures
        match dsv_records(data@, delimiter) {
            Some(g) => r is Ok && r->Ok_0.deep_view() == g,
            None => r is Err,
        },
{
    let mut reader = csv::ReaderBuilder::new().delimiter(delimiter).has_headers(false).flexible(
        true,
    ).from_reader(data);
    reader.records().map(|rec| rec.map(|fields| fields.iter().map(String::from).collect())).collect()
}

/// Relies on csv's `WriterBuilder` (given delimiter, flexible field counts)
/// writing one record into a `Vec<u8>` and handing the buffer back: the bytes
/// of that record's line. It succeeds: the writer fails only where writing
/// to or flushing its destination fails, which a `Vec<u8>` never does, or on
/// unequal field counts, which flexible records never report.
#[verifier::external_body]
fn record_line(rec: &Vec<String>, delimiter: u8) -> (r: Result<Vec<u8>, csv::Error>)
    ensures
        r is Ok && r->Ok_0@ == dsv_line(rec.deep_view(), delimiter),
{
    let mut writer = csv::WriterBuilder::new().delimiter(delimiter).flexible(true).from_writer(
        Vec::new(),
    );
    writer.write_record(rec)?;
    writer.into_inner().map_err(|e| csv::Error::from(e.into_error()))
}

/// Reads delimiter-separated text into a grid; fails exactly where csv's
/// reader reports an error.
pub fn parse(data: &[u8], delimiter: u8) -> (r: Result<Vec<Vec<String>>, MalformedDsv>)
    ensures
        match dsv_records(data@, delimiter) {
            Some(g) => r is Ok && r->Ok_0.deep_view() == g,
            None => r == Err::<Vec<Vec<String>>, MalformedDsv>(MalformedDsv),
        },
{
    match read_records(data, delimiter) {
        Ok(g) => Ok(g),
        Err(_) => Err(MalformedDsv),
    }
}

/// Writes a grid as delimiter-separated text, one line per record.
pub fn compile(data: Vec<Vec<String>>, delimiter: u8) -> (r: Vec<u8>)
    ensures
        r@ == dsv_text(data.deep_view(), delimiter),
{
    let ghost g = data.deep_view();
    let mut out: Vec<u8> = Vec::new();
    let mut i: usize = 0;
    assert(g.take(0) =~= Seq::<Seq<Seq<char>>>::empty());
    while i < data.len()
        invariant
            g == data.deep_view(),
            0 <= i <= data@.len(),
            out@ == dsv_text(g.take(i as int), delimiter),
        decreases data@.len() - i,
    {
        let mut line = record_line(&data[i], delimiter).unwrap();
        out.append(&mut line);
        assert(g.take(i + 1).drop_last() =~= g.take(i as int));
        i = i + 1;
    }
    assert(g.take(data@.len() as int) =~= g);
    out
}

/// The single byte of a one-byte delimiter argument; `None` for an argument
/// of any other length in bytes.
pub fn validate_delimiter(delimiter: &str) -> (r: Option<u8>)
    ensures
        r == (if encode_utf8(delimiter@).len() == 1 {
            Some(encode_utf8(delimiter@)[0])
        } else {
            None
        }),
{
    let bytes = delimiter.as_bytes();
    if bytes.len() == 1 {
        Some(bytes[0])
    } else {
        None
    }
}

} // verus!
