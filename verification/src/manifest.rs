//! The manifest: one CSV row per archived file, naming its archive.

use vstd::prelude::*;
use crate::error::PackError;

verus! {

/// The error type of the `csv` crate, carried from the encoder to
/// `encoded_line`.
#[verifier::external_type_specification]
#[verifier::external_body]
pub struct ExCsvError(csv::Error);

/// The bytes that the `csv` crate writes for one record of the two fields
/// `first` and `second` with its default settings: the fields, quoted
/// where needed, a comma between them, and the record terminator.
pub uninterp spec fn csv_record(first: Seq<char>, second: Seq<char>) -> Seq<u8>;

/// Makes a writer over an empty buffer with `csv::Writer::from_writer`,
/// writes the two fields with `csv::Writer::write_record`, and takes the
/// buffer back with `csv::Writer::into_inner`. The call succeeds, because
/// a buffer in memory takes every write and a first record has no earlier
/// one to differ from in length; and its bytes depend on the two fields
/// alone.
#[verifier::external_body]
fn csv_encode(first: &str, second: &str) -> (res: Result<Vec<u8>, csv::Error>)
    ensures
        res is Ok,
        res matches Ok(bytes) ==> bytes@ == csv_record(first@, second@),
{
    let mut writer = csv::Writer::from_writer(Vec::new());
    writer.write_record([first, second])?;
    match writer.into_inner() {
        Ok(bytes) => Ok(bytes),
        Err(e) => Err(csv::Error::from(e.into_error())),
    }
}

/// One manifest row: the archive's file name and the entry's name in it.
#[derive(Clone, Debug, PartialEq, Eq)]
pub struct ManifestRow {
    pub archive: String,
    pub entry: String,
}

impl View for ManifestRow {
    type V = (Seq<char>, Seq<char>);

    /// The row as a pair of texts: archive name, entry name.
    open spec fn view(&self) -> (Seq<char>, Seq<char>) {
        (self.archive@, self.entry@)
    }
}

/// The encoded header row, `zip,filename`.
pub open spec fn header_bytes() -> Seq<u8> {
    csv_record("zip"@, "filename"@)
}

/// The encoded lines of `rows`, one per row.
pub open spec fn row_lines(rows: Seq<(Seq<char>, Seq<char>)>) -> Seq<Seq<u8>> {
    Seq::new(rows.len(), |i: int| csv_record(rows[i].0, rows[i].1))
}

/// The encoded manifest: the header, then the rows in order.
pub open spec fn manifest_bytes(rows: Seq<(Seq<char>, Seq<char>)>) -> Seq<u8> {
    header_bytes() + row_lines(rows).flatten()
}

/// A manifest grows by the line of each row that is added.
pub proof fn lemma_manifest_grows(rows: Seq<(Seq<char>, Seq<char>)>, row: (Seq<char>, Seq<char>))
    ensures
        manifest_bytes(rows.push(row)) == manifest_bytes(rows) + csv_record(row.0, row.1),
        manifest_bytes(Seq::empty()) == header_bytes(),
{
    let line = csv_record(row.0, row.1);
    assert(row_lines(rows.push(row)) =~= row_lines(rows).push(line));
    row_lines(rows).lemma_flatten_push(line);
    assert(header_bytes() + (row_lines(rows).flatten() + line) =~= manifest_bytes(rows) + line);
    assert(row_lines(Seq::empty()) =~= Seq::<Seq<u8>>::empty());
    assert(header_bytes() + Seq::<Seq<u8>>::empty().flatten() =~= header_bytes());
}

/// What the encoder's outcome means for the run: the line as it is, or a
/// manifest failure.
pub fn encoded_line(outcome: Result<Vec<u8>, csv::Error>) -> (line: Result<Vec<u8>, PackError>)
    ensures
        match outcome {
            Ok(bytes) => line == Ok::<Vec<u8>, PackError>(bytes),
            Err(_) => line == Err::<Vec<u8>, PackError>(PackError::Manifest),
        },
{
    match outcome {
        Ok(bytes) => Ok(bytes),
        Err(_) => Err(PackError::Manifest),
    }
}

/// The header line of the manifest.
pub fn header_line() -> (line: Result<Vec<u8>, PackError>)
    ensures
        line matches Ok(bytes) && bytes@ == header_bytes(),
{
    encoded_line(csv_encode("zip", "filename"))
}

impl ManifestRow {
    /// The row that records `entry` as held by `archive`.
    pub fn new(archive: String, entry: String) -> (row: ManifestRow)
        ensures
            row.archive == archive,
            row.entry == entry,
    {
        ManifestRow { archive, entry }
    }

    /// The line of this row in the manifest.
    pub fn line(&self) -> (line: Result<Vec<u8>, PackError>)
        ensures
            line matches Ok(bytes) && bytes@ == csv_record(self@.0, self@.1),
    {
        encoded_line(csv_encode(self.archive.as_str(), self.entry.as_str()))
    }
}

} // verus!
