use zip_chunker::error::PackError;
use zip_chunker::manifest::{encoded_line, header_line, ManifestRow};

#[test]
fn header_line_names_both_columns() {
    assert_eq!(header_line(), Ok(b"zip,filename\n".to_vec()));
}

#[test]
fn row_line_is_archive_then_entry() {
    let row = ManifestRow::new("out_0.zip".to_string(), "a.txt".to_string());
    assert_eq!(row.line(), Ok(b"out_0.zip,a.txt\n".to_vec()));
}

#[test]
fn row_line_quotes_a_comma() {
    let row = ManifestRow::new("out_0.zip".to_string(), "a,b.txt".to_string());
    assert_eq!(row.line(), Ok(b"out_0.zip,\"a,b.txt\"\n".to_vec()));
}

#[test]
fn row_line_doubles_a_quote() {
    let row = ManifestRow::new("out_1.zip".to_string(), "say \"hi\".txt".to_string());
    assert_eq!(row.line(), Ok(b"out_1.zip,\"say \"\"hi\"\".txt\"\n".to_vec()));
}

#[test]
fn row_line_keeps_non_ascii_bytes() {
    let row = ManifestRow::new("日本_0.zip".to_string(), "ü.txt".to_string());
    assert_eq!(row.line(), Ok("日本_0.zip,ü.txt\n".as_bytes().to_vec()));
}

#[test]
fn row_line_reads_back_as_the_row() {
    let row = ManifestRow::new("o_3.zip".to_string(), "line\nbreak, and \"quote\"".to_string());
    let line = row.line().unwrap();
    let mut reader = csv::ReaderBuilder::new().has_headers(false).from_reader(line.as_slice());
    let records: Vec<csv::StringRecord> = reader.records().map(|r| r.unwrap()).collect();
    assert_eq!(records.len(), 1);
    assert_eq!(records[0].len(), 2);
    assert_eq!(&records[0][0], "o_3.zip");
    assert_eq!(&records[0][1], "line\nbreak, and \"quote\"");
}

#[test]
fn row_new_keeps_fields() {
    let row = ManifestRow::new("a_0.zip".to_string(), "x".to_string());
    assert_eq!(row.archive, "a_0.zip");
    assert_eq!(row.entry, "x");
}

#[test]
fn encoded_line_passes_bytes_on() {
    assert_eq!(encoded_line(Ok(vec![1, 2, 3])), Ok(vec![1, 2, 3]));
    assert_eq!(encoded_line(Ok(Vec::new())), Ok(Vec::new()));
}

#[test]
fn encoded_line_turns_failure_into_manifest_error() {
    let failure = csv::Error::from(std::io::Error::new(std::io::ErrorKind::Other, "full"));
    assert_eq!(encoded_line(Err(failure)), Err(PackError::Manifest));
}
