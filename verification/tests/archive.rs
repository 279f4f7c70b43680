use std::io::Read;

use zip_chunker::archive::{
    entry_outcome, image_outcome, ArchiveWriter, Method, ENTRY_DATE, ENTRY_LIMIT, ENTRY_METHOD,
    ENTRY_MODE, ENTRY_TIME,
};
use zip_chunker::error::PackError;

fn open(image: Vec<u8>) -> zip::ZipArchive<std::io::Cursor<Vec<u8>>> {
    zip::ZipArchive::new(std::io::Cursor::new(image)).unwrap()
}

fn content(archive: &mut zip::ZipArchive<std::io::Cursor<Vec<u8>>>, index: usize) -> Vec<u8> {
    let mut file = archive.by_index(index).unwrap();
    let mut bytes = Vec::new();
    file.read_to_end(&mut bytes).unwrap();
    bytes
}

#[test]
fn entry_mode_is_rwxr_xr_x() {
    assert_eq!(ENTRY_MODE, 0o755);
}

#[test]
fn entry_attributes_are_stored_and_dated_1980() {
    assert_eq!(ENTRY_METHOD, Method::Stored);
    assert_eq!(ENTRY_DATE, 1 | (1 << 5));
    assert_eq!(ENTRY_TIME, 0);
    assert_eq!(ENTRY_LIMIT as u64, u32::MAX as u64);
}

#[test]
fn archive_entries_bear_the_fixed_date() {
    let mut writer = ArchiveWriter::new();
    writer.add("dated", b"x").unwrap();
    let mut archive = open(writer.finish().unwrap());
    let file = archive.by_index(0).unwrap();
    let stamp = file.last_modified();
    assert_eq!((stamp.year(), stamp.month(), stamp.day()), (1980, 1, 1));
    assert_eq!((stamp.hour(), stamp.minute(), stamp.second()), (0, 0, 0));
    assert_eq!(stamp.datepart(), ENTRY_DATE);
    assert_eq!(stamp.timepart(), ENTRY_TIME);
}

#[test]
fn archive_without_entries_is_a_valid_archive() {
    let image = ArchiveWriter::new().finish().unwrap();
    assert!(!image.is_empty());
    assert_eq!(open(image).len(), 0);
}

#[test]
fn archive_gives_back_what_went_in() {
    let mut writer = ArchiveWriter::new();
    assert_eq!(writer.add("a.txt", b"alpha"), Ok(()));
    assert_eq!(writer.add("b.bin", &[0u8, 255, 7, 7, 0]), Ok(()));
    let mut archive = open(writer.finish().unwrap());
    assert_eq!(archive.len(), 2);
    assert_eq!(content(&mut archive, 0), b"alpha".to_vec());
    assert_eq!(content(&mut archive, 1), vec![0u8, 255, 7, 7, 0]);
}

#[test]
fn archive_keeps_the_order_of_adding() {
    let names = ["z.txt", "a.txt", "m.txt", "b.txt"];
    let mut writer = ArchiveWriter::new();
    for name in names {
        writer.add(name, name.as_bytes()).unwrap();
    }
    let mut archive = open(writer.finish().unwrap());
    assert_eq!(archive.len(), 4);
    for (index, name) in names.iter().enumerate() {
        assert_eq!(archive.by_index(index).unwrap().name(), *name);
    }
}

#[test]
fn archive_entries_are_stored_with_fixed_mode() {
    let mut writer = ArchiveWriter::new();
    writer.add("text.txt", &[b'a'; 4096]).unwrap();
    let image = writer.finish().unwrap();
    assert!(image.len() > 4096);
    let mut archive = open(image);
    let file = archive.by_index(0).unwrap();
    assert_eq!(file.compression(), zip::CompressionMethod::Stored);
    assert_eq!(file.size(), 4096);
    assert_eq!(file.compressed_size(), 4096);
    assert_eq!(file.unix_mode().map(|mode| mode & 0o777), Some(0o755));
    assert!(file.is_file());
}

#[test]
fn archive_holds_an_empty_file() {
    let mut writer = ArchiveWriter::new();
    writer.add("empty", &[]).unwrap();
    writer.add("after", b"x").unwrap();
    let mut archive = open(writer.finish().unwrap());
    assert_eq!(archive.len(), 2);
    assert_eq!(content(&mut archive, 0), Vec::<u8>::new());
    assert_eq!(content(&mut archive, 1), b"x".to_vec());
}

#[test]
fn archive_image_contains_the_stored_bytes() {
    let data = b"these bytes are kept exactly as they are";
    let mut writer = ArchiveWriter::new();
    writer.add("kept", data).unwrap();
    let image = writer.finish().unwrap();
    assert!(image.windows(data.len()).any(|window| window == data));
}

#[test]
fn archive_image_depends_on_the_entries_alone() {
    let build = || {
        let mut writer = ArchiveWriter::new();
        writer.add("one", b"1").unwrap();
        writer.add("two", b"22").unwrap();
        writer.finish().unwrap()
    };
    assert_eq!(build(), build());
}

#[test]
fn archive_with_a_repeated_name_answers_with_the_later_entry() {
    let mut writer = ArchiveWriter::new();
    writer.add("same.txt", b"first").unwrap();
    writer.add("same.txt", b"second").unwrap();
    let mut archive = open(writer.finish().unwrap());
    let mut bytes = Vec::new();
    archive.by_name("same.txt").unwrap().read_to_end(&mut bytes).unwrap();
    assert_eq!(bytes, b"second".to_vec());
}

#[test]
fn entry_outcome_maps_success_and_failure() {
    assert_eq!(entry_outcome(Ok(())), Ok(()));
    assert_eq!(entry_outcome(Err(zip::result::ZipError::FileNotFound)), Err(PackError::Archive));
    let io = std::io::Error::new(std::io::ErrorKind::Other, "broken");
    assert_eq!(entry_outcome(Err(zip::result::ZipError::Io(io))), Err(PackError::Archive));
}

#[test]
fn image_outcome_maps_success_and_failure() {
    assert_eq!(image_outcome(Ok(vec![9, 8])), Ok(vec![9, 8]));
    assert_eq!(
        image_outcome(Err(zip::result::ZipError::InvalidArchive("bad"))),
        Err(PackError::Archive)
    );
}
