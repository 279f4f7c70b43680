use zip_chunker::layout::{
    prepare, Destination, Preparation, ARCHIVE_DIR, DEFAULT_FILES_PER_ARCHIVE, MANIFEST_FILE,
    POPULATED_NOTICE,
};

#[test]
fn populated_destination_is_declined() {
    assert_eq!(prepare(Destination::Populated), Preparation::Decline);
}

#[test]
fn absent_destination_is_created() {
    assert_eq!(prepare(Destination::Absent), Preparation::Create);
}

#[test]
fn empty_destination_is_used() {
    assert_eq!(prepare(Destination::Empty), Preparation::Run);
}

#[test]
fn only_populated_destination_is_declined() {
    for found in [Destination::Absent, Destination::Empty, Destination::Populated] {
        assert_eq!(prepare(found) == Preparation::Decline, found == Destination::Populated);
    }
}

#[test]
fn layout_names() {
    assert_eq!(ARCHIVE_DIR, "zip");
    assert_eq!(MANIFEST_FILE, "results.csv");
    assert_eq!(POPULATED_NOTICE, "Destination folder is not empty.");
    assert_eq!(DEFAULT_FILES_PER_ARCHIVE, 1000);
}
