use zip_chunker::naming::archive_name;

#[test]
fn archive_name_of_first_group() {
    assert_eq!(archive_name("out", 0), "out_0.zip");
}

#[test]
fn archive_name_of_small_indices() {
    assert_eq!(archive_name("out", 1), "out_1.zip");
    assert_eq!(archive_name("out", 9), "out_9.zip");
}

#[test]
fn archive_name_of_multi_digit_indices() {
    assert_eq!(archive_name("out", 10), "out_10.zip");
    assert_eq!(archive_name("photos", 407), "photos_407.zip");
    assert_eq!(archive_name("photos", 1000), "photos_1000.zip");
    assert_eq!(archive_name("x", 1234567890), "x_1234567890.zip");
}

#[test]
fn archive_name_of_largest_index() {
    assert_eq!(archive_name("d", usize::MAX), format!("d_{}.zip", usize::MAX));
}

#[test]
fn archive_name_keeps_base_as_it_is() {
    assert_eq!(archive_name("", 3), "_3.zip");
    assert_eq!(archive_name("my data_1", 2), "my data_1_2.zip");
    assert_eq!(archive_name("日本", 5), "日本_5.zip");
}

#[test]
fn archive_name_matches_decimal_formatting() {
    for index in 0..2500usize {
        assert_eq!(archive_name("dst", index), format!("dst_{}.zip", index));
    }
}

#[test]
fn archive_names_differ_between_groups() {
    let mut names: Vec<String> = (0..300usize).map(|i| archive_name("dst", i)).collect();
    names.sort();
    names.dedup();
    assert_eq!(names.len(), 300);
}
