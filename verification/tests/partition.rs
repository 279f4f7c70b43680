use zip_chunker::entry::FileEntry;
use zip_chunker::error::PackError;
use zip_chunker::partition::{chunk_size, divide_files};

fn numbered(count: usize) -> Vec<FileEntry> {
    (0..count)
        .map(|i| FileEntry::new(format!("/data/in/f{}.bin", i), format!("f{}.bin", i)))
        .collect()
}

fn sizes(groups: &[Vec<FileEntry>]) -> Vec<usize> {
    groups.iter().map(|g| g.len()).collect()
}

#[test]
fn divide_2500_by_1000_gives_three_groups() {
    let groups = divide_files(numbered(2500), 1000).unwrap();
    assert_eq!(sizes(&groups), vec![1000, 1000, 500]);
}

#[test]
fn divide_nothing_gives_no_group() {
    let groups = divide_files(Vec::new(), 1000).unwrap();
    assert!(groups.is_empty());
}

#[test]
fn divide_exact_multiple_has_full_last_group() {
    let groups = divide_files(numbered(6), 3).unwrap();
    assert_eq!(sizes(&groups), vec![3, 3]);
}

#[test]
fn divide_with_large_chunk_gives_one_group() {
    let groups = divide_files(numbered(4), 1000).unwrap();
    assert_eq!(sizes(&groups), vec![4]);
}

#[test]
fn divide_by_one_gives_singletons() {
    let groups = divide_files(numbered(3), 1).unwrap();
    assert_eq!(sizes(&groups), vec![1, 1, 1]);
    assert_eq!(groups[2][0].name, "f2.bin");
}

#[test]
fn divide_by_zero_is_refused() {
    assert_eq!(divide_files(numbered(3), 0), Err(PackError::InvalidChunkSize));
    assert_eq!(divide_files(Vec::new(), 0), Err(PackError::InvalidChunkSize));
}

#[test]
fn divide_keeps_every_file_once_and_in_order() {
    let files = numbered(11);
    let groups = divide_files(files.clone(), 4).unwrap();
    assert_eq!(sizes(&groups), vec![4, 4, 3]);
    let joined: Vec<FileEntry> = groups.into_iter().flatten().collect();
    assert_eq!(joined, files);
}

#[test]
fn divide_puts_position_m_in_group_m_div_k() {
    let files = numbered(10);
    let groups = divide_files(files.clone(), 3).unwrap();
    for (m, file) in files.iter().enumerate() {
        assert_eq!(&groups[m / 3][m % 3], file);
    }
}

#[test]
fn divide_group_count_is_rounded_up_quotient() {
    for n in 0..40usize {
        for k in 1..9usize {
            let groups = divide_files(numbered(n), k).unwrap();
            assert_eq!(groups.len(), (n + k - 1) / k);
            for (i, group) in groups.iter().enumerate() {
                assert_eq!(group.len(), k.min(n - i * k));
            }
        }
    }
}

#[test]
fn divide_is_deterministic() {
    let first = divide_files(numbered(9), 4).unwrap();
    let second = divide_files(numbered(9), 4).unwrap();
    assert_eq!(first, second);
}

#[test]
fn chunk_size_takes_positive_numbers() {
    assert_eq!(chunk_size(1), Ok(1));
    assert_eq!(chunk_size(1000), Ok(1000));
    assert_eq!(chunk_size(i32::MAX), Ok(i32::MAX as usize));
}

#[test]
fn chunk_size_refuses_zero_and_negatives() {
    assert_eq!(chunk_size(0), Err(PackError::InvalidChunkSize));
    assert_eq!(chunk_size(-1), Err(PackError::InvalidChunkSize));
    assert_eq!(chunk_size(i32::MIN), Err(PackError::InvalidChunkSize));
}

#[test]
fn duplicate_copies_both_fields() {
    let entry = FileEntry::new("/a/b/c.txt".to_string(), "c.txt".to_string());
    let copy = entry.duplicate();
    assert_eq!(copy.path, "/a/b/c.txt");
    assert_eq!(copy.name, "c.txt");
    assert_eq!(copy, entry);
}
