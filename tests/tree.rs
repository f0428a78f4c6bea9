use treedirstate::storable::FileState;
use treedirstate::store::{MapStore, NullStore};
use treedirstate::tree::Tree;

// Test files in order.  Note lexicographic ordering of file9 and file10.
const TEST_FILES: [(&[u8], u32, i32, i32); 16] = [
    (b"dirA/subdira/file1", 0o644, 1, 10001),
    (b"dirA/subdira/file2", 0o644, 2, 10002),
    (b"dirA/subdirb/file3", 0o644, 3, 10003),
    (b"dirB/subdira/file4", 0o644, 4, 10004),
    (b"dirB/subdira/subsubdirx/file5", 0o644, 5, 10005),
    (b"dirB/subdira/subsubdiry/file6", 0o644, 6, 10006),
    (b"dirB/subdira/subsubdirz/file7", 0o755, 7, 10007),
    (b"dirB/subdira/subsubdirz/file8", 0o755, 8, 10008),
    (b"dirB/subdirb/file10", 0o644, 10, 10010),
    (b"dirB/subdirb/file9", 0o644, 9, 10009),
    (b"dirC/file11", 0o644, 11, 10011),
    (b"dirC/file12", 0o644, 12, 10012),
    (b"dirC/file13", 0o644, 13, 10013),
    (b"dirC/file14", 0o644, 14, 10014),
    (b"dirC/file15", 0o644, 15, 10015),
    (b"file16", 0o644, 16, 10016),
];

fn populate(t: &mut Tree<FileState>, s: &MapStore) {
    for &(name, mode, size, mtime) in TEST_FILES.iter() {
        t.add(s, name, &FileState::new(b'n', mode, size, mtime))
            .expect("can add file");
    }
}

#[test]
fn count_get_and_remove() {
    let ms = MapStore::new();
    let mut t = Tree::new();
    assert_eq!(t.file_count(), 0);
    assert_eq!(
        t.get(&ms, b"dirB/subdira/subsubdirz/file7").expect("can get"),
        None
    );
    populate(&mut t, &ms);
    assert_eq!(t.file_count(), 16);
    assert_eq!(
        t.get(&ms, b"dirB/subdira/subsubdirz/file7").expect("can get"),
        Some(FileState::new(b'n', 0o755, 7, 10007))
    );
    t.remove(&ms, b"dirB/subdirb/file9").expect("can remove");
    assert_eq!(t.file_count(), 15);
    t.remove(&ms, b"dirB/subdirb/file10").expect("can remove");
    assert_eq!(t.file_count(), 14);
    assert_eq!(
        t.get(&ms, b"dirB/subdira/subsubdirz/file7").expect("can get"),
        Some(FileState::new(b'n', 0o755, 7, 10007))
    );
    assert_eq!(t.get(&ms, b"dirB/subdirb/file9").expect("can get"), None);
}

#[test]
fn iterate() {
    let ms = MapStore::new();
    let mut t = Tree::new();
    assert_eq!(t.get_first(&ms).expect("can get first"), None);
    populate(&mut t, &ms);
    let mut expect_iter = TEST_FILES.iter();
    let expected = expect_iter.next().unwrap();
    let mut filename = expected.0.to_vec();
    assert_eq!(
        t.get_first(&ms).expect("can get first"),
        Some((
            filename.clone(),
            FileState::new(b'n', expected.1, expected.2, expected.3)
        ))
    );
    while let Some(expected) = expect_iter.next() {
        let actual = t.get_next(&ms, &filename).expect("can get next");
        filename = expected.0.to_vec();
        assert_eq!(
            actual,
            Some((
                filename.clone(),
                FileState::new(b'n', expected.1, expected.2, expected.3)
            ))
        );
    }
    assert_eq!(t.get_next(&ms, &filename).expect("can get next"), None);
}

#[test]
fn has_dir() {
    let ms = MapStore::new();
    let mut t = Tree::new();
    assert_eq!(
        t.has_dir(&ms, b"anything/").expect("can check has_dir"),
        false
    );
    populate(&mut t, &ms);
    assert_eq!(
        t.has_dir(&ms, b"something else/").expect("can check has_dir"),
        false
    );
    assert_eq!(t.has_dir(&ms, b"dirB/").expect("can check has_dir"), true);
    assert_eq!(
        t.has_dir(&ms, b"dirB/subdira/").expect("can check has_dir"),
        true
    );
    assert_eq!(
        t.has_dir(&ms, b"dirB/subdira/subsubdirz/")
            .expect("can check has_dir"),
        true
    );
    assert_eq!(
        t.has_dir(&ms, b"dirB/subdira/subsubdirz/file7")
            .expect("can check has_dir"),
        false
    );
    assert_eq!(
        t.has_dir(&ms, b"dirB/subdira/subsubdirz/file7/")
            .expect("can check has_dir"),
        false
    );
}

#[test]
fn write_empty() {
    let ns = NullStore::new();
    let mut ms = MapStore::new();
    let mut t = Tree::<FileState>::new();
    t.write_full(&mut ms, &ns).expect("can write full");
    t.write_delta(&mut ms).expect("can write delta");
    let mut ms2 = MapStore::new();
    t.write_full(&mut ms2, &ms).expect("can write full");
    let t_root = t.root_id().unwrap();
    let t_count = t.file_count();
    let mut t2 = Tree::<FileState>::open(t_root, t_count);
    assert_eq!(t2.get_first(&ms2).expect("can get first"), None);
}

#[test]
fn write() {
    let ns = NullStore::new();
    let mut ms = MapStore::new();
    let mut t = Tree::new();
    populate(&mut t, &ms);
    t.write_full(&mut ms, &ns).expect("can write full");
    t.write_delta(&mut ms).expect("can write delta");
    let mut ms2 = MapStore::new();
    t.write_full(&mut ms2, &ms).expect("can write full");
    let t_root = t.root_id().unwrap();
    let t_count = t.file_count();
    let mut t2 = Tree::open(t_root, t_count);
    assert_eq!(
        t2.get(&ms2, b"dirB/subdira/subsubdirz/file7").expect("can get"),
        Some(FileState::new(b'n', 0o755, 7, 10007))
    );
}

#[test]
fn visit() {
    let ms = MapStore::new();
    let mut t = Tree::new();
    populate(&mut t, &ms);
    let files: Vec<Vec<u8>> = t
        .visit(&ms)
        .expect("can visit")
        .into_iter()
        .map(|(path, _fs)| path)
        .collect();
    assert_eq!(
        files,
        TEST_FILES
            .iter()
            .map(|t| t.0.to_vec())
            .collect::<Vec<Vec<u8>>>()
    );
}
