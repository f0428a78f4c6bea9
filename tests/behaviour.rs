use treedirstate::key::split_key;
use treedirstate::storable::{FileState, Storable};
use treedirstate::store::{BlockId, MapStore, NullStore, Store, StoreView, TreeError};
use treedirstate::tree::Tree;

fn fs(n: i32) -> FileState {
    FileState::new(b'n', 0o644, n, 10000 + n)
}

fn fixture() -> Vec<(&'static [u8], FileState)> {
    vec![
        (&b"dirA/subdira/file1"[..], FileState::new(b'n', 0o644, 1, 10001)),
        (&b"dirA/subdira/file2"[..], FileState::new(b'n', 0o644, 2, 10002)),
        (&b"dirA/subdirb/file3"[..], FileState::new(b'n', 0o644, 3, 10003)),
        (&b"dirB/subdira/file4"[..], FileState::new(b'n', 0o644, 4, 10004)),
        (&b"dirB/subdira/subsubdirx/file5"[..], FileState::new(b'n', 0o644, 5, 10005)),
        (&b"dirB/subdira/subsubdiry/file6"[..], FileState::new(b'n', 0o644, 6, 10006)),
        (&b"dirB/subdira/subsubdirz/file7"[..], FileState::new(b'n', 0o755, 7, 10007)),
        (&b"dirB/subdira/subsubdirz/file8"[..], FileState::new(b'n', 0o755, 8, 10008)),
        (&b"dirB/subdirb/file10"[..], FileState::new(b'n', 0o644, 10, 10010)),
        (&b"dirB/subdirb/file9"[..], FileState::new(b'n', 0o644, 9, 10009)),
        (&b"dirC/file11"[..], FileState::new(b'n', 0o644, 11, 10011)),
        (&b"dirC/file12"[..], FileState::new(b'n', 0o644, 12, 10012)),
        (&b"dirC/file13"[..], FileState::new(b'n', 0o644, 13, 10013)),
        (&b"dirC/file14"[..], FileState::new(b'n', 0o644, 14, 10014)),
        (&b"dirC/file15"[..], FileState::new(b'n', 0o644, 15, 10015)),
        (&b"file16"[..], FileState::new(b'n', 0o644, 16, 10016)),
    ]
}

fn populated(ms: &MapStore) -> Tree<FileState> {
    let mut t = Tree::new();
    for (name, state) in fixture() {
        t.add(ms, name, &state).expect("can add file");
    }
    t
}

#[test]
fn split_key_cases() {
    assert_eq!(
        split_key(b"dirB/subdira/file7"),
        (&b"dirB/"[..], Some(&b"subdira/file7"[..]))
    );
    assert_eq!(split_key(b"dirB/"), (&b"dirB/"[..], None));
    assert_eq!(split_key(b"file"), (&b"file"[..], None));
    assert_eq!(split_key(b""), (&b""[..], None));
    assert_eq!(split_key(b"a//b"), (&b"a/"[..], Some(&b"/b"[..])));
}

#[test]
fn file_state_encoding() {
    let mut out = Vec::new();
    FileState::new(b'n', 0o644, 1, 10001).write(&mut out);
    assert_eq!(out, vec![0x6e, 0, 0, 0x01, 0xa4, 0, 0, 0, 1, 0, 0, 0x27, 0x11]);
    let (v, end) = FileState::read(&out, 0).expect("can read");
    assert_eq!(v, FileState::new(b'n', 0o644, 1, 10001));
    assert_eq!(end, 13);
    let mut neg = Vec::new();
    FileState::new(b'r', 0o755, -1, -2).write(&mut neg);
    assert_eq!(FileState::read(&neg, 0).expect("can read").0, FileState::new(b'r', 0o755, -1, -2));
    assert_eq!(FileState::read(&out[..12], 0), Err(TreeError::PayloadDecode));
}

#[test]
fn empty_tree() {
    let ms = MapStore::new();
    let mut t = Tree::<FileState>::new();
    assert_eq!(t.file_count(), 0);
    assert_eq!(t.get(&ms, b"anything").expect("can get"), None);
    assert_eq!(t.get(&ms, b"").expect("can get"), None);
    assert_eq!(t.get_first(&ms).expect("can get first"), None);
    assert_eq!(t.get_next(&ms, b"").expect("can get next"), None);
    assert_eq!(t.visit(&ms).expect("can visit"), vec![]);
}

#[test]
fn populate_all_files() {
    let ms = MapStore::new();
    let mut t = populated(&ms);
    assert_eq!(t.file_count(), 16);
    assert_eq!(
        t.get(&ms, b"dirB/subdira/subsubdirz/file7").expect("can get"),
        Some(FileState::new(b'n', 0o755, 7, 10007))
    );
    assert_eq!(t.visit(&ms).expect("can visit").len(), 16);
}

#[test]
fn remove_last_files_of_directory() {
    let ms = MapStore::new();
    let mut t = populated(&ms);
    assert_eq!(t.remove(&ms, b"dirB/subdirb/file9").expect("can remove"), true);
    assert_eq!(t.has_dir(&ms, b"dirB/subdirb/").expect("can check"), true);
    assert_eq!(t.remove(&ms, b"dirB/subdirb/file10").expect("can remove"), true);
    assert_eq!(t.file_count(), 14);
    assert_eq!(t.has_dir(&ms, b"dirB/subdirb/").expect("can check"), false);
    assert_eq!(t.has_dir(&ms, b"dirB/").expect("can check"), true);
    assert_eq!(t.remove(&ms, b"dirB/subdirb/file10").expect("can remove"), false);
    assert_eq!(t.file_count(), 14);
}

#[test]
fn remove_cleans_every_empty_ancestor() {
    let ms = MapStore::new();
    let mut t = Tree::new();
    t.add(&ms, b"a/b/c/f", &fs(1)).expect("can add");
    t.add(&ms, b"g", &fs(2)).expect("can add");
    assert_eq!(t.has_dir(&ms, b"a/b/c/").expect("can check"), true);
    assert_eq!(t.remove(&ms, b"a/b/c/f").expect("can remove"), true);
    assert_eq!(t.has_dir(&ms, b"a/").expect("can check"), false);
    assert_eq!(t.has_dir(&ms, b"a/b/").expect("can check"), false);
    assert_eq!(t.has_dir(&ms, b"a/b/c/").expect("can check"), false);
    assert_eq!(t.file_count(), 1);
    assert_eq!(t.visit(&ms).expect("can visit"), vec![(b"g".to_vec(), fs(2))]);
}

#[test]
fn iteration_order_puts_file10_before_file9() {
    let ms = MapStore::new();
    let mut t = populated(&ms);
    let mut keys = Vec::new();
    let mut cur = t.get_first(&ms).expect("can get first");
    while let Some((k, _)) = cur {
        cur = t.get_next(&ms, &k).expect("can get next");
        keys.push(k);
    }
    let expected: Vec<Vec<u8>> = fixture().into_iter().map(|(k, _)| k.to_vec()).collect();
    assert_eq!(keys, expected);
    let i10 = keys.iter().position(|k| k == b"dirB/subdirb/file10").unwrap();
    let i9 = keys.iter().position(|k| k == b"dirB/subdirb/file9").unwrap();
    assert!(i10 < i9);
}

#[test]
fn get_next_from_keys_not_in_tree() {
    let ms = MapStore::new();
    let mut t = populated(&ms);
    let next = |t: &mut Tree<FileState>, k: &[u8]| t.get_next(&ms, k).expect("can get next").map(|p| p.0);
    assert_eq!(next(&mut t, b""), Some(b"dirA/subdira/file1".to_vec()));
    assert_eq!(next(&mut t, b"dirB/"), Some(b"dirB/subdira/file4".to_vec()));
    assert_eq!(next(&mut t, b"dirB"), Some(b"dirB/subdira/file4".to_vec()));
    assert_eq!(next(&mut t, b"dirB/subdira/subsubdirz/"), Some(b"dirB/subdira/subsubdirz/file7".to_vec()));
    assert_eq!(next(&mut t, b"dirB/zzz"), Some(b"dirC/file11".to_vec()));
    assert_eq!(next(&mut t, b"dirC/file15"), Some(b"file16".to_vec()));
    assert_eq!(next(&mut t, b"file16"), None);
    assert_eq!(next(&mut t, b"zzz"), None);
}

#[test]
fn has_dir_checks() {
    let ms = MapStore::new();
    let mut t = populated(&ms);
    assert_eq!(t.has_dir(&ms, b"dirB/").expect("can check"), true);
    assert_eq!(t.has_dir(&ms, b"dirB/subdira/subsubdirz/").expect("can check"), true);
    assert_eq!(t.has_dir(&ms, b"dirB/subdira/subsubdirz/file7").expect("can check"), false);
    assert_eq!(t.has_dir(&ms, b"dirB/subdira/subsubdirz/file7/").expect("can check"), false);
    assert_eq!(t.has_dir(&ms, b"dirB").expect("can check"), false);
    assert_eq!(t.has_dir(&ms, b"").expect("can check"), false);
    assert_eq!(t.has_dir(&ms, b"file16/").expect("can check"), false);
}

#[test]
fn full_write_into_two_stores() {
    let ns = NullStore::new();
    let mut a = MapStore::new();
    let mut t = {
        let ms = MapStore::new();
        populated(&ms)
    };
    t.write_full(&mut a, &ns).expect("can write full");
    let mut ta = Tree::<FileState>::open(t.root_id().unwrap(), t.file_count());
    let mut b = MapStore::new();
    ta.write_full(&mut b, &a).expect("can write full");
    let mut tb = Tree::<FileState>::open(ta.root_id().unwrap(), ta.file_count());
    assert_eq!(
        tb.get(&b, b"dirB/subdira/subsubdirz/file7").expect("can get"),
        Some(FileState::new(b'n', 0o755, 7, 10007))
    );
    let all: Vec<(Vec<u8>, FileState)> =
        fixture().into_iter().map(|(k, v)| (k.to_vec(), v)).collect();
    assert_eq!(tb.visit(&b).expect("can visit"), all);
    assert_eq!(tb.file_count(), 16);
}

#[test]
fn delta_write_appends_only_changed_nodes() {
    let ns = NullStore::new();
    let mut ms = MapStore::new();
    let mut t = populated(&ms);
    t.write_full(&mut ms, &ns).expect("can write full");
    let before = ms.len();
    t.write_delta(&mut ms).expect("can write delta");
    assert_eq!(ms.len(), before);
    let root = t.root_id().unwrap();
    let mut t2 = Tree::<FileState>::open(root, t.file_count());
    t2.add(&ms, b"dirA/subdira/file1", &fs(99)).expect("can add");
    assert_eq!(t2.root_id(), None);
    t2.write_delta(&mut ms).expect("can write delta");
    // The root, dirA/ and dirA/subdira/ are new; every other block is shared.
    assert_eq!(ms.len(), before + 3);
    let mut t3 = Tree::<FileState>::open(t2.root_id().unwrap(), t2.file_count());
    assert_eq!(t3.get(&ms, b"dirA/subdira/file1").expect("can get"), Some(fs(99)));
    assert_eq!(
        t3.get(&ms, b"dirC/file13").expect("can get"),
        Some(FileState::new(b'n', 0o644, 13, 10013))
    );
    let mut old = Tree::<FileState>::open(root, 16);
    assert_eq!(
        old.get(&ms, b"dirA/subdira/file1").expect("can get"),
        Some(FileState::new(b'n', 0o644, 1, 10001))
    );
}

#[test]
fn delta_write_after_remove_reopens_equal() {
    let ns = NullStore::new();
    let mut ms = MapStore::new();
    let mut t = populated(&ms);
    t.write_full(&mut ms, &ns).expect("can write full");
    let mut t2 = Tree::<FileState>::open(t.root_id().unwrap(), t.file_count());
    t2.remove(&ms, b"dirC/file12").expect("can remove");
    t2.add(&ms, b"dirD/new", &fs(7)).expect("can add");
    let listed = t2.visit(&ms).expect("can visit");
    t2.write_delta(&mut ms).expect("can write delta");
    let mut t3 = Tree::<FileState>::open(t2.root_id().unwrap(), t2.file_count());
    assert_eq!(t3.visit(&ms).expect("can visit"), listed);
    assert_eq!(t3.file_count(), 16);
    assert_eq!(t3.get(&ms, b"dirC/file12").expect("can get"), None);
}

#[test]
fn block_format_of_one_file() {
    let ns = NullStore::new();
    let mut ms = MapStore::new();
    let mut t = Tree::new();
    t.add(&ms, b"a", &FileState::new(b'n', 0o644, 1, 10001)).expect("can add");
    t.write_full(&mut ms, &ns).expect("can write full");
    assert_eq!(t.root_id(), Some(BlockId(0)));
    let block = ms.read(BlockId(0)).expect("can read");
    let mut expected = vec![0, 0, 0, 1, b'f'];
    expected.extend_from_slice(&[0x6e, 0, 0, 0x01, 0xa4, 0, 0, 0, 1, 0, 0, 0x27, 0x11]);
    expected.extend_from_slice(&[0, 0, 0, 1, b'a']);
    assert_eq!(block, expected);
}

#[test]
fn block_format_of_a_directory() {
    let ns = NullStore::new();
    let mut ms = MapStore::new();
    let mut t = Tree::new();
    t.add(&ms, b"d/f", &fs(1)).expect("can add");
    t.write_full(&mut ms, &ns).expect("can write full");
    assert_eq!(t.root_id(), Some(BlockId(1)));
    let root = ms.read(BlockId(1)).expect("can read");
    assert_eq!(
        root,
        vec![0, 0, 0, 1, b'd', 0, 0, 0, 0, 0, 0, 0, 0, 0, 0, 0, 2, b'd', b'/']
    );
}

fn open_block(bytes: &[u8]) -> (MapStore, Tree<FileState>) {
    let mut ms = MapStore::new();
    let id = ms.append(bytes).expect("can append");
    (ms, Tree::open(id, 0))
}

#[test]
fn unknown_tag_is_corrupt() {
    let (ms, mut t) = open_block(&[0, 0, 0, 1, b'x', 0, 0, 0, 0]);
    assert_eq!(t.get(&ms, b"a"), Err(TreeError::CorruptTree));
}

#[test]
fn trailing_bytes_are_corrupt() {
    let (ms, mut t) = open_block(&[0, 0, 0, 0, 7]);
    assert_eq!(t.get_first(&ms), Err(TreeError::CorruptTree));
}

#[test]
fn truncated_name_is_corrupt() {
    let (ms, mut t) = open_block(&[0, 0, 0, 1, b'd', 0, 0, 0, 0, 0, 0, 0, 0, 0, 0, 0, 9, b'a']);
    assert_eq!(t.has_dir(&ms, b"a/"), Err(TreeError::CorruptTree));
}

#[test]
fn unsorted_entries_are_corrupt() {
    let mut bytes = vec![0, 0, 0, 2];
    for name in [b"b", b"a"] {
        bytes.push(b'f');
        bytes.extend_from_slice(&[0x6e, 0, 0, 0x01, 0xa4, 0, 0, 0, 1, 0, 0, 0x27, 0x11]);
        bytes.extend_from_slice(&[0, 0, 0, 1, name[0]]);
    }
    let (ms, mut t) = open_block(&bytes);
    assert_eq!(t.get(&ms, b"a"), Err(TreeError::CorruptTree));
}

#[test]
fn truncated_payload_fails_to_decode() {
    let (ms, mut t) = open_block(&[0, 0, 0, 1, b'f', 1, 2]);
    assert_eq!(t.get(&ms, b"a"), Err(TreeError::PayloadDecode));
}

#[test]
fn missing_block_is_a_store_error() {
    let ns = NullStore::new();
    let mut t = Tree::<FileState>::open(BlockId(3), 1);
    assert_eq!(t.get(&ns, b"a"), Err(TreeError::StoreIo));
    assert_eq!(ns.read(BlockId(0)), Err(TreeError::StoreIo));
}

#[test]
fn adding_twice_keeps_the_count() {
    let ms = MapStore::new();
    let mut t = Tree::new();
    t.add(&ms, b"x/y", &fs(1)).expect("can add");
    assert_eq!(t.file_count(), 1);
    t.add(&ms, b"x/y", &fs(1)).expect("can add");
    assert_eq!(t.file_count(), 1);
    t.add(&ms, b"x/y", &fs(2)).expect("can add");
    assert_eq!(t.file_count(), 1);
    assert_eq!(t.get(&ms, b"x/y").expect("can get"), Some(fs(2)));
}

#[test]
fn add_then_remove_restores_the_count() {
    let ms = MapStore::new();
    let mut t = populated(&ms);
    t.add(&ms, b"dirA/new/file", &fs(3)).expect("can add");
    assert_eq!(t.file_count(), 17);
    assert_eq!(t.remove(&ms, b"dirA/new/file").expect("can remove"), true);
    assert_eq!(t.file_count(), 16);
    assert_eq!(t.get(&ms, b"dirA/new/file").expect("can get"), None);
    assert_eq!(t.has_dir(&ms, b"dirA/new/").expect("can check"), false);
}

#[test]
fn count_matches_visited_files() {
    let ms = MapStore::new();
    let mut t = populated(&ms);
    t.remove(&ms, b"dirC/file11").expect("can remove");
    t.remove(&ms, b"missing").expect("can remove");
    t.add(&ms, b"dirC/file11", &fs(11)).expect("can add");
    t.add(&ms, b"z", &fs(5)).expect("can add");
    assert_eq!(t.file_count() as usize, t.visit(&ms).expect("can visit").len());
    assert_eq!(t.file_count(), 17);
}

#[test]
fn lookups_that_cross_a_file_find_nothing() {
    let ms = MapStore::new();
    let mut t = populated(&ms);
    assert_eq!(t.get(&ms, b"file16/x").expect("can get"), None);
    assert_eq!(t.get(&ms, b"dirC/").expect("can get"), None);
    assert_eq!(t.get(&ms, b"dirC").expect("can get"), None);
    assert_eq!(t.remove(&ms, b"dirC/").expect("can remove"), false);
    assert_eq!(t.remove(&ms, b"file16/x").expect("can remove"), false);
    assert_eq!(t.file_count(), 16);
}

#[test]
fn clear_empties_the_tree() {
    let ms = MapStore::new();
    let mut t = populated(&ms);
    t.clear();
    assert_eq!(t.file_count(), 0);
    assert_eq!(t.get_first(&ms).expect("can get first"), None);
    assert_eq!(t.root_id(), None);
}

#[test]
fn count_mismatch_is_corrupt() {
    let mut bytes = vec![0, 0, 0, 2, b'f'];
    bytes.extend_from_slice(&[0x6e, 0, 0, 0x01, 0xa4, 0, 0, 0, 1, 0, 0, 0x27, 0x11]);
    bytes.extend_from_slice(&[0, 0, 0, 1, b'a']);
    let (ms, mut t) = open_block(&bytes);
    assert_eq!(t.get(&ms, b"a"), Err(TreeError::CorruptTree));
}

#[test]
fn short_block_is_corrupt() {
    let (ms, mut t) = open_block(&[0, 0]);
    assert_eq!(t.visit(&ms), Err(TreeError::CorruptTree));
}

#[test]
fn update_at_largest_count() {
    let ns = NullStore::new();
    let mut ms = MapStore::new();
    let mut t = Tree::new();
    t.add(&ms, b"a", &fs(1)).expect("can add");
    t.write_full(&mut ms, &ns).expect("can write full");
    let mut t2 = Tree::<FileState>::open(t.root_id().unwrap(), u32::MAX);
    t2.add(&ms, b"a", &fs(2)).expect("can update");
    assert_eq!(t2.file_count(), u32::MAX);
    assert_eq!(t2.get(&ms, b"a").expect("can get"), Some(fs(2)));
}

#[test]
fn delta_write_of_clean_tree_appends_nothing() {
    let ns = NullStore::new();
    let mut ms = MapStore::new();
    let mut t = populated(&ms);
    t.write_full(&mut ms, &ns).expect("can write full");
    let root = t.root_id();
    let before = ms.len();
    let mut t2 = Tree::<FileState>::open(root.unwrap(), 16);
    t2.get(&ms, b"dirC/file11").expect("can get");
    t2.write_delta(&mut ms).expect("can write delta");
    assert_eq!(ms.len(), before);
    assert_eq!(t2.root_id(), root);
}

#[test]
fn full_write_from_store_without_root_fails() {
    let ns = NullStore::new();
    let mut ms = MapStore::new();
    let mut t = Tree::<FileState>::open(BlockId(0), 0);
    assert_eq!(t.write_full(&mut ms, &ns), Err(TreeError::StoreIo));
    assert_eq!(ms.len(), 0);
}

#[test]
fn unreadable_subdirectory_fails_on_its_path_only() {
    let mut ms = MapStore::new();
    let child = ms.append(&[0, 0, 0, 1, b'x']).expect("can append");
    assert_eq!(child, BlockId(0));
    let root = ms
        .append(&[0, 0, 0, 1, b'd', 0, 0, 0, 0, 0, 0, 0, 0, 0, 0, 0, 2, b'd', b'/'])
        .expect("can append");
    let mut t = Tree::<FileState>::open(root, 1);
    assert_eq!(t.get(&ms, b"d/x"), Err(TreeError::CorruptTree));
    assert_eq!(t.get(&ms, b"e"), Ok(None));
    assert_eq!(t.has_dir(&ms, b"d/"), Ok(true));
}
