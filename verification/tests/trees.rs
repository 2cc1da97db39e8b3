use std::cmp::Ordering;

use mingit::GitError;
use mingit::kind::Kind;
use mingit::object::Object;
use mingit::tree::{TreeIterator, is_control_dir, parse_tree, sort_entries, tree_payload, write_tree};
use mingit::tree_entry::{TreeEntry, TreeEntryMode};

fn entry(mode: TreeEntryMode, name: &[u8], fill: u8) -> TreeEntry {
    TreeEntry::new(mode, name.to_vec(), vec![fill; 20])
}

#[test]
fn mode_tokens_parse() {
    assert_eq!(TreeEntryMode::try_from(&b"100644".to_vec()), Ok(TreeEntryMode::NormalFile));
    assert_eq!(TreeEntryMode::try_from(&b"100755".to_vec()), Ok(TreeEntryMode::ExecutableFile));
    assert_eq!(TreeEntryMode::try_from(&b"120000".to_vec()), Ok(TreeEntryMode::Symlink));
    assert_eq!(TreeEntryMode::try_from(&b"40000".to_vec()), Ok(TreeEntryMode::Directory));
    assert_eq!(TreeEntryMode::try_from(&b"100645".to_vec()), Err(GitError::UnknownMode));
    assert_eq!(TreeEntryMode::try_from(&b"".to_vec()), Err(GitError::UnknownMode));
    assert_eq!(TreeEntryMode::NormalFile.octal(), b"100644".to_vec());
    assert_eq!(TreeEntryMode::Directory.octal(), b"40000".to_vec());
}

#[test]
fn mode_inference_from_metadata() {
    assert_eq!(TreeEntryMode::mode_for(true, false, 0), TreeEntryMode::Directory);
    assert_eq!(TreeEntryMode::mode_for(true, true, 0o777), TreeEntryMode::Directory);
    assert_eq!(TreeEntryMode::mode_for(false, true, 0o644), TreeEntryMode::Symlink);
    assert_eq!(TreeEntryMode::mode_for(false, false, 0o755), TreeEntryMode::ExecutableFile);
    assert_eq!(TreeEntryMode::mode_for(false, false, 0o100), TreeEntryMode::ExecutableFile);
    assert_eq!(TreeEntryMode::mode_for(false, false, 0o644), TreeEntryMode::NormalFile);
    assert!(TreeEntryMode::Directory.is_directory());
    assert!(!TreeEntryMode::Symlink.is_directory());
}

#[test]
fn object_type_follows_the_mode() {
    assert_eq!(entry(TreeEntryMode::Directory, b"d", 0).object_type(), "tree");
    assert_eq!(entry(TreeEntryMode::NormalFile, b"f", 0).object_type(), "blob");
    assert_eq!(entry(TreeEntryMode::Symlink, b"l", 0).object_type(), "blob");
}

#[test]
fn entry_order_compares_name_bytes() {
    let a = entry(TreeEntryMode::NormalFile, b"a", 1);
    let b = entry(TreeEntryMode::NormalFile, b"b", 2);
    assert_eq!(a.cmp(&b), Ordering::Less);
    assert_eq!(b.cmp(&a), Ordering::Greater);
    assert_eq!(a.cmp(&a), Ordering::Equal);
}

#[test]
fn entry_order_treats_directory_as_trailing_slash() {
    // a directory `foo` compares as `foo/`; `.` (0x2e) sorts before `/` (0x2f),
    // so the file `foo.txt` comes before the directory `foo`
    let file = entry(TreeEntryMode::NormalFile, b"foo.txt", 1);
    let dir = entry(TreeEntryMode::Directory, b"foo", 2);
    assert_eq!(file.cmp(&dir), Ordering::Less);
    assert_eq!(dir.cmp(&file), Ordering::Greater);
    // a plain file `foo` still comes before the directory `foo`
    let plain = entry(TreeEntryMode::NormalFile, b"foo", 3);
    assert_eq!(plain.cmp(&dir), Ordering::Less);
    // and a file `foo0` comes after the directory (b'0' is 0x30, above 0x2f)
    let after = entry(TreeEntryMode::NormalFile, b"foo0", 4);
    assert_eq!(dir.cmp(&after), Ordering::Less);
}

#[test]
fn entry_equality_includes_directory_ness() {
    let file = entry(TreeEntryMode::NormalFile, b"foo", 1);
    let dir = entry(TreeEntryMode::Directory, b"foo", 1);
    let link = entry(TreeEntryMode::Symlink, b"foo", 2);
    assert!(file != dir);
    assert!(dir != file);
    assert!(file == link);
    assert!(file == file);
}

#[test]
fn sort_orders_and_deduplicates() {
    let entries = vec![
        entry(TreeEntryMode::NormalFile, b"b.txt", 1),
        entry(TreeEntryMode::Directory, b"foo", 2),
        entry(TreeEntryMode::NormalFile, b"foo.txt", 3),
        entry(TreeEntryMode::NormalFile, b"a.txt", 4),
    ];
    let sorted = sort_entries(entries);
    let names: Vec<&[u8]> = sorted.iter().map(|e| e.name.as_slice()).collect();
    assert_eq!(names, vec![&b"a.txt"[..], b"b.txt", b"foo.txt", b"foo"]);

    // an entry comparing equal to an earlier one is dropped, the earlier kept
    let first = entry(TreeEntryMode::NormalFile, b"same", 1);
    let second = entry(TreeEntryMode::NormalFile, b"same", 2);
    let sorted = sort_entries(vec![first, second]);
    assert_eq!(sorted.len(), 1);
    assert_eq!(sorted[0].hash, vec![1u8; 20]);
}

#[test]
fn tree_payload_serializes_each_entry() {
    let entries = vec![entry(TreeEntryMode::NormalFile, b"a", 7)];
    let payload = tree_payload(&entries);
    let mut expected = b"100644 a\0".to_vec();
    expected.extend_from_slice(&[7u8; 20]);
    assert_eq!(payload, expected);
}

#[test]
fn iterate_tree_yields_each_entry_in_order() {
    let entries = vec![
        entry(TreeEntryMode::NormalFile, b"a.txt", 1),
        entry(TreeEntryMode::Directory, b"sub", 2),
        entry(TreeEntryMode::Symlink, b"z", 3),
    ];
    let payload = tree_payload(&entries);
    let mut it = TreeIterator::new(payload);
    let e = it.next().unwrap().unwrap();
    assert_eq!(e.mode, TreeEntryMode::NormalFile);
    assert_eq!(e.name, b"a.txt".to_vec());
    assert_eq!(e.hash, vec![1u8; 20]);
    let e = it.next().unwrap().unwrap();
    assert_eq!(e.mode, TreeEntryMode::Directory);
    assert_eq!(e.name, b"sub".to_vec());
    assert_eq!(e.hash, vec![2u8; 20]);
    let e = it.next().unwrap().unwrap();
    assert_eq!(e.mode, TreeEntryMode::Symlink);
    assert_eq!(e.name, b"z".to_vec());
    assert_eq!(e.hash, vec![3u8; 20]);
    assert!(matches!(it.next(), Ok(None)));
    // the iterator is not restartable: it stays at the end
    assert!(matches!(it.next(), Ok(None)));
}

#[test]
fn parse_tree_collects_every_entry() {
    let entries = vec![
        entry(TreeEntryMode::NormalFile, b"one", 1),
        entry(TreeEntryMode::NormalFile, b"two", 2),
    ];
    let payload = tree_payload(&entries);
    let parsed = parse_tree(payload).unwrap();
    assert_eq!(parsed.len(), 2);
    assert_eq!(parsed[0].name, b"one".to_vec());
    assert_eq!(parsed[1].name, b"two".to_vec());
}

#[test]
fn parse_tree_rejects_malformed_payloads() {
    // no space after the mode token
    assert_eq!(parse_tree(b"100644".to_vec()), Err(GitError::Corrupt));
    // unrecognized mode token
    assert_eq!(parse_tree(b"12345 x\0aaaaaaaaaaaaaaaaaaaa".to_vec()), Err(GitError::UnknownMode));
    // no NUL after the name
    assert_eq!(parse_tree(b"100644 name-without-nul".to_vec()), Err(GitError::Corrupt));
    // fewer than 20 hash bytes
    assert_eq!(parse_tree(b"100644 x\0short".to_vec()), Err(GitError::Corrupt));
}

#[test]
fn empty_tree_has_well_known_hash() {
    let w = write_tree(Vec::new());
    assert_eq!(w.hash_hex, b"4b825dc642cb6eb9a060e54bf8d69288fbee4904".to_vec());
}

#[test]
fn write_tree_is_deterministic() {
    let make = || {
        vec![
            entry(TreeEntryMode::NormalFile, b"foo.txt", 1),
            entry(TreeEntryMode::Directory, b"foo", 2),
        ]
    };
    let w1 = write_tree(make());
    let w2 = write_tree(make());
    assert_eq!(w1.hash, w2.hash);
    assert_eq!(w1.compressed, w2.compressed);
}

#[test]
fn write_tree_stores_sorted_entries() {
    let w = write_tree(vec![
        entry(TreeEntryMode::NormalFile, b"foo.txt", 1),
        entry(TreeEntryMode::Directory, b"foo", 2),
    ]);
    let o = Object::read(&w.compressed).unwrap();
    assert_eq!(o.kind, Kind::Tree);
    let parsed = parse_tree(o.payload).unwrap();
    assert_eq!(parsed.len(), 2);
    // `foo.txt` sorts before the directory `foo`, which compares as `foo/`
    assert_eq!(parsed[0].name, b"foo.txt".to_vec());
    assert_eq!(parsed[1].name, b"foo".to_vec());
    assert_eq!(parsed[1].mode, TreeEntryMode::Directory);
}

#[test]
fn control_directory_is_skipped_by_name() {
    assert!(is_control_dir(&b".git".to_vec()));
    assert!(!is_control_dir(&b".gitignore".to_vec()));
    assert!(!is_control_dir(&b"git".to_vec()));
    assert!(!is_control_dir(&b"src".to_vec()));
}
