use mingit::GitError;
use mingit::commit::{build_commit_payload, format_tz, write_commit, write_commit_at};
use mingit::kind::Kind;
use mingit::object::{Object, write_blob};
use mingit::tree::write_tree;

#[test]
fn timezone_offsets_render_as_signed_hhmm() {
    assert_eq!(format_tz(0, 0), b"+0000".to_vec());
    assert_eq!(format_tz(2, 0), b"+0200".to_vec());
    assert_eq!(format_tz(5, 30), b"+0530".to_vec());
    assert_eq!(format_tz(-5, -30), b"-0530".to_vec());
    assert_eq!(format_tz(-11, 0), b"-1100".to_vec());
    assert_eq!(format_tz(0, -30), b"-0030".to_vec());
    assert_eq!(format_tz(14, 0), b"+1400".to_vec());
}

#[test]
fn commit_payload_renders_every_line() {
    let tree_hex = vec![b'a'; 40];
    let payload =
        build_commit_payload(&tree_hex, None, 1234567890, 2, 0, &b"first commit".to_vec());
    let mut expected = Vec::new();
    expected.extend_from_slice(b"tree ");
    expected.extend_from_slice(&[b'a'; 40]);
    expected.extend_from_slice(b"\n");
    expected.extend_from_slice(b"author mingit <mingit@localhost> 1234567890 +0200\n");
    expected.extend_from_slice(b"committer mingit <mingit@localhost> 1234567890 +0200\n");
    expected.extend_from_slice(b"\nfirst commit\n");
    assert_eq!(payload, expected);
}

#[test]
fn commit_payload_includes_parent_when_given() {
    let tree_hex = vec![b'a'; 40];
    let parent_hex = vec![b'b'; 40];
    let payload =
        build_commit_payload(&tree_hex, Some(&parent_hex), 5, 0, 0, &b"second".to_vec());
    let mut parent_line = b"parent ".to_vec();
    parent_line.extend_from_slice(&[b'b'; 40]);
    parent_line.push(b'\n');
    let found = payload.windows(parent_line.len()).any(|w| w == parent_line.as_slice());
    assert!(found);
}

#[test]
fn commit_over_empty_tree_end_to_end() {
    let tree = write_tree(Vec::new());
    let c = write_commit_at(
        &tree.hash_hex,
        Some(tree.compressed.clone()),
        &b"init".to_vec(),
        None,
        1234567890,
        0,
        0,
    )
    .unwrap();
    let o = Object::read(&c.compressed).unwrap();
    assert_eq!(o.kind, Kind::Commit);
    // begins with `tree <40 hex chars>\n`
    assert_eq!(&o.payload[..5], b"tree ");
    assert!(o.payload[5..45].iter().all(|b| b.is_ascii_hexdigit()));
    assert_eq!(o.payload[45], b'\n');
    // contains no parent line
    let needle = b"parent ";
    assert!(!o.payload.windows(needle.len()).any(|w| w == &needle[..]));
    // ends with a blank line and the message
    assert!(o.payload.ends_with(b"\ninit\n"));
}

#[test]
fn commit_requires_a_tree_object() {
    let blob = write_blob(b"not a tree".to_vec());
    let r = write_commit_at(
        &blob.hash_hex,
        Some(blob.compressed),
        &b"msg".to_vec(),
        None,
        0,
        0,
        0,
    );
    assert!(matches!(r, Err(GitError::NotATree)));
}

#[test]
fn commit_over_missing_tree_is_not_found() {
    let hex = vec![b'0'; 40];
    let r = write_commit_at(&hex, None, &b"msg".to_vec(), None, 0, 0, 0);
    assert!(matches!(r, Err(GitError::NotFound)));
}

#[test]
fn commit_over_corrupt_tree_propagates_the_error() {
    let hex = vec![b'0'; 40];
    let r = write_commit_at(&hex, Some(vec![9, 9, 9]), &b"msg".to_vec(), None, 0, 0, 0);
    assert!(matches!(r, Err(GitError::Corrupt)));
}

#[test]
fn commit_at_the_current_clock() {
    // the tree check comes before the clock, so a blob fails the same way
    // whatever the environment's clock and timezone provide
    let blob = write_blob(b"payload".to_vec());
    let r = write_commit(&blob.hash_hex, Some(blob.compressed), &b"msg".to_vec(), None);
    assert!(matches!(r, Err(GitError::NotATree)));
    // over a real tree the outcome depends on whether the local offset is
    // available in this environment; any success must be a commit object
    let tree = write_tree(Vec::new());
    match write_commit(&tree.hash_hex, Some(tree.compressed), &b"msg".to_vec(), None) {
        Ok(c) => {
            let o = Object::read(&c.compressed).unwrap();
            assert_eq!(o.kind, Kind::Commit);
            assert!(o.payload.ends_with(b"\nmsg\n"));
        },
        Err(e) => assert_eq!(e, GitError::Io),
    }
}
