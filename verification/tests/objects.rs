use std::io::Write;

use mingit::GitError;
use mingit::header::{decode_header, encode_header};
use mingit::kind::Kind;
use mingit::object::{Object, object_path, tmp_object_path, write_blob};

fn zlib(data: &[u8]) -> Vec<u8> {
    let mut enc = flate2::write::ZlibEncoder::new(Vec::new(), flate2::Compression::default());
    enc.write_all(data).unwrap();
    enc.finish().unwrap()
}

#[test]
fn header_encodes_exactly() {
    assert_eq!(encode_header(Kind::Blob, 6), b"blob 6\0".to_vec());
    assert_eq!(encode_header(Kind::Tree, 0), b"tree 0\0".to_vec());
    assert_eq!(encode_header(Kind::Commit, 1234567890), b"commit 1234567890\0".to_vec());
    assert_eq!(encode_header(Kind::Blob, u64::MAX), b"blob 18446744073709551615\0".to_vec());
}

#[test]
fn header_round_trips() {
    let h = encode_header(Kind::Blob, 6);
    assert_eq!(decode_header(&h), Ok((Kind::Blob, 6, 7)));
    let h = encode_header(Kind::Commit, 0);
    assert_eq!(decode_header(&h), Ok((Kind::Commit, 0, 9)));
}

#[test]
fn header_decode_ignores_trailing_bytes() {
    let mut h = encode_header(Kind::Tree, 3);
    h.extend_from_slice(b"abcdef");
    assert_eq!(decode_header(&h), Ok((Kind::Tree, 3, 7)));
}

#[test]
fn header_decode_rejects_malformed() {
    // no NUL terminator
    assert_eq!(decode_header(&b"blob 6".to_vec()), Err(GitError::MalformedHeader));
    // no space before the NUL
    assert_eq!(decode_header(&b"blob6\0".to_vec()), Err(GitError::MalformedHeader));
    // unknown kind token
    assert_eq!(decode_header(&b"glob 6\0".to_vec()), Err(GitError::MalformedHeader));
    // empty size token
    assert_eq!(decode_header(&b"blob \0".to_vec()), Err(GitError::MalformedHeader));
    // non-digit in the size token
    assert_eq!(decode_header(&b"blob 6x\0".to_vec()), Err(GitError::MalformedHeader));
    // a second space lands inside the size token
    assert_eq!(decode_header(&b"blob 1 2\0".to_vec()), Err(GitError::MalformedHeader));
    // size does not fit in 64 bits
    assert_eq!(
        decode_header(&b"blob 99999999999999999999\0".to_vec()),
        Err(GitError::MalformedHeader)
    );
}

#[test]
fn kind_tokens_parse() {
    assert_eq!(Kind::try_from(&b"blob".to_vec()), Ok(Kind::Blob));
    assert_eq!(Kind::try_from(&b"tree".to_vec()), Ok(Kind::Tree));
    assert_eq!(Kind::try_from(&b"commit".to_vec()), Ok(Kind::Commit));
    assert_eq!(Kind::try_from(&b"blobs".to_vec()), Err(GitError::MalformedHeader));
    assert_eq!(Kind::try_from(&b"".to_vec()), Err(GitError::MalformedHeader));
    assert_eq!(Kind::Blob.token(), b"blob".to_vec());
}

#[test]
fn blob_hello_has_well_known_hash() {
    let w = write_blob(b"hello\n".to_vec());
    assert_eq!(w.hash_hex, b"ce013625030ba8dba906f756967f9e9ca394464a".to_vec());
    assert_eq!(hex::encode(&w.hash), "ce013625030ba8dba906f756967f9e9ca394464a");
    let o = Object::read(&w.compressed).unwrap();
    assert_eq!(o.kind, Kind::Blob);
    assert_eq!(o.size(), 6);
    assert_eq!(o.payload, b"hello\n".to_vec());
}

#[test]
fn write_read_round_trip() {
    for payload in [b"".to_vec(), b"x".to_vec(), vec![0u8; 1000], (0..=255).collect::<Vec<u8>>()] {
        let obj = Object { kind: Kind::Blob, payload: payload.clone() };
        let w = obj.write();
        let back = Object::read(&w.compressed).unwrap();
        assert_eq!(back.kind, Kind::Blob);
        assert_eq!(back.payload, payload);
    }
}

#[test]
fn identical_content_hashes_identically() {
    let w1 = write_blob(b"same bytes".to_vec());
    let w2 = write_blob(b"same bytes".to_vec());
    assert_eq!(w1.hash, w2.hash);
    assert_eq!(w1.hash_hex, w2.hash_hex);
    let w3 = write_blob(b"other bytes".to_vec());
    assert_ne!(w1.hash, w3.hash);
}

#[test]
fn read_missing_object_is_not_found() {
    assert!(matches!(Object::read_stored(None), Err(GitError::NotFound)));
    assert!(matches!(Object::read_kind(None, Kind::Blob), Err(GitError::NotFound)));
}

#[test]
fn read_wrong_kind_is_rejected() {
    let obj = Object { kind: Kind::Commit, payload: b"tree x\n".to_vec() };
    let w = obj.write();
    // a commit-kind object requested as a blob
    let r = Object::read_kind(Some(w.compressed.clone()), Kind::Blob);
    assert!(matches!(r, Err(GitError::WrongKind)));
    // the same object requested as what it is
    let r = Object::read_kind(Some(w.compressed), Kind::Commit);
    assert!(r.is_ok());
}

#[test]
fn read_garbage_is_corrupt() {
    assert!(matches!(Object::read(&vec![1, 2, 3, 4]), Err(GitError::Corrupt)));
}

#[test]
fn read_header_without_nul_is_malformed() {
    let file = zlib(b"blob 6 hello!");
    assert!(matches!(Object::read(&file), Err(GitError::MalformedHeader)));
}

#[test]
fn read_truncated_payload_is_corrupt() {
    let file = zlib(b"blob 10\0abc");
    assert!(matches!(Object::read(&file), Err(GitError::Corrupt)));
}

#[test]
fn paths_derive_from_the_hash() {
    let hex = b"ce013625030ba8dba906f756967f9e9ca394464a".to_vec();
    assert_eq!(
        object_path(&hex),
        b".git/objects/ce/013625030ba8dba906f756967f9e9ca394464a".to_vec()
    );
    assert_eq!(tmp_object_path(123), b".git/objects/tmp-123".to_vec());
    assert_eq!(tmp_object_path(0), b".git/objects/tmp-0".to_vec());
}
