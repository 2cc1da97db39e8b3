use vstd::prelude::*;

use crate::GitError;
use crate::bytes::{copy_range, dec_digits, u64_to_dec};
use crate::hashing::{hex_encode, hex_of, lemma_hex_of_len, sha1_digest, sha1_of};
use crate::header::{
    decode_header, encode_header, header_bytes, lemma_header_round_trip, spec_decode_header,
};
use crate::bytes::lemma_find_first;
use crate::kind::Kind;
use crate::zlib::{zlib_compress, zlib_compress_of, zlib_decompress, zlib_inflate_of};

verus! {

/// A decoded object: its kind and its payload bytes, exactly as many as the
/// serialized header declared.
pub struct Object {
    pub kind: Kind,
    pub payload: Vec<u8>,
}

#[verifier::ext_equal]
pub struct ObjectView {
    pub kind: Kind,
    pub payload: Seq<u8>,
}

impl View for Object {
    type V = ObjectView;

    open spec fn view(&self) -> ObjectView {
        ObjectView { kind: self.kind, payload: self.payload@ }
    }
}

impl Object {
    /// The payload length, which is also the size the header declares.
    pub fn size(&self) -> (r: u64)
        ensures
            r as nat == self@.payload.len(),
    {
        self.payload.len() as u64
    }
}

/// The exact byte sequence that is hashed and compressed for an object:
/// the header followed by the payload, never separated.
pub open spec fn object_bytes(o: ObjectView) -> Seq<u8> {
    header_bytes(o.kind, o.payload.len()) + o.payload
}

/// What reading a compressed object file yields: the object, or the error
/// that rejects the bytes.
#[verifier::ext_equal]
pub enum ObjectOutcome {
    Read(ObjectView),
    Rejected(GitError),
}

/// Reading compressed bytes: decompression failure is `Corrupt`, a header that
/// does not parse is `MalformedHeader`, fewer payload bytes than the header
/// declares is `Corrupt`; bytes beyond the declared size are ignored.
pub open spec fn spec_read_object(compressed: Seq<u8>) -> ObjectOutcome {
    match zlib_inflate_of(compressed) {
        None => ObjectOutcome::Rejected(GitError::Corrupt),
        Some(d) => match spec_decode_header(d) {
            None => ObjectOutcome::Rejected(GitError::MalformedHeader),
            Some((k, size, hlen)) => if hlen + size <= d.len() {
                ObjectOutcome::Read(
                    ObjectView { kind: k, payload: d.subrange(hlen as int, hlen as int + size) },
                )
            } else {
                ObjectOutcome::Rejected(GitError::Corrupt)
            },
        },
    }
}

/// A decoded header fits inside the bytes it was decoded from.
proof fn lemma_decode_header_bounds(s: Seq<u8>)
    ensures
        match spec_decode_header(s) {
            Some((k, size, hlen)) => 1 <= hlen <= s.len(),
            None => true,
        },
{
    lemma_find_first(s, 0);
}

impl Object {
    /// Decode an object from the compressed bytes of its store file.
    pub fn read(compressed: &Vec<u8>) -> (r: Result<Object, GitError>)
        ensures
            match r {
                Ok(o) => spec_read_object(compressed@) == ObjectOutcome::Read(o@),
                Err(e) => spec_read_object(compressed@) == ObjectOutcome::Rejected(e),
            },
    {
        let d = match zlib_decompress(compressed) {
            Err(e) => {
                return Err(e);
            },
            Ok(d) => d,
        };
        let (kind, size, hlen) = match decode_header(&d) {
            Err(e) => {
                return Err(e);
            },
            Ok(t) => t,
        };
        proof {
            lemma_decode_header_bounds(d@);
        }
        let avail = d.len() - hlen;
        if size > avail as u64 {
            return Err(GitError::Corrupt);
        }
        let size_us = size as usize;
        let payload = copy_range(&d, hlen, hlen + size_us);
        let o = Object { kind, payload };
        proof {
            assert(o@ =~= ObjectView {
                kind,
                payload: d@.subrange(hlen as int, hlen as int + size as int),
            });
        }
        Ok(o)
    }

    /// Read an object from a store file's contents, where `None` means no file
    /// exists at the hash-derived path.
    pub fn read_stored(file: Option<Vec<u8>>) -> (r: Result<Object, GitError>)
        ensures
            match file {
                None => r matches Err(e) && e == GitError::NotFound,
                Some(bytes) => match r {
                    Ok(o) => spec_read_object(bytes@) == ObjectOutcome::Read(o@),
                    Err(e) => spec_read_object(bytes@) == ObjectOutcome::Rejected(e),
                },
            },
    {
        match file {
            None => Err(GitError::NotFound),
            Some(bytes) => Object::read(&bytes),
        }
    }

    /// Read an object that the caller requires to be of kind `expected`;
    /// a well-formed object of any other kind is `WrongKind`.
    pub fn read_kind(file: Option<Vec<u8>>, expected: Kind) -> (r: Result<Object, GitError>)
        ensures
            match file {
                None => r matches Err(e) && e == GitError::NotFound,
                Some(bytes) => match spec_read_object(bytes@) {
                    ObjectOutcome::Read(o) => if o.kind == expected {
                        r matches Ok(obj) && obj@ == o
                    } else {
                        r matches Err(e) && e == GitError::WrongKind
                    },
                    ObjectOutcome::Rejected(err) => r matches Err(e) && e == err,
                },
            },
    {
        let o = match Object::read_stored(file) {
            Err(e) => {
                return Err(e);
            },
            Ok(o) => o,
        };
        if o.kind == expected {
            Ok(o)
        } else {
            Err(GitError::WrongKind)
        }
    }
}

/// The result of sealing an object for storage: its binary hash, the hex form
/// of that hash, and the compressed file contents.
pub struct WrittenObject {
    pub hash: Vec<u8>,
    pub hash_hex: Vec<u8>,
    pub compressed: Vec<u8>,
}

/// `w` is the sealed form of object `o`.
pub open spec fn written_for(w: WrittenObject, o: ObjectView) -> bool {
    &&& w.hash@ == sha1_of(object_bytes(o))
    &&& w.hash@.len() == 20
    &&& w.hash_hex@ == hex_of(sha1_of(object_bytes(o)))
    &&& w.hash_hex@.len() == 40
    &&& w.compressed@ == zlib_compress_of(object_bytes(o))
    &&& zlib_inflate_of(w.compressed@) == Some(object_bytes(o))
}

impl Object {
    /// Serialize the header and payload, hash the uncompressed bytes, and
    /// compress them; the hash identifies the object and names its store path.
    pub fn write(self) -> (r: WrittenObject)
        ensures
            written_for(r, self@),
    {
        let ghost o = self@;
        let size = self.payload.len();
        let mut buf = encode_header(self.kind, size as u64);
        let mut payload = self.payload;
        buf.append(&mut payload);
        proof {
            assert(buf@ =~= object_bytes(o));
        }
        let hash = sha1_digest(&buf);
        let hash_hex = hex_encode(&hash);
        proof {
            lemma_hex_of_len(hash@);
        }
        let compressed = zlib_compress(&buf);
        WrittenObject { hash, hash_hex, compressed }
    }
}

/// Store raw file contents as a blob object.
pub fn write_blob(content: Vec<u8>) -> (r: WrittenObject)
    ensures
        written_for(r, ObjectView { kind: Kind::Blob, payload: content@ }),
{
    let ghost v = ObjectView { kind: Kind::Blob, payload: content@ };
    let o = Object { kind: Kind::Blob, payload: content };
    proof {
        assert(o@ =~= v);
    }
    o.write()
}

/// Reading back the bytes that `write` produced yields an object with the same
/// kind, size and payload: the write/read round trip of the store.
pub proof fn lemma_store_round_trip(o: ObjectView, compressed: Seq<u8>)
    requires
        o.payload.len() < 0x1_0000_0000_0000_0000,
        zlib_inflate_of(compressed) == Some(object_bytes(o)),
    ensures
        spec_read_object(compressed) == ObjectOutcome::Read(o),
{
    lemma_header_round_trip(o.kind, o.payload.len(), o.payload);
    let d = object_bytes(o);
    let hlen = header_bytes(o.kind, o.payload.len()).len() as int;
    assert(d.subrange(hlen, hlen + o.payload.len()) =~= o.payload);
    assert(ObjectView { kind: o.kind, payload: d.subrange(hlen, hlen + o.payload.len()) } =~= o);
}

/// The hash is content-addressed: two objects with the same kind and payload
/// always hash to the same identifier, whenever and wherever they are written.
pub proof fn lemma_hash_content_addressed(o1: ObjectView, o2: ObjectView)
    requires
        o1.kind == o2.kind,
        o1.payload == o2.payload,
    ensures
        sha1_of(object_bytes(o1)) == sha1_of(object_bytes(o2)),
{
}

/// The store's object directory, as path bytes (`.git/objects`).
pub open spec fn spec_objects_dir() -> Seq<u8> {
    seq![46u8, 103u8, 105u8, 116u8, 47u8, 111u8, 98u8, 106u8, 101u8, 99u8, 116u8, 115u8]
}

fn objects_dir_vec() -> (r: Vec<u8>)
    ensures
        r@ == spec_objects_dir(),
{
    let mut v: Vec<u8> = Vec::new();
    v.push(46);
    v.push(103);
    v.push(105);
    v.push(116);
    v.push(47);
    v.push(111);
    v.push(98);
    v.push(106);
    v.push(101);
    v.push(99);
    v.push(116);
    v.push(115);
    proof {
        assert(v@ =~= spec_objects_dir());
    }
    v
}

/// The store path of the object with hex hash `hex`: the directory named by
/// the first two hex digits, then a file named by the remaining 38.
pub open spec fn spec_object_path(hex: Seq<u8>) -> Seq<u8> {
    spec_objects_dir() + seq![47u8] + hex.take(2) + seq![47u8] + hex.skip(2)
}

pub fn object_path(hash_hex: &Vec<u8>) -> (r: Vec<u8>)
    requires
        hash_hex@.len() == 40,
    ensures
        r@ == spec_object_path(hash_hex@),
{
    let mut v = objects_dir_vec();
    v.push(47);
    v.push(hash_hex[0]);
    v.push(hash_hex[1]);
    v.push(47);
    let mut i: usize = 2;
    while i < hash_hex.len()
        invariant
            2 <= i <= hash_hex@.len() == 40,
            v@ =~= spec_objects_dir() + seq![47u8] + hash_hex@.take(2) + seq![47u8]
                + hash_hex@.subrange(2, i as int),
        decreases hash_hex@.len() - i,
    {
        v.push(hash_hex[i]);
        i = i + 1;
    }
    proof {
        assert(v@ =~= spec_object_path(hash_hex@));
    }
    v
}

/// The staging path for a write in flight: `.git/objects/tmp-<token>`, where
/// `token` is unique to the writing process.
pub open spec fn spec_tmp_path(token: nat) -> Seq<u8> {
    spec_objects_dir() + seq![47u8, 116u8, 109u8, 112u8, 45u8] + dec_digits(token)
}

pub fn tmp_object_path(token: u64) -> (r: Vec<u8>)
    ensures
        r@ == spec_tmp_path(token as nat),
{
    let mut v = objects_dir_vec();
    v.push(47);
    v.push(116);
    v.push(109);
    v.push(112);
    v.push(45);
    let mut digits = u64_to_dec(token);
    v.append(&mut digits);
    proof {
        assert(v@ =~= spec_tmp_path(token as nat));
    }
    v
}

} // verus!
