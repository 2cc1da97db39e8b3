use vstd::prelude::*;

use crate::GitError;
use crate::bytes::bytes_eq;

verus! {

/// The three kinds of object the store holds.
#[derive(Clone, Copy, Debug, PartialEq, Eq, Structural)]
pub enum Kind {
    Blob,
    Tree,
    Commit,
}

/// The ASCII tag that names `k` in an object header.
pub open spec fn kind_token(k: Kind) -> Seq<u8> {
    match k {
        Kind::Blob => seq![98u8, 108u8, 111u8, 98u8],
        Kind::Tree => seq![116u8, 114u8, 101u8, 101u8],
        Kind::Commit => seq![99u8, 111u8, 109u8, 109u8, 105u8, 116u8],
    }
}

/// The kind whose tag is `t`, if `t` is one of the three tags.
pub open spec fn kind_of_token(t: Seq<u8>) -> Option<Kind> {
    if t == kind_token(Kind::Blob) {
        Some(Kind::Blob)
    } else if t == kind_token(Kind::Tree) {
        Some(Kind::Tree)
    } else if t == kind_token(Kind::Commit) {
        Some(Kind::Commit)
    } else {
        None
    }
}

/// Each kind is recovered from its own tag.
pub proof fn lemma_kind_token_inverse(k: Kind)
    ensures
        kind_of_token(kind_token(k)) == Some(k),
{
    assert(kind_token(Kind::Blob)[0] == 98u8);
    assert(kind_token(Kind::Tree)[0] == 116u8);
    assert(kind_token(Kind::Commit)[0] == 99u8);
}

impl Kind {
    /// The header tag of this kind, as bytes.
    pub fn token(&self) -> (r: Vec<u8>)
        ensures
            r@ == kind_token(*self),
    {
        let mut v: Vec<u8> = Vec::new();
        match self {
            Kind::Blob => {
                v.push(98u8);
                v.push(108u8);
                v.push(111u8);
                v.push(98u8);
            },
            Kind::Tree => {
                v.push(116u8);
                v.push(114u8);
                v.push(101u8);
                v.push(101u8);
            },
            Kind::Commit => {
                v.push(99u8);
                v.push(111u8);
                v.push(109u8);
                v.push(109u8);
                v.push(105u8);
                v.push(116u8);
            },
        }
        proof {
            assert(v@ =~= kind_token(*self));
        }
        v
    }

    /// Parse a header tag. Fails with `MalformedHeader` exactly when `token`
    /// is not one of `blob`, `tree`, `commit`.
    pub fn try_from(token: &Vec<u8>) -> (r: Result<Kind, GitError>)
        ensures
            match r {
                Ok(k) => kind_of_token(token@) == Some(k),
                Err(e) => kind_of_token(token@) is None && e == GitError::MalformedHeader,
            },
    {
        let blob = Kind::Blob.token();
        if bytes_eq(token, &blob) {
            return Ok(Kind::Blob);
        }
        let tree = Kind::Tree.token();
        if bytes_eq(token, &tree) {
            return Ok(Kind::Tree);
        }
        let commit = Kind::Commit.token();
        if bytes_eq(token, &commit) {
            return Ok(Kind::Commit);
        }
        Err(GitError::MalformedHeader)
    }
}

} // verus!
