use vstd::prelude::*;

use crate::GitError;
use crate::bytes::{dec_digits, u64_to_dec};
use crate::clock::local_now;
use crate::kind::Kind;
use crate::object::{Object, ObjectOutcome, ObjectView, WrittenObject, spec_read_object, written_for};

verus! {

/// The signed `HHMM` rendering of a timezone offset given as whole hours and
/// minutes past the hour: a sign byte, two hour digits, two minute digits.
pub open spec fn tz_bytes(h: int, m: int) -> Seq<u8> {
    let sign: u8 = if h < 0 || m < 0 {
        45u8
    } else {
        43u8
    };
    let ha = if h < 0 {
        -h
    } else {
        h
    };
    let ma = if m < 0 {
        -m
    } else {
        m
    };
    seq![sign, (48 + ha / 10) as u8, (48 + ha % 10) as u8, (48 + ma / 10) as u8, (48 + ma % 10) as u8]
}

/// `tree ` (a line label).
pub open spec fn tree_label() -> Seq<u8> {
    seq![116u8, 114u8, 101u8, 101u8, 32u8]
}

/// `parent ` (a line label).
pub open spec fn parent_label() -> Seq<u8> {
    seq![112u8, 97u8, 114u8, 101u8, 110u8, 116u8, 32u8]
}

/// `author ` (a line label).
pub open spec fn author_label() -> Seq<u8> {
    seq![97u8, 117u8, 116u8, 104u8, 111u8, 114u8, 32u8]
}

/// `committer ` (a line label).
pub open spec fn committer_label() -> Seq<u8> {
    seq![99u8, 111u8, 109u8, 109u8, 105u8, 116u8, 116u8, 101u8, 114u8, 32u8]
}

/// The fixed identity written for both author and committer:
/// `mingit <mingit@localhost>`.
pub open spec fn identity() -> Seq<u8> {
    seq![109u8, 105u8, 110u8, 103u8, 105u8, 116u8, 32u8, 60u8, 109u8, 105u8, 110u8, 103u8, 105u8,
        116u8, 64u8, 108u8, 111u8, 99u8, 97u8, 108u8, 104u8, 111u8, 115u8, 116u8, 62u8]
}

/// The text payload of a commit object: the tree line, the parent line when a
/// parent is given, the author and committer lines with the fixed identity,
/// a blank line, then the message followed by a newline.
pub open spec fn spec_commit_payload(
    tree_hex: Seq<u8>,
    parent: Option<Seq<u8>>,
    ts: nat,
    tzh: int,
    tzm: int,
    message: Seq<u8>,
) -> Seq<u8> {
    let stamp = seq![32u8] + dec_digits(ts) + seq![32u8] + tz_bytes(tzh, tzm) + seq![10u8];
    tree_label() + tree_hex + seq![10u8] + (match parent {
        Some(p) => parent_label() + p + seq![10u8],
        None => Seq::<u8>::empty(),
    }) + author_label() + identity() + stamp + committer_label() + identity() + stamp + seq![10u8]
        + message + seq![10u8]
}

/// The commit object whose payload renders the given fields.
pub open spec fn commit_object(
    tree_hex: Seq<u8>,
    parent: Option<Seq<u8>>,
    ts: nat,
    tzh: int,
    tzm: int,
    message: Seq<u8>,
) -> ObjectView {
    ObjectView {
        kind: Kind::Commit,
        payload: spec_commit_payload(tree_hex, parent, ts, tzh, tzm, message),
    }
}

/// `w` seals the commit payload rendered for the given tree, parent and
/// message at some epoch timestamp and some well-formed timezone offset.
pub open spec fn sealed_commit_for(
    w: WrittenObject,
    tree_hex: Seq<u8>,
    parent: Option<Seq<u8>>,
    message: Seq<u8>,
) -> bool {
    exists|ts: nat, h: int, m: int|
        -25 <= h <= 25 && -59 <= m <= 59 && #[trigger] written_for(
            w,
            commit_object(tree_hex, parent, ts, h, m, message),
        )
}

/// The payload bytes of an optional parent argument.
pub open spec fn opt_bytes(p: Option<&Vec<u8>>) -> Option<Seq<u8>> {
    match p {
        Some(v) => Some(v@),
        None => None,
    }
}

/// Render a timezone offset as signed `HHMM`.
pub fn format_tz(h: i8, m: i8) -> (r: Vec<u8>)
    requires
        -25 <= h <= 25,
        -59 <= m <= 59,
    ensures
        r@ == tz_bytes(h as int, m as int),
{
    let sign: u8 = if h < 0 || m < 0 {
        45
    } else {
        43
    };
    let hi: i32 = h as i32;
    let mi: i32 = m as i32;
    let ha: u8 = if hi < 0 {
        (-hi) as u8
    } else {
        hi as u8
    };
    let ma: u8 = if mi < 0 {
        (-mi) as u8
    } else {
        mi as u8
    };
    let mut v: Vec<u8> = Vec::new();
    v.push(sign);
    v.push(48 + ha / 10);
    v.push(48 + ha % 10);
    v.push(48 + ma / 10);
    v.push(48 + ma % 10);
    proof {
        assert(v@ =~= tz_bytes(h as int, m as int));
    }
    v
}

fn push_label(v: &mut Vec<u8>, which: u8)
    requires
        which < 4,
    ensures
        final(v)@ == old(v)@ + (if which == 0 {
            tree_label()
        } else if which == 1 {
            parent_label()
        } else if which == 2 {
            author_label()
        } else {
            committer_label()
        }),
{
    let ghost start = v@;
    if which == 0 {
        v.push(116);
        v.push(114);
        v.push(101);
        v.push(101);
        v.push(32);
        proof {
            assert(v@ =~= start + tree_label());
        }
    } else if which == 1 {
        v.push(112);
        v.push(97);
        v.push(114);
        v.push(101);
        v.push(110);
        v.push(116);
        v.push(32);
        proof {
            assert(v@ =~= start + parent_label());
        }
    } else if which == 2 {
        v.push(97);
        v.push(117);
        v.push(116);
        v.push(104);
        v.push(111);
        v.push(114);
        v.push(32);
        proof {
            assert(v@ =~= start + author_label());
        }
    } else {
        v.push(99);
        v.push(111);
        v.push(109);
        v.push(109);
        v.push(105);
        v.push(116);
        v.push(116);
        v.push(101);
        v.push(114);
        v.push(32);
        proof {
            assert(v@ =~= start + committer_label());
        }
    }
}

fn push_identity(v: &mut Vec<u8>)
    ensures
        final(v)@ == old(v)@ + identity(),
{
    let ghost start = v@;
    v.push(109);
    v.push(105);
    v.push(110);
    v.push(103);
    v.push(105);
    v.push(116);
    v.push(32);
    v.push(60);
    v.push(109);
    v.push(105);
    v.push(110);
    v.push(103);
    v.push(105);
    v.push(116);
    v.push(64);
    v.push(108);
    v.push(111);
    v.push(99);
    v.push(97);
    v.push(108);
    v.push(104);
    v.push(111);
    v.push(115);
    v.push(116);
    v.push(62);
    proof {
        assert(v@ =~= start + identity());
    }
}

/// Append ` <ts> <tz>\n`, the clock part of an author or committer line.
fn push_stamp(v: &mut Vec<u8>, ts: u64, tzh: i8, tzm: i8)
    requires
        -25 <= tzh <= 25,
        -59 <= tzm <= 59,
    ensures
        final(v)@ == old(v)@ + seq![32u8] + dec_digits(ts as nat) + seq![32u8] + tz_bytes(
            tzh as int,
            tzm as int,
        ) + seq![10u8],
{
    v.push(32);
    let mut digits = u64_to_dec(ts);
    v.append(&mut digits);
    v.push(32);
    let mut tz = format_tz(tzh, tzm);
    v.append(&mut tz);
    v.push(10);
}

/// Render a commit's text payload from explicit clock values.
#[verifier::rlimit(60)]
pub fn build_commit_payload(
    tree_hex: &Vec<u8>,
    parent: Option<&Vec<u8>>,
    ts: u64,
    tzh: i8,
    tzm: i8,
    message: &Vec<u8>,
) -> (r: Vec<u8>)
    requires
        -25 <= tzh <= 25,
        -59 <= tzm <= 59,
    ensures
        r@ == spec_commit_payload(
            tree_hex@,
            opt_bytes(parent),
            ts as nat,
            tzh as int,
            tzm as int,
            message@,
        ),
{
    let mut v: Vec<u8> = Vec::new();
    push_label(&mut v, 0);
    v.extend_from_slice(tree_hex.as_slice());
    v.push(10);
    match parent {
        Some(p) => {
            push_label(&mut v, 1);
            v.extend_from_slice(p.as_slice());
            v.push(10);
        },
        None => {},
    }
    push_label(&mut v, 2);
    push_identity(&mut v);
    push_stamp(&mut v, ts, tzh, tzm);
    push_label(&mut v, 3);
    push_identity(&mut v);
    push_stamp(&mut v, ts, tzh, tzm);
    v.push(10);
    v.extend_from_slice(message.as_slice());
    v.push(10);
    proof {
        assert(v@ =~= spec_commit_payload(
            tree_hex@,
            opt_bytes(parent),
            ts as nat,
            tzh as int,
            tzm as int,
            message@,
        ));
    }
    v
}

/// Build and seal a commit object at an explicit clock reading: validate that
/// the referenced object is a tree, then render and write the commit payload.
pub fn write_commit_at(
    tree_hex: &Vec<u8>,
    tree_file: Option<Vec<u8>>,
    message: &Vec<u8>,
    parent: Option<&Vec<u8>>,
    ts: u64,
    tzh: i8,
    tzm: i8,
) -> (r: Result<WrittenObject, GitError>)
    requires
        -25 <= tzh <= 25,
        -59 <= tzm <= 59,
    ensures
        match tree_file {
            None => r matches Err(e) && e == GitError::NotFound,
            Some(bytes) => match spec_read_object(bytes@) {
                ObjectOutcome::Rejected(err) => r matches Err(e) && e == err,
                ObjectOutcome::Read(o) => if o.kind != Kind::Tree {
                    r matches Err(e) && e == GitError::NotATree
                } else {
                    r matches Ok(w) && written_for(
                        w,
                        commit_object(
                            tree_hex@,
                            opt_bytes(parent),
                            ts as nat,
                            tzh as int,
                            tzm as int,
                            message@,
                        ),
                    )
                },
            },
        },
{
    let bytes = match tree_file {
        None => {
            return Err(GitError::NotFound);
        },
        Some(b) => b,
    };
    let tree = match Object::read(&bytes) {
        Err(e) => {
            return Err(e);
        },
        Ok(o) => o,
    };
    if !matches!(tree.kind, Kind::Tree) {
        return Err(GitError::NotATree);
    }
    let payload = build_commit_payload(tree_hex, parent, ts, tzh, tzm, message);
    let obj = Object { kind: Kind::Commit, payload };
    proof {
        assert(obj@ =~= commit_object(
            tree_hex@,
            opt_bytes(parent),
            ts as nat,
            tzh as int,
            tzm as int,
            message@,
        ));
    }
    Ok(obj.write())
}

/// Build and seal a commit object at the current clock and local offset.
/// Whatever the clock returned, a success seals the commit payload rendered
/// for some epoch timestamp and some well-formed offset.
#[verifier::rlimit(30)]
pub fn write_commit(
    tree_hex: &Vec<u8>,
    tree_file: Option<Vec<u8>>,
    message: &Vec<u8>,
    parent: Option<&Vec<u8>>,
) -> (r: Result<WrittenObject, GitError>)
    ensures
        match tree_file {
            None => r matches Err(e) && e == GitError::NotFound,
            Some(bytes) => match spec_read_object(bytes@) {
                ObjectOutcome::Rejected(err) => r matches Err(e) && e == err,
                ObjectOutcome::Read(o) => if o.kind != Kind::Tree {
                    r matches Err(e) && e == GitError::NotATree
                } else {
                    match r {
                        Ok(w) => sealed_commit_for(w, tree_hex@, opt_bytes(parent), message@),
                        Err(e) => e == GitError::Io,
                    }
                },
            },
        },
{
    let bytes = match tree_file {
        None => {
            return Err(GitError::NotFound);
        },
        Some(b) => b,
    };
    let tree = match Object::read(&bytes) {
        Err(e) => {
            return Err(e);
        },
        Ok(o) => o,
    };
    if !matches!(tree.kind, Kind::Tree) {
        return Err(GitError::NotATree);
    }
    let (ts, tzh, tzm) = match local_now() {
        Err(e) => {
            return Err(e);
        },
        Ok(t) => t,
    };
    if ts < 0 {
        return Err(GitError::Io);
    }
    let payload = build_commit_payload(tree_hex, parent, ts as u64, tzh, tzm, message);
    let obj = Object { kind: Kind::Commit, payload };
    proof {
        assert(obj@ =~= commit_object(
            tree_hex@,
            opt_bytes(parent),
            (ts as u64) as nat,
            tzh as int,
            tzm as int,
            message@,
        ));
    }
    let w = obj.write();
    proof {
        assert(written_for(
            w,
            commit_object(
                tree_hex@,
                opt_bytes(parent),
                (ts as u64) as nat,
                tzh as int,
                tzm as int,
                message@,
            ),
        ));
        assert(sealed_commit_for(w, tree_hex@, opt_bytes(parent), message@));
    }
    Ok(w)
}

} // verus!
