use vstd::prelude::*;

use crate::GitError;
use crate::bytes::{
    all_digits, copy_range, dec_digits, dec_val, find_byte, find_first, is_digit,
    lemma_dec_digits_val, lemma_find_first, lemma_find_first_is, parse_dec_u64, u64_to_dec,
};
use crate::kind::{Kind, kind_of_token, kind_token, lemma_kind_token_inverse};

verus! {

/// The serialized header of an object of kind `k` whose payload is `n` bytes:
/// the kind's tag, a space, the decimal size, a NUL terminator.
pub open spec fn header_bytes(k: Kind, n: nat) -> Seq<u8> {
    kind_token(k) + seq![32u8] + dec_digits(n) + seq![0u8]
}

/// Parse a header from the front of `s`: the kind, the declared payload size,
/// and the number of bytes the header occupies (through its NUL terminator).
/// `None` when `s` has no NUL terminator, the part before the first NUL has no
/// space, the bytes before the first space are not a kind tag, or the bytes
/// after it are not a nonempty digit run denoting a value below 2^64.
pub open spec fn spec_decode_header(s: Seq<u8>) -> Option<(Kind, nat, nat)> {
    match find_first(s, 0) {
        None => None,
        Some(i) => {
            let hdr = s.take(i as int);
            match find_first(hdr, 32) {
                None => None,
                Some(j) => {
                    let stok = hdr.skip(j as int + 1);
                    match kind_of_token(hdr.take(j as int)) {
                        None => None,
                        Some(k) => if stok.len() >= 1 && all_digits(stok) && dec_val(stok)
                            < 0x1_0000_0000_0000_0000 {
                            Some((k, dec_val(stok), (i + 1) as nat))
                        } else {
                            None
                        },
                    }
                },
            }
        },
    }
}

/// Encode the exact header `spec_decode_header` recovers.
pub fn encode_header(kind: Kind, size: u64) -> (r: Vec<u8>)
    ensures
        r@ == header_bytes(kind, size as nat),
{
    let mut r = kind.token();
    r.push(32);
    let mut digits = u64_to_dec(size);
    r.append(&mut digits);
    r.push(0);
    proof {
        assert(r@ =~= header_bytes(kind, size as nat));
    }
    r
}

/// Decode a header from the front of `bytes`, returning the kind, the declared
/// payload size and the header's length. Fails with `MalformedHeader` exactly
/// when `spec_decode_header` rejects the bytes.
pub fn decode_header(bytes: &Vec<u8>) -> (r: Result<(Kind, u64, usize), GitError>)
    ensures
        match r {
            Ok(t) => spec_decode_header(bytes@) == Some((t.0, t.1 as nat, t.2 as nat)),
            Err(e) => spec_decode_header(bytes@) is None && e == GitError::MalformedHeader,
        },
{
    proof {
        assert(bytes@.skip(0) =~= bytes@);
    }
    let nul = match find_byte(bytes, 0, 0) {
        None => {
            return Err(GitError::MalformedHeader);
        },
        Some(i) => i,
    };
    let ghost hdr = bytes@.take(nul as int);
    let sp = match find_byte(bytes, 32, 0) {
        None => {
            proof {
                lemma_find_first(bytes@, 32);
                lemma_no_space_in_header(bytes@, nul as int);
            }
            return Err(GitError::MalformedHeader);
        },
        Some(j) => j,
    };
    if sp >= nul {
        proof {
            lemma_find_first(bytes@, 32);
            lemma_no_space_in_header(bytes@, nul as int);
        }
        return Err(GitError::MalformedHeader);
    }
    proof {
        lemma_find_first(bytes@, 32);
        assert(hdr[sp as int] == 32);
        lemma_find_first_is(hdr, 32, sp as int);
    }
    let token = copy_range(bytes, 0, sp);
    proof {
        assert(token@ =~= hdr.take(sp as int));
    }
    let kind = match Kind::try_from(&token) {
        Err(e) => {
            return Err(e);
        },
        Ok(k) => k,
    };
    let ghost stok = hdr.skip(sp as int + 1);
    proof {
        assert(stok =~= bytes@.subrange(sp as int + 1, nul as int));
    }
    let size = match parse_dec_u64(bytes, sp + 1, nul) {
        None => {
            return Err(GitError::MalformedHeader);
        },
        Some(n) => n,
    };
    let total = bytes.len();
    assert(nul < total);
    Ok((kind, size, nul + 1))
}

/// If the first space of `s` (if any) does not come before position `nul`,
/// the prefix of length `nul` has no space at all.
proof fn lemma_no_space_in_header(s: Seq<u8>, nul: int)
    requires
        0 <= nul <= s.len(),
        match find_first(s, 32) {
            Some(j) => j >= nul,
            None => true,
        },
        forall|j: int| 0 <= j < s.len() && s[j] == 32 ==> match find_first(s, 32) {
            Some(i) => i <= j,
            None => false,
        },
    ensures
        find_first(s.take(nul), 32) is None,
{
    lemma_find_first(s.take(nul), 32);
    match find_first(s.take(nul), 32) {
        None => {},
        Some(i) => {
            assert(s.take(nul)[i as int] == 32);
            assert(s[i as int] == 32);
            assert(false);
        },
    }
}

/// A header always decodes back to the kind and size it was built from,
/// whatever bytes follow it.
pub proof fn lemma_header_round_trip(k: Kind, n: nat, rest: Seq<u8>)
    requires
        n < 0x1_0000_0000_0000_0000,
    ensures
        spec_decode_header(header_bytes(k, n) + rest) == Some(
            (k, n, header_bytes(k, n).len() as nat),
        ),
{
    let s = header_bytes(k, n) + rest;
    let tok = kind_token(k);
    let digits = dec_digits(n);
    let tl = tok.len() as int;
    let dl = digits.len() as int;
    let nul = tl + 1 + dl;
    lemma_dec_digits_val(n);
    lemma_kind_token_tag_bytes(k);
    assert(s[nul] == 0);
    assert forall|j: int| 0 <= j < nul implies s[j] != 0 by {
        if j < tl {
            assert(s[j] == tok[j]);
        } else if j == tl {
            assert(s[j] == 32);
        } else {
            assert(s[j] == digits[j - tl - 1]);
            assert(is_digit(digits[j - tl - 1]));
        }
    }
    lemma_find_first_is(s, 0, nul);
    let hdr = s.take(nul);
    assert(hdr[tl] == 32);
    assert forall|j: int| 0 <= j < tl implies hdr[j] != 32 by {
        assert(hdr[j] == tok[j]);
    }
    lemma_find_first_is(hdr, 32, tl);
    assert(hdr.take(tl) =~= tok);
    lemma_kind_token_inverse(k);
    assert(hdr.skip(tl + 1) =~= digits);
}

/// No byte of a kind tag is a NUL or a space.
proof fn lemma_kind_token_tag_bytes(k: Kind)
    ensures
        forall|j: int|
            0 <= j < kind_token(k).len() ==> kind_token(k)[j] != 0 && kind_token(k)[j] != 32,
{
    let tok = kind_token(k);
    assert forall|j: int| 0 <= j < tok.len() implies tok[j] != 0 && tok[j] != 32 by {
        match k {
            Kind::Blob => {
                assert(tok =~= seq![98u8, 108u8, 111u8, 98u8]);
            },
            Kind::Tree => {
                assert(tok =~= seq![116u8, 114u8, 101u8, 101u8]);
            },
            Kind::Commit => {
                assert(tok =~= seq![99u8, 111u8, 109u8, 109u8, 105u8, 116u8]);
            },
        }
    }
}

} // verus!
