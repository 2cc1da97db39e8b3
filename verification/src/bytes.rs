use vstd::prelude::*;

verus! {

/// Position of the first occurrence of `b` in `s`, if `s` contains it.
pub open spec fn find_first(s: Seq<u8>, b: u8) -> Option<nat>
    decreases s.len(),
{
    if s.len() == 0 {
        None
    } else if s[0] == b {
        Some(0)
    } else {
        match find_first(s.drop_first(), b) {
            None => None,
            Some(i) => Some((i + 1) as nat),
        }
    }
}

/// `find_first` returns the position of the first occurrence: the byte there is
/// `b` and no earlier byte is, and `None` means no occurrence at all.
pub proof fn lemma_find_first(s: Seq<u8>, b: u8)
    ensures
        match find_first(s, b) {
            Some(i) => i < s.len() && s[i as int] == b && (forall|j: int| 0 <= j < i ==> s[j] != b),
            None => forall|j: int| 0 <= j < s.len() ==> s[j] != b,
        },
    decreases s.len(),
{
    if s.len() == 0 {
    } else if s[0] == b {
    } else {
        lemma_find_first(s.drop_first(), b);
        match find_first(s.drop_first(), b) {
            None => {
                assert forall|j: int| 0 <= j < s.len() implies s[j] != b by {
                    if j > 0 {
                        assert(s.drop_first()[j - 1] == s[j]);
                    }
                }
            },
            Some(i) => {
                assert(s[i as int + 1] == s.drop_first()[i as int]);
                assert forall|j: int| 0 <= j < i + 1 implies s[j] != b by {
                    if j > 0 {
                        assert(s.drop_first()[j - 1] == s[j]);
                    }
                }
            },
        }
    }
}

/// If `b` occurs at `k` and nowhere earlier, then `k` is what `find_first` finds.
pub proof fn lemma_find_first_is(s: Seq<u8>, b: u8, k: int)
    requires
        0 <= k < s.len(),
        s[k] == b,
        forall|j: int| 0 <= j < k ==> s[j] != b,
    ensures
        find_first(s, b) == Some(k as nat),
{
    lemma_find_first(s, b);
    match find_first(s, b) {
        None => {
            assert(false);
        },
        Some(i) => {
            if i < k {
                assert(s[i as int] != b);
                assert(false);
            }
            if i > k {
                assert(s[k] != b);
                assert(false);
            }
        },
    }
}

/// An ASCII decimal digit.
pub open spec fn is_digit(b: u8) -> bool {
    48 <= b <= 57
}

pub open spec fn all_digits(s: Seq<u8>) -> bool {
    forall|i: int| 0 <= i < s.len() ==> is_digit(#[trigger] s[i])
}

/// The number that a sequence of ASCII digits denotes, most significant first.
pub open spec fn dec_val(s: Seq<u8>) -> nat
    decreases s.len(),
{
    if s.len() == 0 {
        0
    } else {
        10 * dec_val(s.drop_last()) + ((s.last() - 48) as nat)
    }
}

/// The canonical (no leading zero) ASCII decimal digits of `n`.
pub open spec fn dec_digits(n: nat) -> Seq<u8>
    decreases n,
{
    if n < 10 {
        seq![(48 + n) as u8]
    } else {
        dec_digits(n / 10).push((48 + n % 10) as u8)
    }
}

/// The decimal rendering of `n` is nonempty, consists of digits, and denotes `n`.
pub proof fn lemma_dec_digits_val(n: nat)
    ensures
        dec_digits(n).len() >= 1,
        all_digits(dec_digits(n)),
        dec_val(dec_digits(n)) == n,
    decreases n,
{
    if n < 10 {
        let s = seq![(48 + n) as u8];
        assert(s.drop_last() =~= Seq::<u8>::empty());
        assert(dec_val(s) == 10 * dec_val(s.drop_last()) + ((s.last() - 48) as nat));
    } else {
        lemma_dec_digits_val(n / 10);
        let s = dec_digits(n / 10).push((48 + n % 10) as u8);
        assert(s.drop_last() =~= dec_digits(n / 10));
        assert(s.last() == (48 + n % 10) as u8);
        assert(dec_val(s) == 10 * (n / 10) + n % 10);
        assert(10 * (n / 10) + n % 10 == n) by {
            vstd::arithmetic::div_mod::lemma_fundamental_div_mod(n as int, 10);
        }
        assert forall|i: int| 0 <= i < s.len() implies is_digit(#[trigger] s[i]) by {
            if i < s.len() - 1 {
                assert(s[i] == dec_digits(n / 10)[i]);
            }
        }
    }
}

/// Appending digits never shrinks the denoted value.
pub proof fn lemma_dec_val_prefix_le(s: Seq<u8>, i: int, j: int)
    requires
        0 <= i <= j <= s.len(),
        all_digits(s),
    ensures
        dec_val(s.take(i)) <= dec_val(s.take(j)),
    decreases j - i,
{
    if i < j {
        lemma_dec_val_prefix_le(s, i, j - 1);
        let t = s.take(j);
        assert(t.drop_last() =~= s.take(j - 1));
        assert(is_digit(s[j - 1]));
        assert(dec_val(t) == 10 * dec_val(s.take(j - 1)) + ((s[j - 1] - 48) as nat));
    }
}

/// Whether two byte vectors hold the same bytes.
pub fn bytes_eq(a: &Vec<u8>, b: &Vec<u8>) -> (r: bool)
    ensures
        r <==> a@ == b@,
{
    if a.len() != b.len() {
        return false;
    }
    let mut i: usize = 0;
    while i < a.len()
        invariant
            0 <= i <= a.len(),
            a@.len() == b@.len(),
            forall|j: int| 0 <= j < i ==> a@[j] == b@[j],
        decreases a.len() - i,
    {
        if a[i] != b[i] {
            return false;
        }
        i = i + 1;
    }
    proof {
        assert(a@ =~= b@);
    }
    true
}

/// The bytes of `v` from `from` (inclusive) to `to` (exclusive), as a fresh vector.
pub fn copy_range(v: &Vec<u8>, from: usize, to: usize) -> (r: Vec<u8>)
    requires
        from <= to <= v@.len(),
    ensures
        r@ == v@.subrange(from as int, to as int),
{
    let mut r: Vec<u8> = Vec::new();
    let mut i: usize = from;
    while i < to
        invariant
            from <= i <= to <= v@.len(),
            r@ =~= v@.subrange(from as int, i as int),
        decreases to - i,
    {
        r.push(v[i]);
        i = i + 1;
    }
    r
}

/// Scan `v` from position `from` for the first occurrence of `b`.
pub fn find_byte(v: &Vec<u8>, b: u8, from: usize) -> (r: Option<usize>)
    requires
        from <= v@.len(),
    ensures
        match r {
            Some(i) => from <= i < v@.len() && find_first(v@.skip(from as int), b) == Some(
                (i - from) as nat,
            ),
            None => find_first(v@.skip(from as int), b) is None,
        },
{
    let ghost s = v@.skip(from as int);
    let mut i: usize = from;
    while i < v.len()
        invariant
            from <= i <= v@.len(),
            s == v@.skip(from as int),
            forall|j: int| 0 <= j < i - from ==> s[j] != b,
        decreases v@.len() - i,
    {
        if v[i] == b {
            proof {
                assert(s[i - from] == b);
                lemma_find_first_is(s, b, i - from);
            }
            return Some(i);
        }
        proof {
            assert(s[i - from] == v@[i as int]);
        }
        i = i + 1;
    }
    proof {
        lemma_find_first(s, b);
        if find_first(s, b) is Some {
            let k = find_first(s, b)->0;
            assert(s[k as int] == b);
            assert(false);
        }
    }
    None
}

/// Parse the bytes of `v` in `[from, to)` as an unsigned decimal number.
/// Succeeds exactly when the range is a nonempty run of digits whose value
/// fits in 64 bits.
pub fn parse_dec_u64(v: &Vec<u8>, from: usize, to: usize) -> (r: Option<u64>)
    requires
        from <= to <= v@.len(),
    ensures
        ({
            let tok = v@.subrange(from as int, to as int);
            match r {
                Some(n) => tok.len() >= 1 && all_digits(tok) && dec_val(tok) == n as nat,
                None => !(tok.len() >= 1 && all_digits(tok) && dec_val(tok)
                    < 0x1_0000_0000_0000_0000),
            }
        }),
{
    let ghost tok = v@.subrange(from as int, to as int);
    if from == to {
        return None;
    }
    let mut val: u64 = 0;
    let mut i: usize = from;
    while i < to
        invariant
            from <= i <= to <= v@.len(),
            tok == v@.subrange(from as int, to as int),
            all_digits(tok.take(i - from)),
            val as nat == dec_val(tok.take(i - from)),
        decreases to - i,
    {
        let d = v[i];
        if d < 48 || d > 57 {
            proof {
                assert(tok[i - from] == d);
                assert(!is_digit(tok[i - from]));
            }
            return None;
        }
        let step = val.checked_mul(10);
        proof {
            assert(tok.take(i - from + 1).drop_last() =~= tok.take(i - from));
            assert(tok.take(i - from + 1).last() == d);
            assert(dec_val(tok.take(i - from + 1)) == 10 * (val as nat) + ((d - 48) as nat));
        }
        match step {
            None => {
                proof {
                    lemma_overflow_means_too_big(tok, i - from + 1, 10 * (val as nat) + ((d - 48) as nat));
                }
                return None;
            },
            Some(v10) => {
                match v10.checked_add((d - 48) as u64) {
                    None => {
                        proof {
                            lemma_overflow_means_too_big(
                                tok,
                                i - from + 1,
                                10 * (val as nat) + ((d - 48) as nat),
                            );
                        }
                        return None;
                    },
                    Some(next) => {
                        val = next;
                    },
                }
            },
        }
        i = i + 1;
    }
    proof {
        assert(tok.take(to - from) =~= tok);
    }
    Some(val)
}

/// If some digit prefix of `tok` already denotes at least 2^64, the whole token
/// cannot denote a value that fits in 64 bits.
proof fn lemma_overflow_means_too_big(tok: Seq<u8>, j: int, prefix_val: nat)
    requires
        0 <= j <= tok.len(),
        dec_val(tok.take(j)) == prefix_val,
        prefix_val > u64::MAX,
    ensures
        !(all_digits(tok) && dec_val(tok) < 0x1_0000_0000_0000_0000),
{
    if all_digits(tok) {
        lemma_dec_val_prefix_le(tok, j, tok.len() as int);
        assert(tok.take(tok.len() as int) =~= tok);
    }
}

/// The canonical decimal rendering of `n`, as executable bytes.
pub fn u64_to_dec(n: u64) -> (r: Vec<u8>)
    ensures
        r@ == dec_digits(n as nat),
    decreases n,
{
    if n < 10 {
        let mut v: Vec<u8> = Vec::new();
        v.push(48 + n as u8);
        proof {
            assert(v@ =~= seq![(48 + n as nat) as u8]);
        }
        v
    } else {
        let mut v = u64_to_dec(n / 10);
        v.push(48 + (n % 10) as u8);
        v
    }
}

} // verus!
