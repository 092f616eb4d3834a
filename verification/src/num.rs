//! Decimal text of 64-bit integers: rendering a value for substitution and
//! parsing literal tokens, each proved against a small recursive definition.
use vstd::prelude::*;
use crate::chars::{all_digits, is_digit, byte_is_digit};
use vstd::arithmetic::mul::lemma_mul_inequality;
use vstd::arithmetic::div_mod::{lemma_fundamental_div_mod, lemma_mod_bound};
use vstd::slice::{slice_index_get, slice_subrange};

verus! {

/// Decimal digits of a non-negative number, most significant first.
pub open spec fn dec_digits(n: nat) -> Seq<u8>
    decreases n,
{
    if n < 10 {
        seq![(48 + n) as u8]
    } else {
        dec_digits(n / 10) + seq![(48 + n % 10) as u8]
    }
}

/// Decimal text of a signed value: a minus sign before the magnitude's digits.
pub open spec fn i64_dec(v: int) -> Seq<u8> {
    if v < 0 {
        seq![45u8] + dec_digits((-v) as nat)
    } else {
        dec_digits(v as nat)
    }
}

/// Value of a digit string, most significant first.
pub open spec fn digits_val(s: Seq<u8>) -> int
    decreases s.len(),
{
    if s.len() == 0 {
        0
    } else {
        digits_val(s.drop_last()) * 10 + (s.last() - 48)
    }
}

/// The integer named by a token: an optional single sign, then one or more
/// digits, and the value must fit in a 64-bit signed word.
pub open spec fn parse_i64_spec(s: Seq<u8>) -> Option<i64> {
    let neg = s.len() > 0 && s[0] == 45;
    let body = if s.len() > 0 && (s[0] == 43 || s[0] == 45) {
        s.drop_first()
    } else {
        s
    };
    if body.len() > 0 && all_digits(body) {
        let m = digits_val(body);
        if !neg && m <= i64::MAX {
            Some(m as i64)
        } else if neg && m <= 0x8000000000000000 {
            Some((-m) as i64)
        } else {
            None
        }
    } else {
        None
    }
}

/// Renders `v` as decimal text, the text the substitution pass writes in
/// place of a variable reference.
pub fn i64_to_dec(v: i64) -> (r: Vec<u8>)
    ensures
        r@ == i64_dec(v as int),
{
    let neg = v < 0;
    let mut cur: u64 = if v == i64::MIN {
        9223372036854775808u64
    } else if v < 0 {
        (-v) as u64
    } else {
        v as u64
    };
    let ghost m: nat = cur as nat;
    proof {
        assert(m == if v < 0 { -(v as int) } else { v as int });
    }
    let mut out: Vec<u8> = Vec::new();
    if cur == 0 {
        out.push(48);
        proof {
            assert(out@ =~= dec_digits(m));
        }
    } else {
        proof {
            assert(dec_digits(m) =~= dec_digits(cur as nat) + out@);
        }
        while cur > 0
            invariant
                cur > 0 ==> dec_digits(m) == dec_digits(cur as nat) + out@,
                cur == 0 ==> dec_digits(m) == out@,
            decreases cur,
        {
            let d: u8 = (cur % 10) as u8 + 48;
            let ghost prev = cur as nat;
            let ghost old_out = out@;
            out.insert(0, d);
            proof {
                assert(out@ =~= seq![d] + old_out);
            }
            cur = cur / 10;
            proof {
                if prev < 10 {
                    assert(dec_digits(prev) =~= seq![d]);
                    assert(cur == 0);
                    assert(dec_digits(m) =~= out@);
                } else {
                    assert(dec_digits(prev) == dec_digits(prev / 10) + seq![(48 + prev % 10) as u8]);
                    assert(dec_digits(m) =~= dec_digits(cur as nat) + out@);
                }
            }
        }
    }
    if neg {
        let ghost digits = out@;
        out.insert(0, 45);
        proof {
            assert(out@ =~= seq![45u8] + digits);
        }
    }
    out
}

proof fn lemma_digits_val_nonneg(s: Seq<u8>)
    requires
        all_digits(s),
    ensures
        digits_val(s) >= 0,
    decreases s.len(),
{
    if s.len() > 0 {
        assert(all_digits(s.drop_last())) by {
            assert(forall|i: int| 0 <= i < s.len() - 1 ==> #[trigger] s.drop_last()[i] == s[i]);
        }
        lemma_digits_val_nonneg(s.drop_last());
    }
}

proof fn lemma_digits_val_prefix_le(s: Seq<u8>, i: int)
    requires
        all_digits(s),
        0 <= i <= s.len(),
    ensures
        digits_val(s.take(i)) <= digits_val(s),
    decreases s.len() - i,
{
    if i < s.len() {
        assert(s.take(i + 1).drop_last() =~= s.take(i));
        assert(s.take(i + 1).last() == s[i]);
        assert(all_digits(s.take(i))) by {
            assert(forall|j: int| 0 <= j < i ==> #[trigger] s.take(i)[j] == s[j]);
        }
        lemma_digits_val_nonneg(s.take(i));
        assert(digits_val(s.take(i)) <= digits_val(s.take(i + 1)));
        lemma_digits_val_prefix_le(s, i + 1);
        assert(s.take(s.len() as int) =~= s);
    } else {
        assert(s.take(i) =~= s);
    }
}

/// Sums a digit string left to right, reporting when the value passes the
/// largest magnitude a 64-bit signed word can carry.
pub(crate) fn digits_value_bounded(s: &[u8]) -> (r: Option<u64>)
    requires
        all_digits(s@),
    ensures
        match r {
            Some(v) => v as int == digits_val(s@) && v <= 0x8000000000000000u64,
            None => digits_val(s@) > 0x8000000000000000,
        },
{
    let mut acc: u64 = 0;
    let mut i: usize = 0;
    let n = s.len();
    proof {
        assert(s@.take(0) =~= Seq::<u8>::empty());
    }
    while i < n
        invariant
            0 <= i <= n,
            n == s@.len(),
            all_digits(s@),
            acc as int == digits_val(s@.take(i as int)),
            acc <= 0x8000000000000000u64,
        decreases n - i,
    {
        let b = *slice_index_get(s, i);
        assert(is_digit(b));
        let d: u64 = (b - 48) as u64;
        let limit: u64 = (0x8000000000000000u64 - d) / 10;
        proof {
            lemma_fundamental_div_mod(0x8000000000000000 - d, 10);
            lemma_mod_bound(0x8000000000000000 - d, 10);
            assert(s@.take(i + 1).drop_last() =~= s@.take(i as int));
            assert(s@.take(i + 1).last() == s@[i as int]);
        }
        if acc > limit {
            proof {
                lemma_mul_inequality(limit + 1, acc as int, 10);
                assert(acc * 10 + d > 0x8000000000000000);
                assert(digits_val(s@.take(i + 1)) == acc * 10 + d);
                lemma_digits_val_prefix_le(s@, i + 1);
            }
            return None;
        }
        proof {
            lemma_mul_inequality(acc as int, limit as int, 10);
            assert(acc * 10 + d <= 0x8000000000000000);
        }
        acc = acc * 10 + d;
        i = i + 1;
    }
    proof {
        assert(s@.take(n as int) =~= s@);
    }
    Some(acc)
}

/// Parses a token as a plain base-10 signed 64-bit integer.
pub fn parse_i64(s: &[u8]) -> (r: Option<i64>)
    ensures
        r == parse_i64_spec(s@),
{
    let n = s.len();
    if n == 0 {
        return None;
    }
    let first = *slice_index_get(s, 0);
    let neg = first == 45;
    let start: usize = if first == 43 || first == 45 {
        1
    } else {
        0
    };
    let body = slice_subrange(s, start, n);
    proof {
        if start == 1 {
            assert(body@ =~= s@.drop_first());
        } else {
            assert(body@ =~= s@);
        }
    }
    if body.len() == 0 {
        return None;
    }
    let mut j: usize = 0;
    let bn = body.len();
    while j < bn
        invariant
            0 <= j <= bn,
            bn == body@.len(),
            bn > 0,
            s@.len() > 0,
            body@ == (if s@[0] == 43 || s@[0] == 45 {
                s@.drop_first()
            } else {
                s@
            }),
            forall|k: int| 0 <= k < j ==> is_digit(#[trigger] body@[k]),
        decreases bn - j,
    {
        if !byte_is_digit(*slice_index_get(body, j)) {
            return None;
        }
        j = j + 1;
    }
    assert(all_digits(body@));
    match digits_value_bounded(body) {
        None => None,
        Some(v) => {
            if !neg {
                if v <= 0x7fffffffffffffffu64 {
                    Some(v as i64)
                } else {
                    None
                }
            } else {
                if v == 0x8000000000000000u64 {
                    Some(i64::MIN)
                } else {
                    Some(-(v as i64))
                }
            }
        },
    }
}

} // verus!
