//! Canonical decimal renderings of integers, as byte strings.
//!
//! The mode classifier groups values by the byte string a value prints to.
//! This module defines that rendering mathematically (`dec_digits`,
//! `int_key`), provides verified executable rendering and parsing, and
//! proves that the round trip is lossless.

use vstd::prelude::*;

verus! {

/// Decimal digits of `n`, most significant first, without leading zeros.
pub open spec fn dec_digits(n: nat) -> Seq<u8>
    decreases n,
{
    if n < 10 {
        seq![(48 + n) as u8]
    } else {
        dec_digits(n / 10).push((48 + n % 10) as u8)
    }
}

/// Canonical rendering of a signed value: a minus sign (`b'-'`) before the
/// digits of the magnitude when the value is negative.
pub open spec fn int_key(i: int) -> Seq<u8> {
    if i < 0 {
        seq![45u8] + dec_digits((-i) as nat)
    } else {
        dec_digits(i as nat)
    }
}

pub open spec fn is_digit(b: u8) -> bool {
    48 <= b <= 57
}

/// `s` is the canonical decimal form of some natural number: at least one
/// digit, nothing but digits, and no leading zero except for "0" itself.
pub open spec fn canonical_digits(s: Seq<u8>) -> bool {
    &&& s.len() >= 1
    &&& forall|i: int| 0 <= i < s.len() ==> is_digit(#[trigger] s[i])
    &&& (s[0] == 48 ==> s.len() == 1)
}

/// Numeric value of a digit string, most significant digit first.
pub open spec fn digits_val(s: Seq<u8>) -> nat
    decreases s.len(),
{
    if s.len() == 0 {
        0
    } else {
        digits_val(s.drop_last()) * 10 + (s.last() - 48) as nat
    }
}

/// Value of a canonical signed form: an optional minus sign followed by the
/// canonical digits of a non-zero magnitude, or canonical digits alone.
pub open spec fn int_val(s: Seq<u8>) -> Option<int> {
    if s.len() >= 1 && s[0] == 45 {
        if canonical_digits(s.skip(1)) && digits_val(s.skip(1)) >= 1 {
            Some(-(digits_val(s.skip(1)) as int))
        } else {
            None
        }
    } else {
        if canonical_digits(s) {
            Some(digits_val(s) as int)
        } else {
            None
        }
    }
}

pub open spec fn pow10(k: nat) -> nat
    decreases k,
{
    if k == 0 {
        1
    } else {
        10 * pow10((k - 1) as nat)
    }
}

pub proof fn lemma_dec_digits_canonical(n: nat)
    ensures
        canonical_digits(dec_digits(n)),
        n >= 1 ==> dec_digits(n)[0] != 48,
    decreases n,
{
    if n >= 10 {
        lemma_dec_digits_canonical(n / 10);
    }
}

pub proof fn lemma_dec_digits_val(n: nat)
    ensures
        digits_val(dec_digits(n)) == n,
    decreases n,
{
    if n < 10 {
        let d = dec_digits(n);
        assert(digits_val(d) == digits_val(d.drop_last()) * 10 + (d.last() - 48) as nat);
        assert(d.drop_last() =~= Seq::<u8>::empty());
    } else {
        lemma_dec_digits_val(n / 10);
        assert(dec_digits(n).drop_last() =~= dec_digits(n / 10));
        assert(digits_val(dec_digits(n)) == (n / 10) * 10 + n % 10);
    }
}

pub proof fn lemma_digits_val_lower(s: Seq<u8>)
    requires
        s.len() >= 1,
        forall|i: int| 0 <= i < s.len() ==> is_digit(#[trigger] s[i]),
        s[0] != 48,
    ensures
        digits_val(s) >= pow10((s.len() - 1) as nat),
    decreases s.len(),
{
    if s.len() > 1 {
        lemma_digits_val_lower(s.drop_last());
    }
}

/// Rendering a signed value and reading it back loses nothing.
pub proof fn lemma_int_key_val(i: int)
    ensures
        int_val(int_key(i)) == Some(i),
{
    if i < 0 {
        lemma_dec_digits_canonical((-i) as nat);
        lemma_dec_digits_val((-i) as nat);
        assert(int_key(i)[0] == 45);
        assert(int_key(i).skip(1) =~= dec_digits((-i) as nat));
    } else {
        lemma_dec_digits_canonical(i as nat);
        lemma_dec_digits_val(i as nat);
        assert(is_digit(int_key(i)[0]));
    }
}

pub proof fn lemma_pow10_mono(a: nat, b: nat)
    requires
        a <= b,
    ensures
        pow10(a) <= pow10(b),
    decreases b,
{
    if a < b {
        lemma_pow10_mono(a, (b - 1) as nat);
    }
}

/// Renders `n` in decimal.
pub fn u32_to_dec(n: u32) -> (r: Vec<u8>)
    ensures
        r@ == dec_digits(n as nat),
    decreases n,
{
    if n < 10 {
        let mut r: Vec<u8> = Vec::new();
        r.push(48 + n as u8);
        proof {
            assert(r@ =~= dec_digits(n as nat));
        }
        r
    } else {
        let mut r = u32_to_dec(n / 10);
        r.push(48 + (n % 10) as u8);
        r
    }
}

/// Renders `x` in decimal, with a minus sign when `x` is negative.
pub fn i32_to_dec(x: i32) -> (r: Vec<u8>)
    ensures
        r@ == int_key(x as int),
{
    if x >= 0 {
        u32_to_dec(x as u32)
    } else {
        let mag: u32 = (-(x as i64)) as u32;
        let mut r: Vec<u8> = Vec::new();
        r.push(45);
        let mut d = u32_to_dec(mag);
        r.append(&mut d);
        proof {
            assert(r@ =~= int_key(x as int));
        }
        r
    }
}

/// Parses the canonical decimal form of an unsigned value.  Rejects byte
/// strings that are not the canonical rendering of some `u32`.
pub fn dec_to_u32(s: &[u8]) -> (r: Option<u32>)
    ensures
        r == (if canonical_digits(s@) && digits_val(s@) <= u32::MAX {
            Some(digits_val(s@) as u32)
        } else {
            None::<u32>
        }),
{
    let n = s.len();
    if n == 0 {
        return None;
    }
    if s[0] == 48 && n != 1 {
        return None;
    }
    let mut i: usize = 0;
    while i < n
        invariant
            0 <= i <= n,
            n == s@.len(),
            forall|j: int| 0 <= j < i ==> is_digit(#[trigger] s@[j]),
        decreases n - i,
    {
        if s[i] < 48 || s[i] > 57 {
            return None;
        }
        i += 1;
    }
    if n > 10 {
        proof {
            lemma_digits_val_lower(s@);
            lemma_pow10_mono(10, (s@.len() - 1) as nat);
            assert(pow10(10) == 10000000000) by {
                reveal_with_fuel(pow10, 11);
            }
        }
        return None;
    }
    let mut acc: u64 = 0;
    let mut i: usize = 0;
    while i < n
        invariant
            0 <= i <= n <= 10,
            n == s@.len(),
            canonical_digits(s@),
            acc == digits_val(s@.take(i as int)),
            acc < pow10(i as nat),
        decreases n - i,
    {
        proof {
            lemma_pow10_mono(i as nat, 9);
            assert(pow10(9) == 1000000000) by {
                reveal_with_fuel(pow10, 10);
            }
            assert(s@.take(i + 1).drop_last() =~= s@.take(i as int));
            assert(s@.take(i + 1).last() == s@[i as int]);
        }
        acc = acc * 10 + ((s[i] - 48) as u64);
        i += 1;
    }
    proof {
        assert(s@.take(n as int) =~= s@);
    }
    if acc <= 0xFFFF_FFFF {
        Some(acc as u32)
    } else {
        None
    }
}

/// Parses the canonical decimal form of a signed value.  Rejects byte
/// strings that are not the canonical rendering of some `i32`.
pub fn dec_to_i32(s: &[u8]) -> (r: Option<i32>)
    ensures
        r == (match int_val(s@) {
            Some(v) => if i32::MIN <= v <= i32::MAX {
                Some(v as i32)
            } else {
                None::<i32>
            },
            None => None::<i32>,
        }),
{
    let n = s.len();
    if n >= 1 && s[0] == 45 {
        let m = &s[1..n];
        proof {
            assert(m@ =~= s@.skip(1));
        }
        match dec_to_u32(m) {
            Some(v) => {
                if 1 <= v && v <= 0x8000_0000 {
                    Some((-(v as i64)) as i32)
                } else {
                    None
                }
            },
            None => None,
        }
    } else {
        match dec_to_u32(s) {
            Some(v) => {
                if v <= 0x7FFF_FFFF {
                    Some(v as i32)
                } else {
                    None
                }
            },
            None => None,
        }
    }
}

} // verus!
