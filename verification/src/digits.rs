//! ASCII decimal numerals: canonical printing, parsing, and the facts
//! connecting the two.  FIX carries every number (tags, body length,
//! sequence numbers, checksum) as decimal ASCII text.

use vstd::prelude::*;

verus! {

/// Whether `b` is an ASCII decimal digit.
pub open spec fn is_digit(b: u8) -> bool {
    48 <= b <= 57
}

/// Whether every byte of `s` is an ASCII decimal digit.
pub open spec fn is_digits(s: Seq<u8>) -> bool {
    forall|i: int| 0 <= i < s.len() ==> is_digit(#[trigger] s[i])
}

/// Numeric value of a digit string, most significant digit first.
/// Meaningful under `is_digits(s)`.
pub open spec fn dec_val(s: Seq<u8>) -> int
    decreases s.len(),
{
    if s.len() == 0 {
        0
    } else {
        dec_val(s.drop_last()) * 10 + (s.last() - 48)
    }
}

/// Canonical decimal numeral of `n`: no sign, no leading zero
/// (except for `n == 0` itself).  Meaningful for `n >= 0`.
pub open spec fn dec_digits(n: int) -> Seq<u8>
    recommends
        n >= 0,
    decreases n,
{
    if n < 10 {
        seq![(48 + n) as u8]
    } else {
        dec_digits(n / 10).push((48 + n % 10) as u8)
    }
}

pub proof fn lemma_dec_digits_are_digits(n: int)
    requires
        n >= 0,
    ensures
        dec_digits(n).len() >= 1,
        is_digits(dec_digits(n)),
    decreases n,
{
    if n >= 10 {
        lemma_dec_digits_are_digits(n / 10);
        assert(0 <= n % 10 < 10);
    }
}

pub proof fn lemma_dec_val_nonneg(s: Seq<u8>)
    requires
        is_digits(s),
    ensures
        dec_val(s) >= 0,
    decreases s.len(),
{
    if s.len() > 0 {
        assert(is_digit(s[s.len() - 1]));
        assert(is_digits(s.drop_last())) by {
            assert(forall|i: int|
                0 <= i < s.drop_last().len() ==> is_digit(#[trigger] s.drop_last()[i]) && s.drop_last()[i] == s[i]);
        }
        lemma_dec_val_nonneg(s.drop_last());
    }
}

/// Printing then reading a number gives the number back.
pub proof fn lemma_dec_val_of_digits(n: int)
    requires
        n >= 0,
    ensures
        dec_val(dec_digits(n)) == n,
    decreases n,
{
    if n < 10 {
        let d = dec_digits(n);
        assert(d.len() == 1);
        assert(d.drop_last() =~= Seq::<u8>::empty());
        assert(dec_val(d.drop_last()) == 0);
        assert(d.last() == (48 + n) as u8);
        assert(((48 + n) as u8) as int == 48 + n);
        assert(dec_val(d) == 0 * 10 + ((48 + n) as u8) - 48);
    } else {
        lemma_dec_val_of_digits(n / 10);
        let d = dec_digits(n);
        assert(d.drop_last() =~= dec_digits(n / 10));
        assert(d.last() == (48 + n % 10) as u8);
        assert(dec_val(d) == (n / 10) * 10 + n % 10);
    }
}

/// The value of a digit string extended by one digit on the right.
pub proof fn lemma_dec_val_step(s: Seq<u8>, i: int)
    requires
        0 <= i < s.len(),
    ensures
        dec_val(s.take(i + 1)) == dec_val(s.take(i)) * 10 + (s[i] - 48),
{
    assert(s.take(i + 1).drop_last() =~= s.take(i));
    assert(s.take(i + 1).last() == s[i]);
}

/// A digit string is worth at least any of its prefixes.
pub proof fn lemma_dec_val_prefix(s: Seq<u8>, i: int)
    requires
        is_digits(s),
        0 <= i <= s.len(),
    ensures
        dec_val(s.take(i)) <= dec_val(s),
    decreases s.len() - i,
{
    if i < s.len() {
        lemma_dec_val_step(s, i);
        assert(is_digits(s.take(i))) by {
            assert(forall|j: int| 0 <= j < s.take(i).len() ==> #[trigger] s.take(i)[j] == s[j]);
        }
        lemma_dec_val_nonneg(s.take(i));
        assert(dec_val(s.take(i)) <= dec_val(s.take(i + 1)));
        lemma_dec_val_prefix(s, i + 1);
    } else {
        assert(s.take(i) =~= s);
    }
}

/// The checksum numeral: exactly three digits, zero-padded.
/// Meaningful for `0 <= n <= 255`.
pub open spec fn pad3(n: int) -> Seq<u8> {
    seq![(48 + n / 100) as u8, (48 + (n / 10) % 10) as u8, (48 + n % 10) as u8]
}

pub proof fn lemma_pad3(n: int)
    requires
        0 <= n <= 255,
    ensures
        pad3(n).len() == 3,
        is_digits(pad3(n)),
        dec_val(pad3(n)) == n,
{
    let p = pad3(n);
    assert(0 <= n / 100 <= 9);
    assert(0 <= (n / 10) % 10 <= 9);
    assert(0 <= n % 10 <= 9);
    assert(is_digit(p[0]) && is_digit(p[1]) && is_digit(p[2]));
    assert forall|i: int| 0 <= i < p.len() implies is_digit(#[trigger] p[i]) by {
        if i == 0 {
        } else if i == 1 {
        } else {
            assert(i == 2);
        }
    }
    assert(((48 + n / 100) as u8) as int == 48 + n / 100);
    assert(((48 + (n / 10) % 10) as u8) as int == 48 + (n / 10) % 10);
    assert(((48 + n % 10) as u8) as int == 48 + n % 10);
    assert(p.drop_last() =~= seq![(48 + n / 100) as u8, (48 + (n / 10) % 10) as u8]);
    assert(p.drop_last().drop_last() =~= seq![(48 + n / 100) as u8]);
    assert(p.drop_last().drop_last().drop_last() =~= Seq::<u8>::empty());
    assert(dec_val(Seq::<u8>::empty()) == 0);
    assert(p.drop_last().drop_last().last() == (48 + n / 100) as u8);
    assert(dec_val(p.drop_last().drop_last()) == n / 100);
    assert(dec_val(p.drop_last()) == (n / 100) * 10 + (n / 10) % 10);
    assert(dec_val(p) == ((n / 100) * 10 + (n / 10) % 10) * 10 + n % 10);
    assert(((n / 100) * 10 + (n / 10) % 10) * 10 + n % 10 == n) by {
        assert(n / 100 == (n / 10) / 10);
        assert((n / 10) / 10 * 10 + (n / 10) % 10 == n / 10);
        assert((n / 10) * 10 + n % 10 == n);
    }
}

/// Prints `n` zero-padded to exactly three digits.
pub fn fmt_pad3(n: u8) -> (r: Vec<u8>)
    ensures
        r@ == pad3(n as int),
{
    let mut v: Vec<u8> = Vec::new();
    v.push(48 + n / 100);
    v.push(48 + (n / 10) % 10);
    v.push(48 + n % 10);
    assert(v@ =~= pad3(n as int));
    v
}

/// Prints `n` as its canonical decimal numeral.
pub fn fmt_u64(n: u64) -> (r: Vec<u8>)
    ensures
        r@ == dec_digits(n as int),
    decreases n,
{
    if n < 10 {
        let mut v: Vec<u8> = Vec::new();
        v.push(48 + n as u8);
        assert(v@ =~= dec_digits(n as int));
        v
    } else {
        let mut v = fmt_u64(n / 10);
        v.push(48 + (n % 10) as u8);
        assert(v@ =~= dec_digits(n as int));
        v
    }
}

/// Prints `n` as its canonical decimal numeral.
pub fn fmt_u32(n: u32) -> (r: Vec<u8>)
    ensures
        r@ == dec_digits(n as int),
{
    fmt_u64(n as u64)
}

/// Reads a decimal numeral; `None` on an empty string, a non-digit,
/// or a value over `u64::MAX`.
pub fn parse_u64_dec(s: &[u8]) -> (r: Option<u64>)
    ensures
        match r {
            Some(v) => s@.len() > 0 && is_digits(s@) && v as int == dec_val(s@),
            None => s@.len() == 0 || !is_digits(s@) || dec_val(s@) > u64::MAX,
        },
{
    if s.len() == 0 {
        return None;
    }
    let mut acc: u64 = 0;
    let mut i: usize = 0;
    while i < s.len()
        invariant
            0 <= i <= s@.len(),
            is_digits(s@.take(i as int)),
            acc as int == dec_val(s@.take(i as int)),
        decreases s@.len() - i,
    {
        let b: u8 = s[i];
        if !(48 <= b && b <= 57) {
            assert(!is_digit(s@[i as int]));
            return None;
        }
        let d: u64 = (b - 48) as u64;
        proof {
            lemma_dec_val_step(s@, i as int);
        }
        let acc10: u64 = match acc.checked_mul(10) {
            Some(x) => x,
            None => {
                proof {
                    assert(is_digits(s@.take(i as int + 1))) by {
                        assert(forall|j: int|
                            0 <= j < i as int ==> #[trigger] s@.take(i as int + 1)[j] == s@.take(
                                i as int,
                            )[j]);
                    }
                    if is_digits(s@) {
                        lemma_dec_val_prefix(s@, i as int + 1);
                    }
                }
                return None;
            },
        };
        let acc2: u64 = match acc10.checked_add(d) {
            Some(x) => x,
            None => {
                proof {
                    assert(is_digits(s@.take(i as int + 1))) by {
                        assert(forall|j: int|
                            0 <= j < i as int ==> #[trigger] s@.take(i as int + 1)[j] == s@.take(
                                i as int,
                            )[j]);
                    }
                    if is_digits(s@) {
                        lemma_dec_val_prefix(s@, i as int + 1);
                    }
                }
                return None;
            },
        };
        proof {
            assert(is_digits(s@.take(i as int + 1))) by {
                assert(forall|j: int|
                    0 <= j < i as int ==> #[trigger] s@.take(i as int + 1)[j] == s@.take(
                        i as int,
                    )[j]);
            }
        }
        acc = acc2;
        i = i + 1;
    }
    proof {
        assert(s@.take(i as int) =~= s@);
    }
    Some(acc)
}

/// Reads a decimal numeral into a `u32`.
pub fn parse_u32_dec(s: &[u8]) -> (r: Option<u32>)
    ensures
        match r {
            Some(v) => s@.len() > 0 && is_digits(s@) && v as int == dec_val(s@),
            None => s@.len() == 0 || !is_digits(s@) || dec_val(s@) > u32::MAX,
        },
{
    match parse_u64_dec(s) {
        Some(v) => if v <= u32::MAX as u64 {
            Some(v as u32)
        } else {
            None
        },
        None => None,
    }
}

/// Reads a decimal numeral into a `usize`.
pub fn parse_usize_dec(s: &[u8]) -> (r: Option<usize>)
    ensures
        match r {
            Some(v) => s@.len() > 0 && is_digits(s@) && v as int == dec_val(s@),
            None => s@.len() == 0 || !is_digits(s@) || dec_val(s@) > usize::MAX,
        },
{
    match parse_u64_dec(s) {
        Some(v) => if v <= usize::MAX as u64 {
            Some(v as usize)
        } else {
            None
        },
        None => None,
    }
}

} // verus!
