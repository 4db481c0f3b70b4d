//! Decimal text of integers, in both directions: printing a number as its
//! canonical decimal digits, and parsing the digit strings that the wire
//! formats carry (with the optional sign that the standard library's
//! integer parsers accept).

use vstd::prelude::*;

verus! {

/// ASCII decimal digit.
pub open spec fn is_digit(b: u8) -> bool {
    48 <= b <= 57
}

/// Every byte of `s` is an ASCII decimal digit.
pub open spec fn all_digits(s: Seq<u8>) -> bool {
    forall|i: int| 0 <= i < s.len() ==> is_digit(#[trigger] s[i])
}

/// Numeric value of a digit string, read most-significant first.
pub open spec fn digits_val(s: Seq<u8>) -> int
    decreases s.len(),
{
    if s.len() == 0 {
        0
    } else {
        digits_val(s.drop_last()) * 10 + (s.last() - 48)
    }
}

/// Canonical decimal digits of a non-negative number: no sign, no
/// leading zeros (except for the single digit `0`).
pub open spec fn dec_str(n: int) -> Seq<u8>
    recommends
        n >= 0,
    decreases n,
{
    if n < 10 {
        seq![(48 + if n >= 0 { n } else { 0 }) as u8]
    } else {
        dec_str(n / 10).push((48 + n % 10) as u8)
    }
}

/// Decimal text of a signed number: a minus sign before the digits of
/// the magnitude when negative.
pub open spec fn int_str(i: int) -> Seq<u8> {
    if i < 0 {
        seq![45u8] + dec_str(-i)
    } else {
        dec_str(i)
    }
}

/// The canonical digits are digits, start with `0` only for zero itself,
/// and evaluate back to the printed number.
pub proof fn lemma_dec_str(n: int)
    requires
        n >= 0,
    ensures
        all_digits(dec_str(n)),
        dec_str(n).len() >= 1,
        digits_val(dec_str(n)) == n,
        n == 0 ==> dec_str(n) =~= seq![48u8],
        n > 0 ==> dec_str(n)[0] != 48,
    decreases n,
{
    if n < 10 {
        assert(dec_str(n) =~= seq![(48 + n) as u8]);
        assert(seq![(48 + n) as u8].drop_last() =~= Seq::<u8>::empty());
        assert(digits_val(dec_str(n)) == digits_val(Seq::<u8>::empty()) * 10 + n);
    } else {
        lemma_dec_str(n / 10);
        let s = dec_str(n / 10);
        let w = s.push((48 + n % 10) as u8);
        assert(w.drop_last() =~= s);
        assert(w[0] == s[0]);
        assert(digits_val(w) == n / 10 * 10 + n % 10);
    }
}

/// The value of a digit string only grows as more digits follow.
pub proof fn lemma_digits_val_le(s: Seq<u8>, i: int)
    requires
        0 <= i <= s.len(),
        all_digits(s),
    ensures
        digits_val(s) >= digits_val(s.take(i)),
        digits_val(s) >= 0,
        digits_val(s.take(i)) >= 0,
    decreases s.len() - i,
{
    if i == s.len() {
        assert(s.take(i) =~= s);
        lemma_digits_val_nonneg(s);
        lemma_digits_val_nonneg(s.take(i));
    } else {
        lemma_digits_val_le(s, i + 1);
        assert(s.take(i + 1).drop_last() =~= s.take(i));
        assert(digits_val(s.take(i + 1)) == digits_val(s.take(i)) * 10 + (s[i] - 48));
        lemma_digits_val_nonneg(s.take(i));
    }
}

/// A digit string's value is non-negative.
pub proof fn lemma_digits_val_nonneg(s: Seq<u8>)
    requires
        all_digits(s),
    ensures
        digits_val(s) >= 0,
    decreases s.len(),
{
    if s.len() > 0 {
        assert(all_digits(s.drop_last()));
        lemma_digits_val_nonneg(s.drop_last());
    }
}

/// What `u64::from_str` accepts: an optional `+`, then at least one
/// digit, with a value that fits; the parsed value when it does.
pub open spec fn parse_u64_sp(s: Seq<u8>) -> Option<int> {
    let body = if s.len() > 0 && s[0] == 43 {
        s.drop_first()
    } else {
        s
    };
    if body.len() > 0 && all_digits(body) && digits_val(body) <= u64::MAX {
        Some(digits_val(body))
    } else {
        None
    }
}

/// What `u32::from_str` accepts, as `parse_u64_sp` with the `u32` bound.
pub open spec fn parse_u32_sp(s: Seq<u8>) -> Option<int> {
    let body = if s.len() > 0 && s[0] == 43 {
        s.drop_first()
    } else {
        s
    };
    if body.len() > 0 && all_digits(body) && digits_val(body) <= u32::MAX {
        Some(digits_val(body))
    } else {
        None
    }
}

/// What `i64::from_str` accepts: an optional sign, then at least one
/// digit, with a value in the `i64` range; the parsed value when it does.
pub open spec fn parse_i64_sp(s: Seq<u8>) -> Option<int> {
    let neg = s.len() > 0 && s[0] == 45;
    let body = if s.len() > 0 && (s[0] == 43 || s[0] == 45) {
        s.drop_first()
    } else {
        s
    };
    if body.len() > 0 && all_digits(body) {
        if neg {
            if digits_val(body) <= 0x8000_0000_0000_0000 {
                Some(-digits_val(body))
            } else {
                None
            }
        } else {
            if digits_val(body) <= i64::MAX {
                Some(digits_val(body))
            } else {
                None
            }
        }
    } else {
        None
    }
}

/// Value of the digit run `s[from..]`, or `None` on a non-digit, an
/// empty run, or a value above `bound`.
fn parse_digits_bounded(s: &[u8], from: usize, bound: u64) -> (r: Option<u64>)
    requires
        from <= s@.len(),
    ensures
        ({
            let body = s@.skip(from as int);
            match r {
                Some(v) => body.len() > 0 && all_digits(body) && digits_val(body) == v && v
                    <= bound,
                None => !(body.len() > 0 && all_digits(body) && digits_val(body) <= bound),
            }
        }),
{
    let n = s.len();
    let ghost body = s@.skip(from as int);
    if from == n {
        return None;
    }
    let mut acc: u64 = 0;
    let mut i: usize = from;
    while i < n
        invariant
            from <= i <= n,
            n == s@.len(),
            body == s@.skip(from as int),
            all_digits(body.take(i - from)),
            acc == digits_val(body.take(i - from)),
            acc <= bound,
        decreases n - i,
    {
        let b = s[i];
        proof {
            assert(body[i - from] == s@[i as int]);
            assert(body.take(i - from + 1).drop_last() =~= body.take(i - from));
        }
        if b < 48 || b > 57 {
            return None;
        }
        assert(all_digits(body.take(i - from + 1)));
        let wide: u128 = (acc as u128) * 10 + ((b - 48) as u128);
        proof {
            assert(digits_val(body.take(i - from + 1)) == acc * 10 + (b - 48));
        }
        if wide > bound as u128 {
            proof {
                if all_digits(body) {
                    lemma_digits_val_le(body, i - from + 1);
                }
            }
            return None;
        }
        acc = wide as u64;
        i = i + 1;
    }
    assert(body.take(i - from) =~= body);
    Some(acc)
}

/// Parses a field value as `u64::from_str` does.
pub fn parse_u64_bytes(s: &[u8]) -> (r: Option<u64>)
    ensures
        ({
            match parse_u64_sp(s@) {
                Some(v) => r matches Some(w) && w == v,
                None => r is None,
            }
        }),
{
    let start: usize = if s.len() > 0 && s[0] == 43 {
        1
    } else {
        0
    };
    proof {
        if s@.len() > 0 && s@[0] == 43 {
            assert(s@.drop_first() =~= s@.skip(1));
        } else {
            assert(s@ =~= s@.skip(0));
        }
    }
    parse_digits_bounded(s, start, u64::MAX)
}

/// Parses a field value as `u32::from_str` does.
pub fn parse_u32_bytes(s: &[u8]) -> (r: Option<u32>)
    ensures
        ({
            match parse_u32_sp(s@) {
                Some(v) => r matches Some(w) && w == v,
                None => r is None,
            }
        }),
{
    let start: usize = if s.len() > 0 && s[0] == 43 {
        1
    } else {
        0
    };
    proof {
        if s@.len() > 0 && s@[0] == 43 {
            assert(s@.drop_first() =~= s@.skip(1));
        } else {
            assert(s@ =~= s@.skip(0));
        }
    }
    match parse_digits_bounded(s, start, 0xffff_ffff) {
        Some(v) => Some(v as u32),
        None => None,
    }
}

/// Parses a field value as `i64::from_str` does.
pub fn parse_i64_bytes(s: &[u8]) -> (r: Option<i64>)
    ensures
        ({
            match parse_i64_sp(s@) {
                Some(v) => r matches Some(w) && w == v,
                None => r is None,
            }
        }),
{
    let neg = s.len() > 0 && s[0] == 45;
    let start: usize = if s.len() > 0 && (s[0] == 43 || s[0] == 45) {
        1
    } else {
        0
    };
    proof {
        if s@.len() > 0 && (s@[0] == 43 || s@[0] == 45) {
            assert(s@.drop_first() =~= s@.skip(1));
        } else {
            assert(s@ =~= s@.skip(0));
        }
    }
    if neg {
        match parse_digits_bounded(s, start, 0x8000_0000_0000_0000) {
            Some(mag) => {
                if mag == 0 {
                    Some(0i64)
                } else {
                    Some(-(((mag - 1) as i64)) - 1)
                }
            },
            None => None,
        }
    } else {
        match parse_digits_bounded(s, start, 0x7fff_ffff_ffff_ffff) {
            Some(v) => Some(v as i64),
            None => None,
        }
    }
}

/// Canonical decimal digits of a `u64`.
pub fn u64_dec_bytes(n: u64) -> (r: Vec<u8>)
    ensures
        r@ == dec_str(n as int),
    decreases n,
{
    if n < 10 {
        let mut v: Vec<u8> = Vec::new();
        v.push(48 + (n as u8));
        assert(v@ =~= dec_str(n as int));
        v
    } else {
        let mut v = u64_dec_bytes(n / 10);
        v.push(48 + ((n % 10) as u8));
        v
    }
}

/// Decimal text of an `i64`, minus sign included when negative.
pub fn i64_dec_bytes(i: i64) -> (r: Vec<u8>)
    ensures
        r@ == int_str(i as int),
{
    if i >= 0 {
        u64_dec_bytes(i as u64)
    } else {
        let mag: u64 = ((-(i + 1)) as u64) + 1;
        assert(mag == -(i as int));
        let mut digits = u64_dec_bytes(mag);
        digits.insert(0, 45u8);
        assert(digits@ =~= seq![45u8] + dec_str(mag as int));
        digits
    }
}

} // verus!
