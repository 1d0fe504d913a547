//! Decimal text for integers: what `{}` prints for an integer and what
//! `str::parse` accepts for a signed integer type.

use vstd::prelude::*;

verus! {

/// ASCII byte of a decimal digit.
pub open spec fn is_digit(b: u8) -> bool {
    48 <= b && b <= 57
}

/// Every byte of `s` is a decimal digit.
pub open spec fn all_digits(s: Seq<u8>) -> bool {
    forall|i: int| 0 <= i < s.len() ==> #[trigger] is_digit(s[i])
}

/// The number that a string of decimal digits denotes.
pub open spec fn digits_value(s: Seq<u8>) -> int
    decreases s.len(),
{
    if s.len() == 0 {
        0
    } else {
        digits_value(s.drop_last()) * 10 + (s.last() - 48)
    }
}

/// The shortest decimal digits of `n` (no leading zeros; `0` is "0").
pub open spec fn digits_of(n: nat) -> Seq<u8>
    decreases n,
{
    if n < 10 {
        seq![(48 + n) as u8]
    } else {
        digits_of(n / 10).push((48 + n % 10) as u8)
    }
}

/// Decimal text of an integer: a minus sign for negatives, then its digits.
pub open spec fn decimal(n: int) -> Seq<u8> {
    if n < 0 {
        seq![45u8] + digits_of((-n) as nat)
    } else {
        digits_of(n as nat)
    }
}

/// The integer that `s` spells as an optional `+` or `-` followed by at least
/// one decimal digit, or `None` if `s` has any other shape.
pub open spec fn signed_value(s: Seq<u8>) -> Option<int> {
    if s.len() > 0 && (s[0] == 43u8 || s[0] == 45u8) {
        let d = s.subrange(1, s.len() as int);
        if d.len() > 0 && all_digits(d) {
            if s[0] == 45u8 {
                Some(-digits_value(d))
            } else {
                Some(digits_value(d))
            }
        } else {
            None
        }
    } else if s.len() > 0 && all_digits(s) {
        Some(digits_value(s))
    } else {
        None
    }
}

/// What `<i64 as FromStr>::from_str` yields for these bytes, as an `Option`.
pub open spec fn i64_text_value(s: Seq<u8>) -> Option<i64> {
    match signed_value(s) {
        Some(v) => if i64::MIN <= v <= i64::MAX {
            Some(v as i64)
        } else {
            None
        },
        None => None,
    }
}

/// What `<isize as FromStr>::from_str` yields for these bytes, as an `Option`.
pub open spec fn isize_text_value(s: Seq<u8>) -> Option<isize> {
    match signed_value(s) {
        Some(v) => if isize::MIN <= v <= isize::MAX {
            Some(v as isize)
        } else {
            None
        },
        None => None,
    }
}

pub proof fn lemma_digits_of_shape(n: nat)
    ensures
        digits_of(n).len() > 0,
        all_digits(digits_of(n)),
        digits_value(digits_of(n)) == n,
    decreases n,
{
    let s = digits_of(n);
    if n >= 10 {
        lemma_digits_of_shape(n / 10);
        let p = digits_of(n / 10);
        assert(s == p.push((48 + n % 10) as u8));
        assert(s.drop_last() =~= p);
        assert((n / 10) * 10 + n % 10 == n) by (nonlinear_arith);
        assert(s.last() == 48 + n % 10);
        assert forall|i: int| 0 <= i < s.len() implies #[trigger] is_digit(s[i]) by {
            if i < p.len() {
                assert(s[i] == p[i]);
            }
        }
    } else {
        assert(s.drop_last() =~= Seq::<u8>::empty());
        assert(digits_value(Seq::<u8>::empty()) == 0);
        assert(s.last() == 48 + n);
    }
}

proof fn lemma_digits_value_prefix(s: Seq<u8>, k: int)
    requires
        0 <= k <= s.len(),
        all_digits(s),
    ensures
        digits_value(s.subrange(0, k)) <= digits_value(s),
        0 <= digits_value(s.subrange(0, k)),
    decreases s.len(),
{
    if k == s.len() {
        assert(s.subrange(0, k) =~= s);
        lemma_digits_value_nonneg(s);
    } else {
        let t = s.drop_last();
        assert(all_digits(t)) by {
            assert forall|i: int| 0 <= i < t.len() implies #[trigger] is_digit(t[i]) by {
                assert(is_digit(s[i]));
            }
        }
        lemma_digits_value_prefix(t, k);
        assert(t.subrange(0, k) =~= s.subrange(0, k));
        assert(is_digit(s[s.len() - 1]));
        lemma_digits_value_nonneg(t);
    }
}

proof fn lemma_digits_value_nonneg(s: Seq<u8>)
    requires
        all_digits(s),
    ensures
        0 <= digits_value(s),
    decreases s.len(),
{
    if s.len() > 0 {
        let t = s.drop_last();
        assert(all_digits(t)) by {
            assert forall|i: int| 0 <= i < t.len() implies #[trigger] is_digit(t[i]) by {
                assert(is_digit(s[i]));
            }
        }
        lemma_digits_value_nonneg(t);
        assert(is_digit(s[s.len() - 1]));
    }
}

/// Appends the digits of `n` to `out`.
fn push_digits(out: &mut Vec<u8>, n: u64)
    ensures
        final(out)@ == old(out)@ + digits_of(n as nat),
    decreases n,
{
    if n >= 10 {
        push_digits(out, n / 10);
    }
    let d: u8 = (n % 10) as u8;
    out.push(48u8 + d);
    proof {
        if n >= 10 {
            assert(digits_of(n as nat) == digits_of((n / 10) as nat).push((48 + n % 10) as u8));
        }
    }
    assert(final(out)@ =~= old(out)@ + digits_of(n as nat)) by {
        if n >= 10 {
            assert(digits_of(n as nat) == digits_of((n / 10) as nat).push((48 + n % 10) as u8));
        }
    }
}

/// Appends the decimal text of `n` to `out`, as `{}` formats an `i64`.
pub fn push_decimal_i64(out: &mut Vec<u8>, n: i64)
    ensures
        final(out)@ == old(out)@ + decimal(n as int),
{
    if n < 0 {
        out.push(45u8);
        let wide: i128 = n as i128;
        let mag: u64 = (0i128 - wide) as u64;
        push_digits(out, mag);
        assert(final(out)@ =~= old(out)@ + decimal(n as int));
    } else {
        push_digits(out, n as u64);
    }
}

/// Appends the decimal text of `n` to `out`, as `{}` formats a `usize`.
pub fn push_decimal_usize(out: &mut Vec<u8>, n: usize)
    ensures
        final(out)@ == old(out)@ + decimal(n as int),
{
    push_digits(out, n as u64);
}

/// The value of the digits `s[start..]` if they are all digits, at least one,
/// and denote at most `u64::MAX`.
fn bounded_digits(s: &[u8], start: usize) -> (r: Option<u128>)
    requires
        start <= s@.len(),
    ensures
        ({
            let d = s@.subrange(start as int, s@.len() as int);
            match r {
                Some(v) => d.len() > 0 && all_digits(d) && v == digits_value(d) && v <= u64::MAX,
                None => !(d.len() > 0 && all_digits(d) && digits_value(d) <= u64::MAX),
            }
        }),
{
    let ghost d = s@.subrange(start as int, s@.len() as int);
    if start == s.len() {
        return None;
    }
    let mut i: usize = start;
    let mut acc: u128 = 0;
    while i < s.len()
        invariant
            start <= i <= s@.len(),
            d == s@.subrange(start as int, s@.len() as int),
            all_digits(d.subrange(0, i - start)),
            acc == digits_value(d.subrange(0, i - start)),
            acc <= u64::MAX,
        decreases s@.len() - i,
    {
        let b = s[i];
        if b < 48 || b > 57 {
            assert(!is_digit(d[i - start]));
            return None;
        }
        let ghost pre = d.subrange(0, i - start);
        let ghost post = d.subrange(0, i - start + 1);
        assert(post.drop_last() =~= pre);
        assert(post.last() == b);
        let next: u128 = acc * 10 + (b - 48) as u128;
        proof {
            assert forall|j: int| 0 <= j < post.len() implies #[trigger] is_digit(post[j]) by {
                if j < pre.len() {
                    assert(post[j] == pre[j]);
                }
            }
        }
        if next > 0xFFFF_FFFF_FFFF_FFFFu128 {
            proof {
                if d.len() > 0 && all_digits(d) {
                    lemma_digits_value_prefix(d, i - start + 1);
                }
            }
            return None;
        }
        acc = next;
        i = i + 1;
    }
    assert(d.subrange(0, d.len() as int) =~= d);
    Some(acc)
}

/// Parses bytes as `str::parse::<i64>` parses text: an optional sign, then
/// at least one decimal digit, within the range of `i64`.
pub fn parse_i64(s: &[u8]) -> (r: Option<i64>)
    ensures
        r == i64_text_value(s@),
{
    if s.len() == 0 {
        return None;
    }
    let neg = s[0] == 45u8;
    let start: usize = if s[0] == 43u8 || neg { 1 } else { 0 };
    match bounded_digits(s, start) {
        None => {
            assert(start == 0 ==> s@.subrange(0, s@.len() as int) =~= s@);
            None
        },
        Some(m) => {
            assert(start == 0 ==> s@.subrange(0, s@.len() as int) =~= s@);
            if start == 0 {
                proof {
                    assert(!(s@[0] == 43u8 || s@[0] == 45u8)) by {
                        assert(is_digit(s@.subrange(0, s@.len() as int)[0]));
                    }
                }
            }
            let v: i128 = if neg { 0i128 - m as i128 } else { m as i128 };
            if (i64::MIN as i128) <= v && v <= (i64::MAX as i128) {
                Some(v as i64)
            } else {
                None
            }
        },
    }
}

/// Parses bytes as `str::parse::<isize>` parses text.
pub fn parse_isize(s: &[u8]) -> (r: Option<isize>)
    ensures
        r == isize_text_value(s@),
{
    if s.len() == 0 {
        return None;
    }
    let neg = s[0] == 45u8;
    let start: usize = if s[0] == 43u8 || neg { 1 } else { 0 };
    match bounded_digits(s, start) {
        None => {
            assert(start == 0 ==> s@.subrange(0, s@.len() as int) =~= s@);
            None
        },
        Some(m) => {
            assert(start == 0 ==> s@.subrange(0, s@.len() as int) =~= s@);
            if start == 0 {
                proof {
                    assert(!(s@[0] == 43u8 || s@[0] == 45u8)) by {
                        assert(is_digit(s@.subrange(0, s@.len() as int)[0]));
                    }
                }
            }
            let v: i128 = if neg { 0i128 - m as i128 } else { m as i128 };
            if (isize::MIN as i128) <= v && v <= (isize::MAX as i128) {
                Some(v as isize)
            } else {
                None
            }
        },
    }
}

/// Reading back the decimal text of any integer gives that integer.
pub proof fn lemma_signed_value_of_decimal(n: int)
    ensures
        signed_value(decimal(n)) == Some(n),
{
    if n < 0 {
        let m = (-n) as nat;
        lemma_digits_of_shape(m);
        let s = decimal(n);
        assert(s.subrange(1, s.len() as int) =~= digits_of(m));
    } else {
        lemma_digits_of_shape(n as nat);
        assert(is_digit(decimal(n)[0]));
    }
}

/// `str::parse::<i64>` reads back what `{}` prints for an `i64`.
pub proof fn lemma_i64_decimal_roundtrip(n: i64)
    ensures
        i64_text_value(decimal(n as int)) == Some(n),
{
    lemma_signed_value_of_decimal(n as int);
}

/// `str::parse::<isize>` reads back what `{}` prints for an `isize`.
pub proof fn lemma_isize_decimal_roundtrip(n: isize)
    ensures
        isize_text_value(decimal(n as int)) == Some(n),
{
    lemma_signed_value_of_decimal(n as int);
}

/// What `<u64 as FromStr>::from_str` yields for these bytes, as an `Option`:
/// an optional `+`, then digits, within the range of `u64`.
pub open spec fn u64_text_value(s: Seq<u8>) -> Option<u64> {
    if s.len() > 0 && s[0] == 45u8 {
        None
    } else {
        match signed_value(s) {
            Some(v) => if 0 <= v <= u64::MAX {
                Some(v as u64)
            } else {
                None
            },
            None => None,
        }
    }
}

/// Parses bytes as `str::parse::<u64>` parses text.
pub fn parse_u64(s: &[u8]) -> (r: Option<u64>)
    ensures
        r == u64_text_value(s@),
{
    if s.len() == 0 || s[0] == 45u8 {
        return None;
    }
    let start: usize = if s[0] == 43u8 { 1 } else { 0 };
    match bounded_digits(s, start) {
        None => {
            assert(start == 0 ==> s@.subrange(0, s@.len() as int) =~= s@);
            None
        },
        Some(m) => {
            assert(start == 0 ==> s@.subrange(0, s@.len() as int) =~= s@);
            if start == 0 {
                proof {
                    assert(!(s@[0] == 43u8 || s@[0] == 45u8)) by {
                        assert(is_digit(s@.subrange(0, s@.len() as int)[0]));
                    }
                }
            }
            Some(m as u64)
        },
    }
}

} // verus!
