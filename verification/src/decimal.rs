//! Reading unsigned integers written in decimal.
use vstd::prelude::*;
use vstd::string::*;

verus! {

/// A decimal digit.
pub open spec fn is_digit(c: char) -> bool {
    '0' <= c <= '9'
}

/// The value of a string of decimal digits.
pub open spec fn digits_value(s: Seq<char>) -> int
    decreases s.len(),
{
    if s.len() == 0 {
        0
    } else {
        digits_value(s.drop_last()) * 10 + (s.last() as int - '0' as int)
    }
}

/// The string without a leading `+`.
pub open spec fn sign_stripped(s: Seq<char>) -> Seq<char> {
    if s.len() > 0 && s[0] == '+' {
        s.drop_first()
    } else {
        s
    }
}

/// Every character is a decimal digit.
pub open spec fn all_digits(d: Seq<char>) -> bool {
    forall|i: int| 0 <= i < d.len() ==> is_digit(#[trigger] d[i])
}

/// An unsigned integer at most `max` in decimal, with an optional leading `+`, as the
/// standard library reads unsigned integers.
pub open spec fn decimal_field(s: Seq<char>, max: nat) -> Option<nat> {
    let d = sign_stripped(s);
    if d.len() == 0 || !all_digits(d) || digits_value(d) > max {
        None
    } else {
        Some(digits_value(d) as nat)
    }
}

/// The value of digits only grows as more digits follow.
pub(crate) proof fn lemma_digits_grow(s: Seq<char>, k: nat)
    requires
        k <= s.len(),
        all_digits(s),
    ensures
        0 <= digits_value(s.take(k as int)) <= digits_value(s),
    decreases s.len() - k,
{
    if k < s.len() {
        lemma_digits_grow(s, k + 1);
        assert(s.take(k as int + 1).drop_last() =~= s.take(k as int));
        assert(is_digit(s[k as int]));
    } else {
        assert(s.take(k as int) =~= s);
        lemma_digits_nonneg(s);
    }
}

proof fn lemma_digits_nonneg(s: Seq<char>)
    requires
        all_digits(s),
    ensures
        digits_value(s) >= 0,
    decreases s.len(),
{
    if s.len() > 0 {
        assert(is_digit(s[s.len() - 1]));
        let r = s.drop_last();
        assert(all_digits(r)) by {
            assert forall|i: int| 0 <= i < r.len() implies is_digit(#[trigger] r[i]) by {
                assert(r[i] == s[i]);
            }
        }
        lemma_digits_nonneg(r);
    }
}

/// A value read is at most the bound.
pub proof fn lemma_decimal_field_bound(s: Seq<char>, max: nat)
    ensures
        decimal_field(s, max) matches Some(v) ==> v <= max,
{
    let d = sign_stripped(s);
    if all_digits(d) {
        lemma_digits_nonneg(d);
    }
}

/// An unsigned integer at most `max`, read in decimal as the standard library reads it.
pub fn parse_decimal(s: &str, max: u64) -> (r: Option<u64>)
    ensures
        r == match decimal_field(s@, max as nat) {
            Some(v) => Some(v as u64),
            None => None::<u64>,
        },
        r matches Some(v) ==> v <= max,
{
    let n = s.unicode_len();
    let mut i: usize = 0;
    if n > 0 && s.get_char(0) == '+' {
        i = 1;
    }
    let ghost d = sign_stripped(s@);
    let ghost off = i as int;
    assert(d =~= s@.subrange(off, s@.len() as int));
    if i == n {
        return None;
    }
    let mut value: u128 = 0;
    while i < n
        invariant
            0 <= off <= 1,
            off <= i <= n,
            n == s@.len(),
            d == s@.subrange(off, n as int),
            d == sign_stripped(s@),
            d.len() > 0,
            forall|k: int| 0 <= k < i - off ==> is_digit(#[trigger] d[k]),
            value == digits_value(d.take(i - off)),
            value <= max,
        decreases n - i,
    {
        let c = s.get_char(i);
        proof {
            assert(d[i - off] == c);
        }
        if !('0' <= c && c <= '9') {
            proof {
                assert(!is_digit(d[i - off]));
                assert(!all_digits(d));
            }
            return None;
        }
        let digit: u128 = (c as u32 - '0' as u32) as u128;
        proof {
            assert(d.take(i - off + 1).drop_last() =~= d.take(i - off));
        }
        value = value * 10 + digit;
        if value > max as u128 {
            proof {
                if all_digits(d) {
                    lemma_digits_grow(d, (i - off + 1) as nat);
                    assert(digits_value(d) > max);
                }
            }
            return None;
        }
        i += 1;
    }
    proof {
        assert(d.take(d.len() as int) =~= d);
    }
    Some(value as u64)
}

} // verus!
