//! Decimal numerals: the `incremental` field of a firmware record is a
//! decimal string that must denote an unsigned 64-bit value.

use vstd::prelude::*;

verus! {

/// Whether `c` is a decimal digit.
pub open spec fn is_digit(c: char) -> bool {
    '0' <= c && c <= '9'
}

/// The numeric value of a decimal digit character.
pub open spec fn digit_val(c: char) -> int {
    c as int - '0' as int
}

/// The value of a run of decimal digits, most significant first.
pub open spec fn digits_val(s: Seq<char>) -> int
    decreases s.len(),
{
    if s.len() == 0 {
        0
    } else {
        digits_val(s.drop_last()) * 10 + digit_val(s.last())
    }
}

/// The digit run of a numeral: everything after an optional leading `+`.
pub open spec fn digit_part(s: Seq<char>) -> Seq<char> {
    if s.len() > 0 && s[0] == '+' {
        s.drop_first()
    } else {
        s
    }
}

/// Whether `s` is a decimal numeral denoting a value that fits in a u64:
/// an optional leading `+`, then at least one digit, with value at most
/// `u64::MAX`.
pub open spec fn is_u64_numeral(s: Seq<char>) -> bool {
    &&& digit_part(s).len() > 0
    &&& (forall|i: int| 0 <= i < digit_part(s).len() ==> is_digit(#[trigger] digit_part(s)[i]))
    &&& digits_val(digit_part(s)) <= u64::MAX
}

/// The value a numeral denotes.
pub open spec fn u64_numeral_val(s: Seq<char>) -> int {
    digits_val(digit_part(s))
}

/// The value of an all-digit run is never negative.
pub proof fn lemma_digits_val_nonneg(s: Seq<char>)
    requires
        forall|i: int| 0 <= i < s.len() ==> is_digit(#[trigger] s[i]),
    ensures
        digits_val(s) >= 0,
    decreases s.len(),
{
    if s.len() > 0 {
        lemma_digits_val_nonneg(s.drop_last());
    }
}

/// Extending an all-digit run to the right never decreases its value.
proof fn lemma_digits_val_prefix(s: Seq<char>, k: int)
    requires
        forall|i: int| 0 <= i < s.len() ==> is_digit(#[trigger] s[i]),
        0 <= k <= s.len(),
    ensures
        digits_val(s.subrange(0, k)) <= digits_val(s),
    decreases s.len() - k,
{
    if k == s.len() {
        assert(s.subrange(0, k) =~= s);
    } else {
        let t = s.subrange(0, k + 1);
        assert(t.drop_last() =~= s.subrange(0, k));
        lemma_digits_val_nonneg(s.subrange(0, k));
        lemma_digits_val_prefix(s, k + 1);
    }
}

/// Parses a decimal numeral (optional leading `+`, then at least one
/// digit) into a u64, the way `str::parse::<u64>` reads it; any other
/// input, and any value above `u64::MAX`, gives `None`.
pub fn parse_u64(s: &str) -> (r: Option<u64>)
    ensures
        r is Some <==> is_u64_numeral(s@),
        r matches Some(v) ==> v == u64_numeral_val(s@),
{
    let n = s.unicode_len();
    let mut start: usize = 0;
    if n > 0 && s.get_char(0) == '+' {
        start = 1;
    }
    proof {
        assert(digit_part(s@) =~= s@.subrange(start as int, n as int));
    }
    if start >= n {
        return None;
    }
    let ghost digits = digit_part(s@);
    let mut val: u64 = 0;
    let mut i: usize = start;
    while i < n
        invariant
            start <= i <= n,
            n == s@.len(),
            digits == digit_part(s@),
            digits =~= s@.subrange(start as int, n as int),
            forall|k: int| 0 <= k < i - start ==> is_digit(#[trigger] digits[k]),
            val == digits_val(digits.subrange(0, i - start)),
        decreases n - i,
    {
        let c = s.get_char(i);
        if c < '0' || c > '9' {
            proof {
                assert(digits[i - start] == s@[i as int]);
                assert(!is_digit(digits[i - start]));
            }
            return None;
        }
        let d: u64 = (c as u32 - 48) as u64;
        proof {
            assert(d == digit_val(c));
        }
        let next = match val.checked_mul(10) {
            Some(m) => m.checked_add(d),
            None => None,
        };
        match next {
            Some(v) => {
                proof {
                    let pref = digits.subrange(0, i + 1 - start);
                    assert(pref.drop_last() =~= digits.subrange(0, i - start));
                    assert(pref.last() == s@[i as int]);
                }
                val = v;
            },
            None => {
                proof {
                    let pref = digits.subrange(0, i + 1 - start);
                    assert(pref.drop_last() =~= digits.subrange(0, i - start));
                    assert(pref.last() == s@[i as int]);
                    assert(digits_val(pref) > u64::MAX);
                    if is_u64_numeral(s@) {
                        lemma_digits_val_prefix(digits, i + 1 - start);
                        assert(false);
                    }
                }
                return None;
            },
        }
        i = i + 1;
    }
    proof {
        assert(digits.subrange(0, n - start) =~= digits);
        lemma_digits_val_nonneg(digits);
    }
    Some(val)
}

} // verus!
