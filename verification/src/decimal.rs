//! Decimal text of integers, both directions: what `to_string` writes for an
//! integer and what `str::parse` accepts for one.

use vstd::prelude::*;

verus! {

/// ASCII '+'.
pub const PLUS: u8 = 43;
/// ASCII '-'.
pub const MINUS: u8 = 45;

pub open spec fn is_digit(b: u8) -> bool {
    48 <= b <= 57
}

pub open spec fn all_digits(s: Seq<u8>) -> bool {
    forall|i: int| 0 <= i < s.len() ==> is_digit(#[trigger] s[i])
}

/// The value of a string of decimal digits (most significant first).
pub open spec fn digits_value(s: Seq<u8>) -> nat
    decreases s.len(),
{
    if s.len() == 0 {
        0
    } else {
        digits_value(s.drop_last()) * 10 + (s.last() - 48) as nat
    }
}

/// The shortest decimal digits of `n`, as `to_string` writes them.
pub open spec fn nat_text(n: nat) -> Seq<u8>
    decreases n,
{
    if n < 10 {
        seq![(n + 48) as u8]
    } else {
        nat_text(n / 10).push(((n % 10) + 48) as u8)
    }
}

/// Decimal text of a signed integer: a '-' for negatives, then the digits.
pub open spec fn int_text(n: int) -> Seq<u8> {
    if n < 0 {
        seq![MINUS] + nat_text((-n) as nat)
    } else {
        nat_text(n as nat)
    }
}

/// What `str::parse` makes of `s` as an integer, before the range check:
/// an optional sign ('-' only when `signed`) followed by one or more digits.
pub open spec fn parse_int(s: Seq<u8>, signed: bool) -> Option<int> {
    if s.len() == 0 {
        None
    } else if s[0] == PLUS || (signed && s[0] == MINUS) {
        let d = s.drop_first();
        if d.len() > 0 && all_digits(d) {
            if s[0] == MINUS {
                Some(-(digits_value(d) as int))
            } else {
                Some(digits_value(d) as int)
            }
        } else {
            None
        }
    } else if all_digits(s) {
        Some(digits_value(s) as int)
    } else {
        None
    }
}

/// `str::parse::<i64>` on the bytes `s`.
pub open spec fn parse_i64_spec(s: Seq<u8>) -> Option<i64> {
    match parse_int(s, true) {
        Some(v) => if i64::MIN <= v <= i64::MAX {
            Some(v as i64)
        } else {
            None
        },
        None => None,
    }
}

/// `str::parse::<u64>` on the bytes `s`.
pub open spec fn parse_u64_spec(s: Seq<u8>) -> Option<u64> {
    match parse_int(s, false) {
        Some(v) => if 0 <= v <= u64::MAX {
            Some(v as u64)
        } else {
            None
        },
        None => None,
    }
}

pub proof fn lemma_digits_value_step(s: Seq<u8>, start: int, i: int)
    requires
        0 <= start <= i < s.len(),
    ensures
        digits_value(s.subrange(start, i + 1)) == digits_value(s.subrange(start, i)) * 10 + (s[i]
            - 48) as nat,
{
    assert(s.subrange(start, i + 1).drop_last() =~= s.subrange(start, i));
}

/// A longer run of digits is worth at least as much as its prefix.
pub proof fn lemma_digits_value_prefix(s: Seq<u8>, k: int)
    requires
        all_digits(s),
        0 <= k <= s.len(),
    ensures
        digits_value(s.take(k)) <= digits_value(s),
    decreases s.len() - k,
{
    if k < s.len() {
        let t = s.drop_last();
        assert(all_digits(t)) by {
            assert forall|i: int| 0 <= i < t.len() implies is_digit(#[trigger] t[i]) by {
                assert(t[i] == s[i]);
            }
        }
        lemma_digits_value_prefix(t, k);
        assert(t.take(k) =~= s.take(k));
    } else {
        assert(s.take(k) =~= s);
    }
}

/// The digits of `n` are digits, spell `n`, and there is at least one.
pub proof fn lemma_nat_text(n: nat)
    ensures
        nat_text(n).len() >= 1,
        all_digits(nat_text(n)),
        digits_value(nat_text(n)) == n,
    decreases n,
{
    if n >= 10 {
        lemma_nat_text(n / 10);
        let t = nat_text(n);
        assert(t.drop_last() =~= nat_text(n / 10));
        assert(t.last() == ((n % 10) + 48) as u8);
        assert((t.last() - 48) as nat == n % 10);
        assert((n / 10) * 10 + n % 10 == n);
        assert forall|i: int| 0 <= i < t.len() implies is_digit(#[trigger] t[i]) by {
            if i < t.len() - 1 {
                assert(t[i] == nat_text(n / 10)[i]);
            }
        }
    } else {
        assert(seq![(n + 48) as u8].drop_last() =~= Seq::<u8>::empty());
        assert(digits_value(Seq::<u8>::empty()) == 0);
    }
}

pub open spec fn pow10(k: nat) -> nat
    decreases k,
{
    if k == 0 {
        1
    } else {
        10 * pow10((k - 1) as nat)
    }
}

/// A number below `10^k` takes at most `k` digits (and always one).
pub proof fn lemma_nat_text_len(n: nat, k: nat)
    requires
        n < pow10(k),
        k >= 1,
    ensures
        nat_text(n).len() <= k,
    decreases n,
{
    if n >= 10 {
        assert(k >= 2) by {
            if k == 1 {
                assert(pow10(1) == 10 * pow10(0));
            }
        }
        assert(pow10(k) == 10 * pow10((k - 1) as nat));
        lemma_nat_text_len(n / 10, (k - 1) as nat);
    }
}

/// The text of an `i64` is at most 20 bytes.
pub proof fn lemma_int_text_len(n: i64)
    ensures
        int_text(n as int).len() <= 20,
{
    reveal_with_fuel(pow10, 20);
    assert(pow10(19) == 10_000_000_000_000_000_000nat);
    if n < 0 {
        lemma_nat_text_len((-n) as nat, 19);
    } else {
        lemma_nat_text_len(n as nat, 19);
    }
}

/// Reading back what `to_string` wrote for an `i64` gives the same number.
pub proof fn lemma_parse_int_text(n: i64)
    ensures
        parse_i64_spec(int_text(n as int)) == Some(n),
{
    if n < 0 {
        let m = (-n) as nat;
        lemma_nat_text(m);
        let t = int_text(n as int);
        assert(t.drop_first() =~= nat_text(m));
    } else {
        lemma_nat_text(n as nat);
    }
}

/// Reading back what `to_string` wrote for a `u64` gives the same number.
pub proof fn lemma_parse_nat_text(n: u64)
    ensures
        parse_u64_spec(nat_text(n as nat)) == Some(n),
        parse_i64_spec(nat_text(n as nat)) == (if n <= i64::MAX {
            Some(n as i64)
        } else {
            None::<i64>
        }),
{
    lemma_nat_text(n as nat);
}

/// Appends the decimal digits of `n`.
pub fn push_u64_text(out: &mut Vec<u8>, n: u64)
    ensures
        final(out)@ == old(out)@ + nat_text(n as nat),
    decreases n,
{
    if n >= 10 {
        push_u64_text(out, n / 10);
    }
    out.push(((n % 10) as u8) + 48);
    proof {
        if n >= 10 {
            assert(nat_text(n as nat) == nat_text((n / 10) as nat).push(((n % 10) + 48) as u8));
        }
        assert(final(out)@ =~= old(out)@ + nat_text(n as nat));
    }
}

/// Appends the decimal text of `n`, with a leading '-' when negative.
pub fn push_i64_text(out: &mut Vec<u8>, n: i64)
    ensures
        final(out)@ == old(out)@ + int_text(n as int),
{
    if n < 0 {
        out.push(MINUS);
        let m: u64 = (0i128 - n as i128) as u64;
        push_u64_text(out, m);
        assert(final(out)@ =~= old(out)@ + int_text(n as int));
    } else {
        push_u64_text(out, n as u64);
    }
}

/// The digits of `s[start..]` as a number, when they are all digits and
/// the number is at most `limit`.
fn parse_magnitude(s: &[u8], start: usize, limit: u128) -> (r: Option<u128>)
    requires
        start <= s.len(),
        limit <= u64::MAX,
    ensures
        r == (if all_digits(s@.subrange(start as int, s.len() as int)) && digits_value(
            s@.subrange(start as int, s.len() as int),
        ) <= limit {
            Some(digits_value(s@.subrange(start as int, s.len() as int)) as u128)
        } else {
            None
        }),
{
    let n = s.len();
    let ghost whole = s@.subrange(start as int, n as int);
    let mut acc: u128 = 0;
    let mut i: usize = start;
    while i < n
        invariant
            start <= i <= n,
            n == s.len(),
            limit <= u64::MAX,
            whole == s@.subrange(start as int, n as int),
            all_digits(s@.subrange(start as int, i as int)),
            acc == digits_value(s@.subrange(start as int, i as int)),
            acc <= limit,
        decreases n - i,
    {
        let b = s[i];
        if b < 48 || b > 57 {
            assert(whole[i - start] == b);
            return None;
        }
        proof {
            lemma_digits_value_step(s@, start as int, i as int);
            assert forall|j: int|
                0 <= j < s@.subrange(start as int, i + 1).len() implies is_digit(
                #[trigger] s@.subrange(start as int, i + 1)[j],
            ) by {
                if j < i - start {
                    assert(s@.subrange(start as int, i + 1)[j] == s@.subrange(
                        start as int,
                        i as int,
                    )[j]);
                }
            }
        }
        acc = acc * 10 + (b - 48) as u128;
        if acc > limit {
            proof {
                if all_digits(whole) {
                    lemma_digits_value_prefix(whole, (i + 1 - start) as int);
                    assert(whole.take((i + 1 - start) as int) =~= s@.subrange(
                        start as int,
                        i + 1,
                    ));
                }
            }
            return None;
        }
        i += 1;
    }
    Some(acc)
}

/// `str::parse::<i64>` on raw bytes (invalid UTF-8 is never a number).
pub fn parse_i64_bytes(s: &[u8]) -> (r: Option<i64>)
    ensures
        r == parse_i64_spec(s@),
{
    let n = s.len();
    if n == 0 {
        return None;
    }
    let neg = s[0] == MINUS;
    let start: usize = if s[0] == PLUS || neg {
        1
    } else {
        0
    };
    if start == n {
        return None;
    }
    let limit: u128 = if neg {
        9223372036854775808
    } else {
        9223372036854775807
    };
    proof {
        if start == 1 {
            assert(s@.drop_first() =~= s@.subrange(1, n as int));
        } else {
            assert(s@ =~= s@.subrange(0, n as int));
        }
    }
    match parse_magnitude(s, start, limit) {
        None => None,
        Some(m) => {
            if neg {
                Some((0i128 - m as i128) as i64)
            } else {
                Some(m as i64)
            }
        },
    }
}

/// `str::parse::<u64>` on raw bytes.
pub fn parse_u64_bytes(s: &[u8]) -> (r: Option<u64>)
    ensures
        r == parse_u64_spec(s@),
{
    let n = s.len();
    if n == 0 {
        return None;
    }
    let start: usize = if s[0] == PLUS {
        1
    } else {
        0
    };
    if start == n {
        return None;
    }
    proof {
        if start == 1 {
            assert(s@.drop_first() =~= s@.subrange(1, n as int));
        } else {
            assert(s@ =~= s@.subrange(0, n as int));
        }
    }
    match parse_magnitude(s, start, 18446744073709551615) {
        None => None,
        Some(m) => Some(m as u64),
    }
}

} // verus!
