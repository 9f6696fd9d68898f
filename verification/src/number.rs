use vstd::prelude::*;

verus! {

/// Whether `b` is an ASCII decimal digit.
pub open spec fn is_digit(b: u8) -> bool {
    48 <= b <= 57
}

/// Decimal text of `n`, most significant digit first, no leading zeros.
pub open spec fn decimal(n: nat) -> Seq<u8>
    decreases n,
{
    if n < 10 {
        seq![(n + 48) as u8]
    } else {
        decimal(n / 10).push(((n % 10) + 48) as u8)
    }
}

fn push_decimal(n: u64, out: &mut Vec<u8>)
    ensures
        final(out)@ == old(out)@ + decimal(n as nat),
    decreases n,
{
    if n >= 10 {
        push_decimal(n / 10, out);
    }
    out.push((n % 10) as u8 + 48u8);
    assert(out@ =~= old(out)@ + decimal(n as nat));
}

/// Decimal text of `n`.
pub fn format_decimal(n: u64) -> (out: Vec<u8>)
    ensures
        out@ == decimal(n as nat),
{
    let mut out: Vec<u8> = Vec::new();
    push_decimal(n, &mut out);
    proof {
        assert(out@ =~= decimal(n as nat));
    }
    out
}


/// Value of a run of decimal digits (most significant first).
pub open spec fn digits_value(s: Seq<u8>) -> int
    decreases s.len(),
{
    if s.len() == 0 {
        0
    } else {
        digits_value(s.drop_last()) * 10 + (s.last() - 48)
    }
}

/// Whether every byte of `s` is an ASCII decimal digit.
pub open spec fn all_digits(s: Seq<u8>) -> bool {
    forall|i: int| 0 <= i < s.len() ==> #[trigger] is_digit(s[i])
}

/// Whether `s` begins with a `+` or `-` sign.
pub open spec fn has_sign(s: Seq<u8>) -> bool {
    s.len() > 0 && (s[0] == 43 || s[0] == 45)
}

/// The digits of `s` after an optional sign.
pub open spec fn unsigned_part(s: Seq<u8>) -> Seq<u8> {
    if has_sign(s) {
        s.skip(1)
    } else {
        s
    }
}

/// The integer that `s` denotes: an optional `+` or `-`, then one or more digits.
pub open spec fn signed_value(s: Seq<u8>) -> int {
    if s.len() > 0 && s[0] == 45 {
        -digits_value(unsigned_part(s))
    } else {
        digits_value(unsigned_part(s))
    }
}

/// What reading `s` as an `i64` gives, as `str::parse::<i64>` does: `None` unless `s` is
/// an optional sign followed by at least one digit, and the value fits in an `i64`.
pub open spec fn parse_i64_spec(s: Seq<u8>) -> Option<i64> {
    let d = unsigned_part(s);
    if d.len() > 0 && all_digits(d) && i64::MIN <= signed_value(s) <= i64::MAX {
        Some(signed_value(s) as i64)
    } else {
        None
    }
}

proof fn lemma_digits_value_step(s: Seq<u8>, k: int)
    requires
        0 <= k < s.len(),
    ensures
        digits_value(s.take(k + 1)) == digits_value(s.take(k)) * 10 + (s[k] - 48),
{
    assert(s.take(k + 1).drop_last() =~= s.take(k));
}

proof fn lemma_digits_value_nonneg(s: Seq<u8>)
    requires
        all_digits(s),
    ensures
        digits_value(s) >= 0,
    decreases s.len(),
{
    if s.len() > 0 {
        assert(is_digit(s[s.len() - 1]));
        assert(all_digits(s.drop_last())) by {
            assert forall|i: int| 0 <= i < s.drop_last().len() implies #[trigger] is_digit(
                s.drop_last()[i],
            ) by {
                assert(is_digit(s[i]));
            }
        }
        lemma_digits_value_nonneg(s.drop_last());
    }
}

proof fn lemma_digits_value_monotone(s: Seq<u8>, i: int, j: int)
    requires
        all_digits(s),
        0 <= i <= j <= s.len(),
    ensures
        digits_value(s.take(i)) <= digits_value(s.take(j)),
    decreases j - i,
{
    if i < j {
        lemma_digits_value_monotone(s, i, j - 1);
        lemma_digits_value_step(s, j - 1);
        assert(all_digits(s.take(j - 1))) by {
            assert forall|k: int| 0 <= k < s.take(j - 1).len() implies #[trigger] is_digit(
                s.take(j - 1)[k],
            ) by {
                assert(is_digit(s[k]));
            }
        }
        lemma_digits_value_nonneg(s.take(j - 1));
        assert(is_digit(s[j - 1]));
    }
}

/// Reads `s` as an `i64` the way `str::parse::<i64>` reads a string: an optional `+`
/// or `-`, then one or more ASCII digits, nothing else, and a value in range.
pub fn parse_i64(s: &[u8]) -> (r: Option<i64>)
    ensures
        r == parse_i64_spec(s@),
{
    let len = s.len();
    let negative = len > 0 && s[0] == 45u8;
    let start: usize = if len > 0 && (s[0] == 43u8 || s[0] == 45u8) {
        1
    } else {
        0
    };
    let ghost d = unsigned_part(s@);
    assert(d =~= s@.skip(start as int));
    if start == len {
        return None;
    }
    let bound: u128 = 0x8000_0000_0000_0000;
    let mut acc: u128 = 0;
    let mut i: usize = start;
    while i < len
        invariant
            start <= i <= len,
            len == s@.len(),
            d =~= s@.skip(start as int),
            d == unsigned_part(s@),
            bound == 0x8000_0000_0000_0000u128,
            acc <= bound,
            acc == digits_value(d.take(i - start)),
            forall|k: int| 0 <= k < i - start ==> #[trigger] is_digit(d[k]),
        decreases len - i,
    {
        let b = s[i];
        if b < 48u8 || b > 57u8 {
            assert(d[i - start] == b);
            assert(!is_digit(d[i - start]));
            assert(!all_digits(d));
            return None;
        }
        proof {
            lemma_digits_value_step(d, i - start);
        }
        assert(acc * 10 <= bound * 10) by (nonlinear_arith)
            requires
                acc <= bound,
        ;
        assert(d[i - start] == b);
        acc = acc * 10 + (b - 48u8) as u128;
        i = i + 1;
        if acc > bound {
            proof {
                if all_digits(d) {
                    lemma_digits_value_monotone(d, i - start, d.len() as int);
                    assert(d.take(d.len() as int) =~= d);
                }
            }
            return None;
        }
    }
    assert(d.take(i - start) =~= d);
    assert(all_digits(d));
    if negative {
        let v: i128 = -(acc as i128);
        Some(v as i64)
    } else if acc < bound {
        Some(acc as i64)
    } else {
        None
    }
}


proof fn lemma_decimal_digits(n: nat)
    ensures
        decimal(n).len() > 0,
        all_digits(decimal(n)),
        digits_value(decimal(n)) == n,
    decreases n,
{
    if n >= 10 {
        lemma_decimal_digits(n / 10);
        let prev = decimal(n / 10);
        assert(decimal(n).drop_last() =~= prev);
        assert forall|i: int| 0 <= i < decimal(n).len() implies #[trigger] is_digit(
            decimal(n)[i],
        ) by {
            if i < prev.len() {
                assert(is_digit(prev[i]));
            }
        }
        assert((n / 10) * 10 + n % 10 == n && 0 <= n % 10 < 10) by (nonlinear_arith);
        assert(decimal(n).last() == ((n % 10) + 48) as u8);
        assert(digits_value(decimal(n)) == digits_value(prev) * 10 + (decimal(n).last() - 48));
        assert(digits_value(decimal(n)) == n);
    } else {
        assert(decimal(n).drop_last() =~= Seq::<u8>::empty());
        assert(decimal(n).last() == (n + 48) as u8);
        assert(digits_value(Seq::<u8>::empty()) == 0);
        assert(digits_value(decimal(n)) == n);
    }
}

/// The decimal text of a non-negative `i64` reads back as the same number.
pub proof fn lemma_decimal_parse_roundtrip(n: i64)
    requires
        n >= 0,
    ensures
        parse_i64_spec(decimal(n as nat)) == Some(n),
{
    lemma_decimal_digits(n as nat);
    let s = decimal(n as nat);
    assert(is_digit(s[0]));
    assert(unsigned_part(s) == s);
}


/// A `+` before the decimal text of a number changes nothing, and a `-` negates it.
pub proof fn law_signs(n: i64)
    requires
        n >= 0,
    ensures
        parse_i64_spec(seq!['+' as u8] + decimal(n as nat)) == Some(n),
        parse_i64_spec(seq!['-' as u8] + decimal(n as nat)) == Some(-n as i64),
{
    lemma_decimal_digits(n as nat);
    let d = decimal(n as nat);
    assert((seq!['+' as u8] + d).skip(1) =~= d);
    assert((seq!['-' as u8] + d).skip(1) =~= d);
}

/// A text that holds a byte which is no digit, other than a leading sign, reads as
/// nothing; so does an empty text or a lone sign.
pub proof fn law_non_digits_are_refused(s: Seq<u8>, k: int)
    requires
        0 <= k < s.len(),
        !is_digit(s[k]),
        k > 0 || !(s[0] == '+' as u8 || s[0] == '-' as u8),
    ensures
        parse_i64_spec(s) is None,
        parse_i64_spec(Seq::<u8>::empty()) is None,
        parse_i64_spec(seq!['+' as u8]) is None,
        parse_i64_spec(seq!['-' as u8]) is None,
{
    let d = unsigned_part(s);
    if has_sign(s) {
        assert(d[k - 1] == s[k]);
    } else {
        assert(d[k] == s[k]);
    }
    assert(seq!['+' as u8].skip(1).len() == 0);
    assert(seq!['-' as u8].skip(1).len() == 0);
}

} // verus!
