//! Decimal text for integers, as the wire protocol and the metrics endpoint
//! write and read them.

use vstd::prelude::*;

verus! {

/// The ASCII digit of `d` (for `0 <= d < 10`).
pub open spec fn digit(d: nat) -> u8 {
    (48 + d) as u8
}

/// Whether `b` is an ASCII digit.
pub open spec fn is_digit(b: u8) -> bool {
    48 <= b <= 57
}

/// The shortest decimal text of `n`, without sign.
pub open spec fn decimal(n: nat) -> Seq<u8>
    decreases n,
{
    if n < 10 {
        seq![digit(n)]
    } else {
        decimal(n / 10).push(digit(n % 10))
    }
}

/// The decimal text of a signed value: a `-` before negative values.
pub open spec fn signed_decimal(n: int) -> Seq<u8> {
    if n < 0 {
        seq![45u8] + decimal((-n) as nat)
    } else {
        decimal(n as nat)
    }
}

/// Whether every byte of `s` is a digit.
pub open spec fn all_digits(s: Seq<u8>) -> bool {
    forall|i: int| 0 <= i < s.len() ==> is_digit(#[trigger] s[i])
}

/// The value of a string of digits.
pub open spec fn digits_value(s: Seq<u8>) -> nat
    decreases s.len(),
{
    if s.len() == 0 {
        0
    } else {
        digits_value(s.drop_last()) * 10 + (s.last() - 48) as nat
    }
}

/// How `i64::from_str` reads `s`: an optional `+` or `-`, then at least one
/// digit, and a value within `i64`.
pub open spec fn parse_i64_text(s: Seq<u8>) -> Option<i64> {
    let negative = s.len() > 0 && s[0] == 45;
    let signed = s.len() > 0 && (s[0] == 45 || s[0] == 43);
    let digits = if signed {
        s.drop_first()
    } else {
        s
    };
    if digits.len() == 0 || !all_digits(digits) {
        None
    } else {
        let v: int = if negative {
            -digits_value(digits)
        } else {
            digits_value(digits) as int
        };
        if i64::MIN <= v <= i64::MAX {
            Some(v as i64)
        } else {
            None
        }
    }
}

/// The decimal text of `n` is a non-empty run of digits worth `n`.
pub proof fn lemma_decimal_digits(n: nat)
    ensures
        all_digits(decimal(n)),
        digits_value(decimal(n)) == n,
        decimal(n).len() >= 1,
        is_digit(decimal(n)[0]),
    decreases n,
{
    if n < 10 {
        let d = decimal(n);
        assert(d.drop_last() =~= Seq::<u8>::empty());
        assert(digits_value(d.drop_last()) == 0);
        assert(d.last() == digit(n));
        assert(digits_value(d) == digits_value(d.drop_last()) * 10 + (d.last() - 48) as nat);
    } else {
        lemma_decimal_digits(n / 10);
        let d = decimal(n);
        assert(d.drop_last() == decimal(n / 10));
        assert(d.last() == digit(n % 10));
        assert((n / 10) * 10 + n % 10 == n);
        assert(d.len() > 0);
        assert(digits_value(d) == digits_value(d.drop_last()) * 10 + (d.last() - 48) as nat);
        assert((d.last() - 48) as nat == n % 10);
        assert(digits_value(d.drop_last()) == n / 10);
        assert forall|i: int| 0 <= i < d.len() implies is_digit(#[trigger] d[i]) by {
            if i < d.len() - 1 {
                assert(d[i] == decimal(n / 10)[i]);
            }
        }
    }
}

/// Reading the decimal text of a value gives the value back.
pub proof fn lemma_signed_decimal_roundtrip(n: i64)
    ensures
        parse_i64_text(signed_decimal(n as int)) == Some(n),
        all_digits(signed_decimal(n as int)) || signed_decimal(n as int)[0] == 45,
        signed_decimal(n as int).len() >= 1,
{
    if n < 0 {
        let m = (-(n as int)) as nat;
        lemma_decimal_digits(m);
        let s = signed_decimal(n as int);
        assert(s.drop_first() =~= decimal(m));
    } else {
        lemma_decimal_digits(n as nat);
    }
}

/// Digits never get smaller when more digits follow.
proof fn lemma_digits_value_prefix(s: Seq<u8>, i: int)
    requires
        0 <= i <= s.len(),
        all_digits(s),
    ensures
        digits_value(s.take(i)) <= digits_value(s),
    decreases s.len() - i,
{
    if i == s.len() {
        assert(s.take(i) =~= s);
    } else {
        lemma_digits_value_prefix(s, i + 1);
        let a = s.take(i + 1);
        assert(a.drop_last() =~= s.take(i));
        assert(is_digit(s[i]));
        assert(a.last() == s[i]);
        let p = digits_value(s.take(i));
        let x = (s[i] - 48) as nat;
        assert(p * 10 + x >= p) by (nonlinear_arith);
    }
}

/// Append the decimal text of `n` to `out`.
pub fn push_decimal(out: &mut Vec<u8>, n: u64)
    ensures
        final(out)@ == old(out)@ + decimal(n as nat),
    decreases n,
{
    if n >= 10 {
        push_decimal(out, n / 10);
    }
    out.push(48 + (n % 10) as u8);
    proof {
        if n >= 10 {
            assert(old(out)@ + decimal(n as nat) =~= (old(out)@ + decimal((n / 10) as nat)).push(digit((n % 10) as nat)));
        } else {
            assert(old(out)@ + decimal(n as nat) =~= old(out)@.push(digit(n as nat)));
        }
    }
}

/// Append the decimal text of a signed `n` to `out`.
pub fn push_signed_decimal(out: &mut Vec<u8>, n: i64)
    ensures
        final(out)@ == old(out)@ + signed_decimal(n as int),
{
    if n < 0 {
        out.push(45);
        let magnitude: u64 = if n == i64::MIN {
            9223372036854775808u64
        } else {
            (-n) as u64
        };
        let ghost mid = out@;
        push_decimal(out, magnitude);
        assert(old(out)@ + signed_decimal(n as int) =~= mid + decimal(magnitude as nat));
    } else {
        push_decimal(out, n as u64);
    }
}

/// The decimal text of `n`.
pub fn decimal_text(n: u64) -> (res: Vec<u8>)
    ensures
        res@ == decimal(n as nat),
{
    let mut out: Vec<u8> = Vec::new();
    push_decimal(&mut out, n);
    assert(out@ =~= decimal(n as nat));
    out
}

/// Read a signed integer the way `i64::from_str` does.
pub fn parse_i64(s: &[u8]) -> (res: Option<i64>)
    ensures
        res == parse_i64_text(s@),
{
    let len = s.len();
    let negative = len > 0 && s[0] == 45;
    let signed = len > 0 && (s[0] == 45 || s[0] == 43);
    let start: usize = if signed {
        1
    } else {
        0
    };
    let ghost digits = if signed {
        s@.drop_first()
    } else {
        s@
    };
    assert(digits =~= s@.subrange(start as int, len as int));
    if start >= len {
        return None;
    }
    // The magnitude read so far; reading stops once it exceeds 2^63.
    let limit: u64 = 9223372036854775808u64;
    let mut acc: u64 = 0;
    let mut i: usize = start;
    while i < len
        invariant
            start <= i <= len,
            len == s@.len(),
            negative == (len > 0 && s@[0] == 45),
            signed == (len > 0 && (s@[0] == 45 || s@[0] == 43)),
            digits == (if signed {
                s@.drop_first()
            } else {
                s@
            }),
            digits =~= s@.subrange(start as int, len as int),
            all_digits(digits.take(i - start)),
            acc == digits_value(digits.take(i - start)),
            acc <= limit,
            limit == 9223372036854775808u64,
        decreases len - i,
    {
        let b = s[i];
        if b < 48 || b > 57 {
            assert(!is_digit(digits[i - start]));
            assert(!all_digits(digits));
            return None;
        }
        proof {
            assert(digits.take(i - start + 1).drop_last() =~= digits.take(i - start));
        }
        let d = (b - 48) as u64;
        if acc > (limit - d) / 10 {
            // The value is already past the range of any i64.
            proof {
                let k = i - start + 1;
                assert(acc * 10 + d > limit) by (nonlinear_arith)
                    requires
                        acc > (limit - d) / 10,
                        d <= 9,
                        limit == 9223372036854775808u64,
                ;
                assert(digits_value(digits.take(k)) > limit);
                if all_digits(digits) {
                    lemma_digits_value_prefix(digits, k);
                    assert(digits.take(len - start) =~= digits);
                }
            }
            return None;
        }
        assert(acc * 10 + d <= limit) by (nonlinear_arith)
            requires
                acc <= (limit - d) / 10,
                d <= 9,
                limit == 9223372036854775808u64,
        ;
        acc = acc * 10 + d;
        i = i + 1;
    }
    assert(digits.take(len - start) =~= digits);
    if negative {
        let v: i64 = if acc == limit {
            i64::MIN
        } else {
            -(acc as i64)
        };
        Some(v)
    } else {
        if acc > 9223372036854775807u64 {
            None
        } else {
            Some(acc as i64)
        }
    }
}

/// Decimal text is ASCII.
pub proof fn lemma_signed_decimal_ascii(n: int)
    ensures
        crate::text::all_ascii(signed_decimal(n)),
{
    let m: nat = if n < 0 {
        (-n) as nat
    } else {
        n as nat
    };
    lemma_decimal_digits(m);
    let d = signed_decimal(n);
    assert forall|i: int| 0 <= i < d.len() implies #[trigger] d[i] < 128 by {
        if n < 0 && i > 0 {
            assert(d[i] == decimal(m)[i - 1]);
            assert(is_digit(decimal(m)[i - 1]));
        } else if n >= 0 {
            assert(is_digit(decimal(m)[i]));
        }
    }
}

/// Append the decimal text of a signed number to a string.
pub fn append_signed_decimal(out: &mut String, n: i64)
    ensures
        final(out)@ == old(out)@ + crate::text::ascii_chars(signed_decimal(n as int)),
{
    let mut digits: Vec<u8> = Vec::new();
    push_signed_decimal(&mut digits, n);
    proof {
        assert(digits@ =~= signed_decimal(n as int));
        lemma_signed_decimal_ascii(n as int);
    }
    crate::text::append_ascii(out, digits);
}

/// Append the decimal text of an unsigned number to a string.
pub fn append_decimal(out: &mut String, n: u64)
    ensures
        final(out)@ == old(out)@ + crate::text::ascii_chars(decimal(n as nat)),
{
    let digits = decimal_text(n);
    proof {
        lemma_signed_decimal_ascii(n as int);
    }
    crate::text::append_ascii(out, digits);
}

} // verus!
