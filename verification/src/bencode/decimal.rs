//! Decimal numerals in ASCII, as bencode writes lengths and integers.

use vstd::prelude::*;

verus! {

/// The ASCII digit `0`.
pub const DIGIT_ZERO: u8 = 48;

/// The byte is one of the ASCII digits `0` to `9`.
pub open spec fn is_digit(b: u8) -> bool {
    48 <= b <= 57
}

/// Every byte of `s` is an ASCII digit.
pub open spec fn all_digits(s: Seq<u8>) -> bool {
    forall|i: int| 0 <= i < s.len() ==> is_digit(#[trigger] s[i])
}

/// The number that the digits of `s` denote, most significant digit first.
pub open spec fn dec_value(s: Seq<u8>) -> nat
    decreases s.len(),
{
    if s.len() == 0 {
        0
    } else {
        dec_value(s.drop_last()) * 10 + (s.last() - 48) as nat
    }
}

/// The numeral of `n` without leading zeros.
pub open spec fn dec_digits(n: nat) -> Seq<u8>
    decreases n,
{
    if n < 10 {
        seq![(n + 48) as u8]
    } else {
        dec_digits(n / 10).push((n % 10 + 48) as u8)
    }
}

/// The number of digits that `s` starts with.
pub open spec fn leading_digits(s: Seq<u8>) -> nat
    decreases s.len(),
{
    if s.len() > 0 && is_digit(s[0]) {
        1 + leading_digits(s.drop_first())
    } else {
        0
    }
}

/// A numeral in the one form the encoder writes: at least one digit, and no
/// leading zero unless it is `0` itself.
pub open spec fn is_canonical_numeral(s: Seq<u8>) -> bool {
    &&& s.len() >= 1
    &&& all_digits(s)
    &&& (s.len() == 1 || s[0] != DIGIT_ZERO)
}

/// `leading_digits` is the length of the longest prefix made of digits.
pub proof fn lemma_leading_digits(s: Seq<u8>)
    ensures
        leading_digits(s) <= s.len(),
        all_digits(s.subrange(0, leading_digits(s) as int)),
        leading_digits(s) == s.len() || !is_digit(s[leading_digits(s) as int]),
    decreases s.len(),
{
    if s.len() > 0 && is_digit(s[0]) {
        let t = s.drop_first();
        lemma_leading_digits(t);
        let k = leading_digits(t) as int;
        assert forall|i: int| 0 <= i < k + 1 implies is_digit(
            #[trigger] s.subrange(0, k + 1)[i],
        ) by {
            if i > 0 {
                assert(s.subrange(0, k + 1)[i] == t.subrange(0, k)[i - 1]);
            }
        }
        if k < t.len() {
            assert(s[k + 1] == t[k]);
        }
    }
}

/// Any index that ends a run of digits from the start is `leading_digits`.
pub proof fn lemma_leading_digits_is(s: Seq<u8>, k: int)
    requires
        0 <= k <= s.len(),
        forall|i: int| 0 <= i < k ==> is_digit(#[trigger] s[i]),
        k == s.len() || !is_digit(s[k]),
    ensures
        leading_digits(s) == k,
    decreases k,
{
    if k > 0 {
        let t = s.drop_first();
        assert(is_digit(s[0]));
        assert forall|i: int| 0 <= i < k - 1 implies is_digit(#[trigger] t[i]) by {
            assert(t[i] == s[i + 1]);
        }
        lemma_leading_digits_is(t, k - 1);
    }
}

/// The numeral of a number is canonical.
pub proof fn lemma_dec_digits_canonical(n: nat)
    ensures
        is_canonical_numeral(dec_digits(n)),
        (dec_digits(n).len() == 1 && dec_digits(n)[0] == 48) <==> n == 0,
    decreases n,
{
    if n >= 10 {
        lemma_dec_digits_canonical(n / 10);
    }
}

/// Reading the numeral of a number gives the number back.
pub proof fn lemma_dec_value_of_digits(n: nat)
    ensures
        dec_value(dec_digits(n)) == n,
    decreases n,
{
    if n < 10 {
        let d = dec_digits(n);
        assert(d.drop_last() =~= Seq::<u8>::empty());
        assert(dec_value(d.drop_last()) == 0);
    } else {
        lemma_dec_value_of_digits(n / 10);
        let d = dec_digits(n);
        assert(d.drop_last() =~= dec_digits(n / 10));
    }
}

/// A canonical numeral is the numeral of its value.
pub proof fn lemma_dec_digits_of_value(s: Seq<u8>)
    requires
        is_canonical_numeral(s),
    ensures
        dec_digits(dec_value(s)) == s,
    decreases s.len(),
{
    let d = (s.last() - 48) as nat;
    if s.len() == 1 {
        assert(s.drop_last() =~= Seq::<u8>::empty());
        assert(dec_value(s.drop_last()) == 0);
        assert(dec_digits(d) =~= s);
    } else {
        let p = s.drop_last();
        assert(is_digit(s[s.len() - 1]));
        assert forall|i: int| 0 <= i < p.len() implies is_digit(#[trigger] p[i]) by {
            assert(p[i] == s[i]);
        }
        assert(p[0] == s[0]);
        lemma_dec_value_positive(p);
        if p.len() == 1 {
            assert(p.drop_last() =~= Seq::<u8>::empty());
            assert(dec_value(p.drop_last()) == 0);
        }
        lemma_dec_digits_of_value(p);
        let v = dec_value(p);
        assert(v >= 1);
        assert((v * 10 + d) / 10 == v);
        assert((v * 10 + d) % 10 == d);
        assert(dec_digits(v * 10 + d) =~= p.push(s.last()));
        assert(p.push(s.last()) =~= s);
    }
}

/// A run of digits that does not start with `0` denotes a positive number.
pub proof fn lemma_dec_value_positive(s: Seq<u8>)
    requires
        s.len() >= 1,
        all_digits(s),
        s[0] != 48,
    ensures
        dec_value(s) >= 1,
    decreases s.len(),
{
    if s.len() == 1 {
        assert(is_digit(s[0]));
        assert(s.drop_last() =~= Seq::<u8>::empty());
        assert(dec_value(s.drop_last()) == 0);
    } else {
        let p = s.drop_last();
        assert forall|i: int| 0 <= i < p.len() implies is_digit(#[trigger] p[i]) by {
            assert(p[i] == s[i]);
        }
        assert(p[0] == s[0]);
        lemma_dec_value_positive(p);
    }
}

/// Reading one digit more multiplies by ten and adds the digit.
pub proof fn lemma_dec_value_step(s: Seq<u8>, k: int)
    requires
        0 <= k < s.len(),
    ensures
        dec_value(s.subrange(0, k + 1)) == dec_value(s.subrange(0, k)) * 10 + (s[k] - 48) as nat,
{
    assert(s.subrange(0, k + 1).drop_last() =~= s.subrange(0, k));
}

/// Appends the numeral of `n` to `out`.
pub fn push_decimal(out: &mut Vec<u8>, n: u64)
    ensures
        final(out)@ == old(out)@ + dec_digits(n as nat),
    decreases n,
{
    if n >= 10 {
        push_decimal(out, n / 10);
    }
    let d: u8 = (n % 10) as u8 + 48;
    out.push(d);
    proof {
        if n < 10 {
            assert(old(out)@.push(d) =~= old(out)@ + dec_digits(n as nat));
        } else {
            assert((old(out)@ + dec_digits((n / 10) as nat)).push(d) =~= old(out)@ + dec_digits(
                n as nat,
            ));
        }
    }
}

/// The outcome of reading a run of digits: where the run ends, and the number
/// it denotes unless that is above the limit given.
pub struct Numeral {
    pub end: usize,
    pub value: Option<u64>,
}

/// Reads the digits of `input` from `start` on. The value is given when it is at
/// most `limit`.
pub fn scan_decimal(input: &[u8], start: usize, limit: u64) -> (r: Numeral)
    requires
        start <= input@.len(),
    ensures
        r.end == start + leading_digits(input@.skip(start as int)),
        r.end <= input@.len(),
        r.value matches Some(v) ==> v == dec_value(input@.subrange(start as int, r.end as int))
            && v <= limit,
        r.value is None ==> dec_value(input@.subrange(start as int, r.end as int)) > limit,
{
    let ghost s = input@.skip(start as int);
    let mut end: usize = start;
    let mut value: u64 = 0;
    let mut fits: bool = true;
    while end < input.len() && input[end] >= 48 && input[end] <= 57
        invariant
            start <= end <= input@.len(),
            s == input@.skip(start as int),
            forall|i: int| 0 <= i < end - start ==> is_digit(#[trigger] s[i]),
            fits ==> value == dec_value(s.subrange(0, end - start)) && value <= limit,
            !fits ==> dec_value(s.subrange(0, end - start)) > limit,
        decreases input@.len() - end,
    {
        let d: u64 = (input[end] - 48) as u64;
        proof {
            lemma_dec_value_step(s, end - start);
        }
        if fits {
            if limit < d || value > (limit - d) / 10 {
                fits = false;
                proof {
                    assert(value * 10 + d > limit) by (nonlinear_arith)
                        requires
                            limit < d || value > (limit - d) / 10,
                            0 <= d,
                            0 <= value,
                            0 <= limit,
                    ;
                }
            } else {
                proof {
                    assert(value * 10 + d <= limit) by (nonlinear_arith)
                        requires
                            value <= (limit - d) / 10,
                            limit >= d,
                            0 <= d,
                            0 <= value,
                    ;
                }
                value = value * 10 + d;
            }
        }
        end += 1;
    }
    proof {
        lemma_leading_digits_is(s, end - start);
        assert(s.subrange(0, end - start) =~= input@.subrange(start as int, end as int));
    }
    Numeral { end, value: if fits { Some(value) } else { None } }
}

} // verus!
