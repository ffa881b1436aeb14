//! Verified text handling on raw input bytes: trimming line endings,
//! recognising the quit sentinel, and parsing and printing decimal
//! integers.

use vstd::prelude::*;

verus! {

pub open spec fn is_newline_byte(b: u8) -> bool {
    b == 10 || b == 13
}

pub open spec fn is_digit_byte(b: u8) -> bool {
    48 <= b <= 57
}

/// The input with every trailing line-ending byte removed.
pub open spec fn trim_newlines_spec(s: Seq<u8>) -> Seq<u8>
    decreases s.len(),
{
    if s.len() > 0 && is_newline_byte(s.last())  {
        trim_newlines_spec(s.drop_last())
    } else {
        s
    }
}

/// Removes trailing carriage-return and line-feed bytes in place.
pub fn trim_newlines(s: &mut Vec<u8>)
    ensures
        final(s)@ == trim_newlines_spec(old(s)@),
{
    let mut k: usize = s.len();
    proof {
        assert(s@.subrange(0, k as int) =~= s@);
    }
    while k > 0 && (s[k - 1] == 10 || s[k - 1] == 13)
        invariant
            k <= s@.len(),
            trim_newlines_spec(s@) == trim_newlines_spec(s@.subrange(0, k as int)),
        decreases k,
    {
        proof {
            assert(s@.subrange(0, k as int).drop_last() =~= s@.subrange(0, k - 1 as int));
        }
        k = k - 1;
    }
    proof {
        if k > 0 {
            assert(trim_newlines_spec(s@.subrange(0, k as int)) == s@.subrange(0, k as int));
        } else {
            assert(s@.subrange(0, 0) =~= Seq::<u8>::empty());
            assert(trim_newlines_spec(s@.subrange(0, 0)) =~= s@.subrange(0, 0));
        }
    }
    s.truncate(k);
}

/// The two quit sentinels: "q" and "quit".
pub open spec fn is_quit_spec(s: Seq<u8>) -> bool {
    s == seq![113u8] || s == seq![113u8, 117u8, 105u8, 116u8]
}

/// Recognises the quit sentinels "q" and "quit".
pub fn is_quit(s: &Vec<u8>) -> (r: bool)
    ensures
        r == is_quit_spec(s@),
{
    if s.len() == 1 {
        let r = s[0] == 113;
        proof {
            if r {
                assert(s@ =~= seq![113u8]);
            }
        }
        r
    } else if s.len() == 4 {
        let r = s[0] == 113 && s[1] == 117 && s[2] == 105 && s[3] == 116;
        proof {
            if r {
                assert(s@ =~= seq![113u8, 117u8, 105u8, 116u8]);
            }
        }
        r
    } else {
        false
    }
}

/// Every byte of a non-empty run is a decimal digit.
pub open spec fn all_digits(s: Seq<u8>) -> bool {
    s.len() > 0 && forall|i: int| 0 <= i < s.len() ==> is_digit_byte(#[trigger] s[i])
}

/// The value of a run of decimal digits, most significant first.
pub open spec fn digits_value(s: Seq<u8>) -> int
    decreases s.len(),
{
    if s.len() == 0 {
        0
    } else {
        digits_value(s.drop_last()) * 10 + (s.last() - 48)
    }
}

pub proof fn lemma_digits_value_push(t: Seq<u8>, b: u8)
    ensures
        digits_value(t.push(b)) == digits_value(t) * 10 + (b - 48),
{
    assert(t.push(b).drop_last() =~= t);
    assert(t.push(b).last() == b);
}

/// The mathematical value a numeral denotes: an optional sign followed by
/// one or more decimal digits. The value is unbounded.
pub open spec fn numeral_value(s: Seq<u8>) -> Option<int> {
    if s.len() >= 1 && (s[0] == 43 || s[0] == 45) {
        let digits = s.subrange(1, s.len() as int);
        if all_digits(digits) {
            if s[0] == 45 {
                Option::Some(-digits_value(digits))
            } else {
                Option::Some(digits_value(digits))
            }
        } else {
            Option::None
        }
    } else if all_digits(s) {
        Option::Some(digits_value(s))
    } else {
        Option::None
    }
}

/// What machine parsing yields: the numeral's value when it fits a 64-bit
/// signed integer, nothing on malformed text or overflow.
pub open spec fn parse_i64_spec(s: Seq<u8>) -> Option<i64> {
    match numeral_value(s) {
        Option::Some(v) => if i64::MIN <= v <= i64::MAX {
            Option::Some(v as i64)
        } else {
            Option::None
        },
        Option::None => Option::None,
    }
}

/// Parses a signed decimal integer, rejecting malformed text and values
/// out of the 64-bit range.
pub fn parse_i64(s: &Vec<u8>) -> (r: Option<i64>)
    ensures
        r == parse_i64_spec(s@),
{
    let n = s.len();
    let mut start: usize = 0;
    let mut neg = false;
    if n >= 1 && (s[0] == 43 || s[0] == 45) {
        start = 1;
        neg = s[0] == 45;
    }
    if n == start {
        proof {
            if start == 1 {
                assert(s@.subrange(1, n as int).len() == 0);
            }
        }
        return Option::None;
    }
    let ghost digits: Seq<u8> = s@.subrange(start as int, n as int);
    let mut acc: u128 = 0;
    let mut over = false;
    let mut i = start;
    while i < n
        invariant
            start <= i <= n == s@.len(),
            start <= 1,
            start == 1 <==> s@.len() >= 1 && (s@[0] == 43 || s@[0] == 45),
            digits == s@.subrange(start as int, n as int),
            n > start,
            forall|j: int| start <= j < i ==> is_digit_byte(#[trigger] s@[j]),
            !over ==> acc == digits_value(s@.subrange(start as int, i as int)) && acc
                <= 9_223_372_036_854_775_808u128,
            over ==> digits_value(s@.subrange(start as int, i as int))
                > 9_223_372_036_854_775_808int,
        decreases n - i,
    {
        let c = s[i];
        if c < 48 || c > 57 {
            proof {
                assert(digits[i - start] == s@[i as int]);
                assert(!all_digits(digits));
                assert(s@.subrange(0, n as int) =~= s@);
            }
            return Option::None;
        }
        proof {
            assert(s@.subrange(start as int, (i + 1) as int) =~= s@.subrange(
                start as int,
                i as int,
            ).push(s@[i as int]));
            lemma_digits_value_push(s@.subrange(start as int, i as int), s@[i as int]);
        }
        if over {
        } else {
            acc = acc * 10 + ((c - 48) as u128);
            if acc > 9_223_372_036_854_775_808 {
                over = true;
            }
        }
        i = i + 1;
    }
    proof {
        assert(s@.subrange(start as int, n as int) == digits);
        assert(all_digits(digits));
        assert(s@.subrange(0, n as int) =~= s@);
        if start == 0 {
            assert(numeral_value(s@) == Option::Some(digits_value(digits)));
        }
    }
    if over {
        return Option::None;
    }
    if neg {
        if acc == 9_223_372_036_854_775_808 {
            Option::Some(i64::MIN)
        } else {
            Option::Some(-(acc as i64))
        }
    } else {
        if acc == 9_223_372_036_854_775_808 {
            Option::None
        } else {
            Option::Some(acc as i64)
        }
    }
}

/// The decimal representation of an unsigned value, most significant
/// digit first.
pub open spec fn dec_digits(n: nat) -> Seq<u8>
    decreases n,
{
    if n < 10 {
        seq![(48 + n) as u8]
    } else {
        dec_digits(n / 10).push((48 + n % 10) as u8)
    }
}

/// The decimal representation parses back to the value it was printed
/// from.
pub proof fn lemma_dec_digits_value(n: nat)
    ensures
        all_digits(dec_digits(n)),
        digits_value(dec_digits(n)) == n,
    decreases n,
{
    if n < 10 {
        assert(dec_digits(n)[0] == (48 + n) as u8);
        assert(dec_digits(n).drop_last() =~= Seq::<u8>::empty());
        assert(digits_value(Seq::<u8>::empty()) == 0);
        assert(dec_digits(n).last() == (48 + n) as u8);
    } else {
        lemma_dec_digits_value(n / 10);
        lemma_digits_value_push(dec_digits(n / 10), (48 + n % 10) as u8);
        vstd::arithmetic::div_mod::lemma_fundamental_div_mod(n as int, 10);
        vstd::arithmetic::div_mod::lemma_mod_division_less_than_divisor(n as int, 10);
        assert(((48 + n % 10) as u8) == 48 + n % 10);
        assert(dec_digits(n) == dec_digits(n / 10).push((48 + n % 10) as u8));
        assert(digits_value(dec_digits(n)) == (n / 10) * 10 + (n % 10));
        assert((n / 10) * 10 + (n % 10) == n);
        assert forall|i: int| 0 <= i < dec_digits(n).len() implies is_digit_byte(
            #[trigger] dec_digits(n)[i],
        ) by {
            if i < dec_digits(n).len() - 1 {
                assert(dec_digits(n)[i] == dec_digits((n / 10) as nat)[i]);
            }
        }
    }
}

/// Prints an unsigned value in decimal.
pub fn fmt_u64(n: u64) -> (r: Vec<u8>)
    ensures
        r@ == dec_digits(n as nat),
    decreases n,
{
    if n < 10 {
        let mut v: Vec<u8> = Vec::new();
        v.push(48 + n as u8);
        proof {
            assert(v@ =~= dec_digits(n as nat));
        }
        v
    } else {
        let mut v = fmt_u64(n / 10);
        v.push(48 + (n % 10) as u8);
        v
    }
}

} // verus!
