//! The mathematical model of decimal text: the digit sequence of a number,
//! its zero-padded low digits, the signed text, and the facts about them
//! that the writers and the public laws rest on.
#![allow(unused_imports)]
use vstd::prelude::*;
use vstd::arithmetic::div_mod::*;

verus! {

/// 10 to the power `k`.
pub open spec fn pow10(k: nat) -> nat
    decreases k,
{
    if k == 0 {
        1
    } else {
        10 * pow10((k - 1) as nat)
    }
}

/// The ASCII byte of the decimal digit `d` (meaningful for `d < 10`).
pub open spec fn digit_byte(d: nat) -> u8 {
    (48 + d) as u8
}

/// The decimal digits of `n` as ASCII bytes, most significant first, with
/// no leading zeros; zero itself is the single byte `'0'`.
pub open spec fn dec_digits(n: nat) -> Seq<u8>
    decreases n,
{
    if n < 10 {
        seq![digit_byte(n)]
    } else {
        dec_digits(n / 10).push(digit_byte(n % 10))
    }
}

/// The decimal text of `v`: a leading `'-'` for negative values, then the
/// digits of the magnitude.
pub open spec fn dec_text(v: int) -> Seq<u8> {
    if v < 0 {
        seq![45u8] + dec_digits((-v) as nat)
    } else {
        dec_digits(v as nat)
    }
}

/// The decimal text of `v`, read as characters.
pub open spec fn char_text(v: int) -> Seq<char> {
    dec_text(v).map(|i: int, b: u8| b as char)
}

/// The low `k` decimal digits of `n`, zero-padded to exactly width `k`.
pub open spec fn padded_digits(n: nat, k: nat) -> Seq<u8>
    decreases k,
{
    if k == 0 {
        Seq::empty()
    } else {
        padded_digits(n / 10, (k - 1) as nat).push(digit_byte(n % 10))
    }
}

/// `j` copies of the ASCII byte `'0'`.
pub open spec fn zero_bytes(j: nat) -> Seq<u8> {
    Seq::new(j, |i: int| 48u8)
}

/// The digit byte of a single digit, as a number.
pub proof fn lemma_digit_byte(d: nat)
    requires
        d < 10,
    ensures
        digit_byte(d) == 48 + d,
{
}

pub proof fn lemma_pow10_pos(k: nat)
    ensures
        pow10(k) >= 1,
    decreases k,
{
    if k > 0 {
        lemma_pow10_pos((k - 1) as nat);
    }
}

/// The concrete powers of ten that the writers reason with.
pub proof fn lemma_pow10_values()
    ensures
        pow10(1) == 10,
        pow10(2) == 100,
        pow10(4) == 10000,
        pow10(19) == 10000000000000000000,
        pow10(20) == 100000000000000000000,
        pow10(38) == 100000000000000000000000000000000000000,
        pow10(39) == 1000000000000000000000000000000000000000,
{
    reveal_with_fuel(pow10, 40);
}

/// Every digit sequence has at least one byte.
pub proof fn lemma_dec_digits_nonempty(n: nat)
    ensures
        dec_digits(n).len() >= 1,
    decreases n,
{
    if n >= 10 {
        lemma_dec_digits_nonempty(n / 10);
    }
}

/// Every byte of a digit sequence is an ASCII digit.
pub proof fn lemma_dec_digits_ascii(n: nat)
    ensures
        forall|i: int| 0 <= i < dec_digits(n).len() ==> 48 <= #[trigger] dec_digits(n)[i] <= 57,
    decreases n,
{
    if n < 10 {
        lemma_digit_byte(n);
        assert(dec_digits(n)[0] == digit_byte(n));
    } else {
        lemma_dec_digits_ascii(n / 10);
        lemma_mod_bound(n as int, 10);
        lemma_digit_byte((n % 10) as nat);
        assert(dec_digits(n) == dec_digits(n / 10).push(digit_byte((n % 10) as nat)));
        assert(forall|i: int|
            0 <= i < dec_digits(n / 10).len() ==> dec_digits(n)[i] == #[trigger] dec_digits(
                n / 10,
            )[i]);
    }
}

/// A nonzero number never begins with a zero digit.
pub proof fn lemma_dec_digits_first_nonzero(n: nat)
    requires
        n >= 1,
    ensures
        dec_digits(n)[0] != 48,
    decreases n,
{
    if n < 10 {
        lemma_digit_byte(n);
    } else {
        lemma_dec_digits_first_nonzero(n / 10);
        lemma_dec_digits_nonempty(n / 10);
        assert(dec_digits(n)[0] == dec_digits(n / 10)[0]);
    }
}

/// A number below `pow10(k)` has at most `k` digits.
pub proof fn lemma_dec_digits_len_le(n: nat, k: nat)
    requires
        1 <= k,
        n < pow10(k),
    ensures
        dec_digits(n).len() <= k,
    decreases k,
{
    if n >= 10 {
        if k == 1 {
            assert(pow10(1) == 10) by {
                reveal_with_fuel(pow10, 2);
            };
            assert(false);
        }
        let p = pow10((k - 1) as nat);
        assert(pow10(k) == 10 * p);
        assert(n / 10 < p) by {
            if n / 10 >= p {
                lemma_fundamental_div_mod(n as int, 10);
                lemma_mod_bound(n as int, 10);
                assert(n >= 10 * (n / 10));
                assert(10 * (n / 10) >= 10 * p);
            }
        };
        lemma_dec_digits_len_le(n / 10, (k - 1) as nat);
    }
}

/// A number at least `pow10(k)` has more than `k` digits.
pub proof fn lemma_dec_digits_len_ge(n: nat, k: nat)
    requires
        pow10(k) <= n,
    ensures
        dec_digits(n).len() >= k + 1,
    decreases k,
{
    lemma_pow10_pos(k);
    if k == 0 {
        lemma_dec_digits_nonempty(n);
    } else {
        let p = pow10((k - 1) as nat);
        lemma_pow10_pos((k - 1) as nat);
        assert(n >= 10 * p);
        assert(n >= 10);
        assert(n / 10 >= p) by {
            if n / 10 < p {
                lemma_fundamental_div_mod(n as int, 10);
                lemma_mod_bound(n as int, 10);
                assert(n == 10 * (n / 10) + n % 10);
                assert(10 * (n / 10) <= 10 * (p - 1));
            }
        };
        lemma_dec_digits_len_ge(n / 10, (k - 1) as nat);
    }
}

/// Splitting off the low `k` digits: the digits of `n` are the digits of
/// `n / pow10(k)` followed by the zero-padded low `k` digits, as long as
/// the quotient is nonzero.
pub proof fn lemma_dec_digits_split(n: nat, k: nat)
    requires
        pow10(k) <= n,
    ensures
        dec_digits(n) =~= dec_digits(n / pow10(k)) + padded_digits(n % pow10(k), k),
    decreases k,
{
    if k == 0 {
        assert(pow10(0) == 1);
        lemma_fundamental_div_mod_converse(n as int, 1, n as int, 0);
        assert(n / 1 == n && n % 1 == 0);
    } else {
        let p = pow10((k - 1) as nat);
        lemma_pow10_pos((k - 1) as nat);
        assert(pow10(k) == 10 * p);
        assert(n >= 10);
        assert(dec_digits(n) == dec_digits(n / 10).push(digit_byte(n % 10)));
        assert(n / 10 >= p) by {
            if n / 10 < p {
                lemma_fundamental_div_mod(n as int, 10);
                lemma_mod_bound(n as int, 10);
                assert(10 * (n / 10) <= 10 * (p - 1));
            }
        };
        lemma_dec_digits_split(n / 10, (k - 1) as nat);
        lemma_div_denominator(n as int, 10, p as int);
        assert((n / 10) / p == n / (10 * p));
        let m = n % (10 * p) as nat;
        lemma_mod_breakdown(n as int, 10, p as int);
        assert(m == 10 * ((n / 10) % p) + n % 10);
        lemma_mod_bound(n as int, 10);
        lemma_fundamental_div_mod_converse(m as int, 10, ((n / 10) % p) as int, (n % 10) as int);
        assert(m / 10 == (n / 10) % p);
        assert(m % 10 == n % 10);
        assert(padded_digits(m, k) == padded_digits(m / 10, (k - 1) as nat).push(
            digit_byte(m % 10),
        ));
    }
}

/// The zero-padded digits of zero are all zeros.
pub proof fn lemma_padded_digits_zero(k: nat)
    ensures
        padded_digits(0, k) =~= zero_bytes(k),
    decreases k,
{
    if k > 0 {
        lemma_padded_digits_zero((k - 1) as nat);
        lemma_fundamental_div_mod_converse(0, 10, 0, 0);
    }
}

/// Zero padding spelled out: the low `k` digits of `n` are leading zeros
/// followed by the plain digits of `n`, whenever `n` fits in `k` digits.
pub proof fn lemma_padded_digits_form(n: nat, k: nat)
    requires
        dec_digits(n).len() <= k,
    ensures
        padded_digits(n, k) =~= zero_bytes((k - dec_digits(n).len()) as nat) + dec_digits(n),
    decreases k,
{
    lemma_dec_digits_nonempty(n);
    let len = dec_digits(n).len();
    if n < 10 {
        lemma_fundamental_div_mod_converse(n as int, 10, 0, n as int);
        assert(n / 10 == 0 && n % 10 == n);
        lemma_padded_digits_zero((k - 1) as nat);
        assert(padded_digits(n, k) == padded_digits(0, (k - 1) as nat).push(digit_byte(n)));
    } else {
        lemma_dec_digits_nonempty(n / 10);
        assert(dec_digits(n / 10).len() == len - 1);
        lemma_padded_digits_form(n / 10, (k - 1) as nat);
        assert(padded_digits(n, k) == padded_digits(n / 10, (k - 1) as nat).push(
            digit_byte(n % 10),
        ));
    }
}

/// Reading digit bytes back as a number.
pub open spec fn parse_digits(s: Seq<u8>) -> int
    decreases s.len(),
{
    if s.len() == 0 {
        0
    } else {
        parse_digits(s.drop_last()) * 10 + (s.last() - 48)
    }
}

/// Reading decimal text back as a signed number: an optional leading
/// `'-'`, then digits.
pub open spec fn parse_text(s: Seq<u8>) -> int {
    if s.len() > 0 && s[0] == 45 {
        -parse_digits(s.subrange(1, s.len() as int))
    } else {
        parse_digits(s)
    }
}

/// Parsing inverts digit writing.
pub proof fn lemma_parse_digits_inverts(n: nat)
    ensures
        parse_digits(dec_digits(n)) == n,
    decreases n,
{
    if n < 10 {
        let s = dec_digits(n);
        lemma_digit_byte(n);
        assert(s.drop_last() =~= Seq::<u8>::empty());
        assert(s.last() == digit_byte(n));
        assert(parse_digits(s) == parse_digits(Seq::<u8>::empty()) * 10 + (s.last() - 48)) by {
            reveal_with_fuel(parse_digits, 2);
        };
        assert(parse_digits(Seq::<u8>::empty()) == 0) by {
            reveal_with_fuel(parse_digits, 2);
        };
    } else {
        lemma_parse_digits_inverts(n / 10);
        let s = dec_digits(n);
        assert(s.drop_last() =~= dec_digits(n / 10));
        assert(s.last() == digit_byte(n % 10));
        lemma_mod_bound(n as int, 10);
        lemma_digit_byte((n % 10) as nat);
        lemma_fundamental_div_mod(n as int, 10);
    }
}

} // verus!
