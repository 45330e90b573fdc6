//! The verified digit writers: back-to-front decimal output into the
//! 40-byte scratch region, four digits per loop iteration.
#![allow(unused_imports)]
use vstd::prelude::*;
use vstd::arithmetic::div_mod::*;
use crate::digits::{
    dec_digits, digit_byte, lemma_dec_digits_len_ge, lemma_dec_digits_len_le,
    lemma_dec_digits_nonempty, lemma_dec_digits_split, lemma_digit_byte,
    lemma_padded_digits_form, lemma_pow10_values, padded_digits, pow10, zero_bytes,
};
use crate::udiv::{udivmod_1e19, POW10_19};

verus! {

/// Relies on core::str::from_utf8: a slice of ASCII bytes is valid UTF-8
/// and reads back as exactly those characters.
#[verifier::external_body]
pub fn ascii_to_str(bytes: &[u8]) -> (r: &str)
    requires
        forall|i: int| 0 <= i < bytes@.len() ==> bytes@[i] < 128,
    ensures
        r@.len() == bytes@.len(),
        forall|i: int| 0 <= i < bytes@.len() ==> r@[i] == bytes@[i] as char,
{
    core::str::from_utf8(bytes).unwrap()
}

/// Write the two ASCII digits of `d` at `bytes[pos]` and `bytes[pos + 1]`.
fn write_pair(bytes: &mut [u8; 40], pos: usize, d: u64)
    requires
        d < 100,
        pos + 2 <= 40,
    ensures
        final(bytes)@ =~= old(bytes)@.update(pos as int, digit_byte((d / 10) as nat)).update(
            pos + 1,
            digit_byte((d % 10) as nat),
        ),
{
    bytes[pos] = 48 + (d / 10) as u8;
    bytes[pos + 1] = 48 + (d % 10) as u8;
}

/// The zero-padded low four digits of `m`, spelled out byte by byte.
proof fn lemma_padded4(m: nat)
    requires
        m < 10000,
    ensures
        padded_digits(m, 4) =~= seq![
            digit_byte(m / 1000),
            digit_byte((m / 100) % 10),
            digit_byte((m / 10) % 10),
            digit_byte(m % 10),
        ],
{
    reveal_with_fuel(padded_digits, 5);
    lemma_small_mod(m / 1000, 10);
    lemma_div_denominator(m as int, 10, 10);
    lemma_div_denominator(m as int, 100, 10);
    assert((m / 10) / 10 == m / 100);
    assert((m / 100) / 10 == m / 1000);
    assert(m / 1000 < 10) by {
        lemma_div_is_ordered(m as int, 9999, 1000);
    };
}

/// Write the decimal digits of `n` ending at `bytes[end - 1]`, four at a
/// time while at least four remain, and return the index of the first
/// digit. Bytes outside the written range keep their old value.
pub fn write_u64_digits(bytes: &mut [u8; 40], end: usize, n: u64) -> (start: usize)
    requires
        20 <= end <= 40,
    ensures
        start + dec_digits(n as nat).len() == end,
        final(bytes)@.subrange(start as int, end as int) =~= dec_digits(n as nat),
        forall|i: int|
            0 <= i < 40 && !(start <= i < end) ==> final(bytes)@[i] == old(bytes)@[i],
{
    let ghost orig: nat = n as nat;
    let ghost init = bytes@;
    let mut n: u64 = n;
    let mut curr: usize = end;
    proof {
        lemma_pow10_values();
        lemma_dec_digits_len_le(orig, 20);
        lemma_dec_digits_nonempty(orig);
        assert(bytes@.subrange(end as int, end as int) =~= Seq::<u8>::empty());
    }
    while n >= 10000
        invariant
            20 <= end <= 40,
            curr <= end,
            end - curr + dec_digits(n as nat).len() == dec_digits(orig).len(),
            dec_digits(orig).len() <= 20,
            dec_digits(orig) =~= dec_digits(n as nat) + bytes@.subrange(curr as int, end as int),
            forall|i: int| 0 <= i < 40 && !(curr <= i < end) ==> bytes@[i] == init[i],
        decreases n,
    {
        proof {
            lemma_pow10_values();
            lemma_dec_digits_len_ge(n as nat, 4);
            assert(curr >= 4);
        }
        let ghost n0: nat = n as nat;
        let ghost pre = bytes@;
        let rem = n % 10000;
        n = n / 10000;
        proof {
            lemma_dec_digits_split(n0, 4);
            lemma_padded4((rem as nat));
            lemma_div_denominator(rem as int, 100, 10);
            lemma_mod_breakdown(rem as int, 10, 10);
            lemma_mod_bound(rem as int, 10);
            lemma_fundamental_div_mod_converse(
                (rem % 100) as int,
                10,
                ((rem / 10) % 10) as int,
                (rem % 10) as int,
            );
            assert((rem / 100) / 10 == rem / 1000);
            assert((rem % 100) / 10 == (rem / 10) % 10);
            assert((rem % 100) % 10 == rem % 10);
        }
        write_pair(bytes, curr - 4, rem / 100);
        write_pair(bytes, curr - 2, rem % 100);
        proof {
            assert(bytes@.subrange(curr - 4, end as int) =~= padded_digits(
                (n0 % 10000) as nat,
                4,
            ) + pre.subrange(curr as int, end as int));
            assert(dec_digits(orig) =~= dec_digits(n as nat) + bytes@.subrange(
                curr - 4,
                end as int,
            ));
        }
        curr = curr - 4;
    }
    // at most four digits remain
    proof {
        lemma_pow10_values();
    }
    if n >= 100 {
        proof {
            lemma_dec_digits_len_ge(n as nat, 2);
            assert(curr >= 2);
        }
        let ghost n0: nat = n as nat;
        let ghost pre = bytes@;
        let rem = n % 100;
        n = n / 100;
        proof {
            lemma_dec_digits_split(n0, 2);
            reveal_with_fuel(padded_digits, 3);
            lemma_mod_breakdown(n0 as int, 10, 10);
            lemma_mod_bound(n0 as int, 10);
            lemma_fundamental_div_mod_converse(
                (n0 % 100) as int,
                10,
                (((n0 / 10) % 10)) as int,
                (n0 % 10) as int,
            );
            lemma_small_mod(((n0 % 100) / 10) as nat, 10);
            assert(padded_digits((n0 % 100) as nat, 2) =~= seq![
                digit_byte(((n0 % 100) / 10) as nat),
                digit_byte(((n0 % 100) % 10) as nat),
            ]);
        }
        write_pair(bytes, curr - 2, rem);
        proof {
            assert(bytes@.subrange(curr - 2, end as int) =~= padded_digits(
                (n0 % 100) as nat,
                2,
            ) + pre.subrange(curr as int, end as int));
            assert(dec_digits(orig) =~= dec_digits(n as nat) + bytes@.subrange(
                curr - 2,
                end as int,
            ));
        }
        curr = curr - 2;
    }
    // one or two digits remain
    if n < 10 {
        proof {
            lemma_dec_digits_nonempty(n as nat);
            assert(curr >= 1);
            lemma_digit_byte(n as nat);
        }
        let ghost pre = bytes@;
        bytes[curr - 1] = 48 + n as u8;
        proof {
            assert(dec_digits(n as nat) =~= seq![digit_byte(n as nat)]);
            assert(bytes@.subrange(curr - 1, end as int) =~= seq![digit_byte(n as nat)]
                + pre.subrange(curr as int, end as int));
            assert(dec_digits(orig) =~= bytes@.subrange(curr - 1, end as int));
        }
        curr = curr - 1;
    } else {
        proof {
            lemma_pow10_values();
            lemma_dec_digits_len_ge(n as nat, 1);
            assert(curr >= 2);
        }
        let ghost n0: nat = n as nat;
        let ghost pre = bytes@;
        proof {
            assert(n0 / 10 < 10) by {
                lemma_div_is_ordered(n0 as int, 99, 10);
            };
            assert(dec_digits(n0) =~= seq![digit_byte((n0 / 10) as nat), digit_byte(
                (n0 % 10) as nat,
            )]) by {
                reveal_with_fuel(dec_digits, 2);
            };
        }
        write_pair(bytes, curr - 2, n);
        proof {
            assert(bytes@.subrange(curr - 2, end as int) =~= dec_digits(n0) + pre.subrange(
                curr as int,
                end as int,
            ));
            assert(dec_digits(orig) =~= bytes@.subrange(curr - 2, end as int));
        }
        curr = curr - 2;
    }
    curr
}

/// Fill `bytes[target .. from]` with ASCII `'0'`, leaving everything else
/// as it was.
fn write_zeros(bytes: &mut [u8; 40], target: usize, from: usize)
    requires
        target <= from <= 40,
    ensures
        final(bytes)@.subrange(target as int, from as int) =~= zero_bytes(
            (from - target) as nat,
        ),
        forall|i: int|
            0 <= i < 40 && !(target <= i < from) ==> final(bytes)@[i] == old(bytes)@[i],
{
    let ghost init = bytes@;
    let mut j: usize = from;
    while j > target
        invariant
            target <= j <= from <= 40,
            forall|i: int| j <= i < from ==> bytes@[i] == 48u8,
            forall|i: int| 0 <= i < 40 && !(j <= i < from) ==> bytes@[i] == init[i],
        decreases j,
    {
        j = j - 1;
        bytes[j] = 48;
    }
}

/// Write the decimal digits of the 128-bit value `n` ending at `bytes[39]`,
/// peeling 19-digit chunks with the wide divisor and zero-padding every
/// chunk below the most significant one. Returns the index of the first
/// digit; bytes before it keep their old value.
pub fn write_u128_digits(bytes: &mut [u8; 40], n: u128) -> (start: usize)
    ensures
        start + dec_digits(n as nat).len() == 40,
        final(bytes)@.subrange(start as int, 40) =~= dec_digits(n as nat),
        forall|i: int| 0 <= i < start ==> final(bytes)@[i] == old(bytes)@[i],
{
    let ghost orig: nat = n as nat;
    proof {
        lemma_pow10_values();
        lemma_dec_digits_len_le(orig, 39);
    }
    let (q, r0) = udivmod_1e19(n);
    let mut curr = write_u64_digits(bytes, 40, r0);
    if q == 0 {
        proof {
            lemma_fundamental_div_mod(n as int, POW10_19 as int);
            assert(n == r0);
        }
    } else {
        proof {
            lemma_fundamental_div_mod(n as int, POW10_19 as int);
            lemma_mod_bound(n as int, POW10_19 as int);
            assert(orig >= pow10(19));
            lemma_dec_digits_split(orig, 19);
            lemma_dec_digits_len_le(r0 as nat, 19);
            lemma_padded_digits_form(r0 as nat, 19);
            assert(curr >= 21);
        }
        write_zeros(bytes, 21, curr);
        proof {
            assert(bytes@.subrange(21, 40) =~= zero_bytes((19 - dec_digits(r0 as nat).len()) as nat)
                + dec_digits(r0 as nat));
            assert(bytes@.subrange(21, 40) =~= padded_digits((orig % pow10(19)) as nat, 19));
        }
        let ghost zeroed = bytes@;
        let (q2, r1) = udivmod_1e19(q);
        curr = write_u64_digits(bytes, 21, r1);
        proof {
            assert(bytes@.subrange(21, 40) =~= zeroed.subrange(21, 40));
        }
        if q2 == 0 {
            proof {
                lemma_fundamental_div_mod(q as int, POW10_19 as int);
                assert(q == r1);
                assert(bytes@.subrange(curr as int, 40) =~= dec_digits(q as nat)
                    + padded_digits((orig % pow10(19)) as nat, 19));
            }
        } else {
            proof {
                lemma_fundamental_div_mod(q as int, POW10_19 as int);
                lemma_mod_bound(q as int, POW10_19 as int);
                assert(q as nat >= pow10(19));
                lemma_dec_digits_split(q as nat, 19);
                lemma_dec_digits_len_le(r1 as nat, 19);
                lemma_padded_digits_form(r1 as nat, 19);
                assert(curr >= 2);
            }
            write_zeros(bytes, 2, curr);
            proof {
                assert(bytes@.subrange(2, 21) =~= zero_bytes(
                    (19 - dec_digits(r1 as nat).len()) as nat,
                ) + dec_digits(r1 as nat));
                assert(bytes@.subrange(2, 21) =~= padded_digits((q as nat % pow10(19)) as nat, 19));
                assert(bytes@.subrange(21, 40) =~= zeroed.subrange(21, 40));
                // the top chunk is a single digit
                lemma_div_denominator(n as int, POW10_19 as int, POW10_19 as int);
                assert(q2 == n as int / (pow10(38) as int));
                assert(q2 < 10) by {
                    lemma_div_is_ordered(
                        n as int,
                        340282366920938463463374607431768211455,
                        pow10(38) as int,
                    );
                    lemma_fundamental_div_mod_converse(
                        340282366920938463463374607431768211455,
                        pow10(38) as int,
                        3,
                        40282366920938463463374607431768211455,
                    );
                };
                lemma_digit_byte(q2 as nat);
            }
            bytes[1] = 48 + q2 as u8;
            curr = 1;
            proof {
                assert(dec_digits(q2 as nat) =~= seq![digit_byte(q2 as nat)]);
                assert(bytes@.subrange(1, 21) =~= dec_digits(q2 as nat) + padded_digits(
                    (q as nat % pow10(19)) as nat,
                    19,
                ));
                assert(bytes@.subrange(1, 21) =~= dec_digits(q as nat));
                assert(bytes@.subrange(21, 40) =~= padded_digits((orig % pow10(19)) as nat, 19));
                assert(bytes@.subrange(1, 40) =~= dec_digits(q as nat) + padded_digits(
                    (orig % pow10(19)) as nat,
                    19,
                ));
            }
        }
    }
    curr
}

} // verus!
