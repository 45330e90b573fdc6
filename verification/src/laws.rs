//! The laws of the decimal text: parsing inverts formatting, the text
//! never exceeds the buffer capacity, and its shape is a sign followed by
//! digits. Stated over the same model that `Buffer::format` promises.
#![allow(unused_imports)]
use vstd::prelude::*;
use crate::digits::{
    char_text, dec_digits, dec_text, lemma_dec_digits_ascii, lemma_dec_digits_first_nonzero,
    lemma_dec_digits_len_le, lemma_dec_digits_nonempty, lemma_parse_digits_inverts,
    lemma_pow10_values, parse_text, pow10,
};

verus! {

/// Round trip: reading the decimal text of any integer back by standard
/// decimal parsing yields the integer again.
pub proof fn lemma_round_trip(v: int)
    ensures
        parse_text(dec_text(v)) == v,
{
    if v < 0 {
        let m = (-v) as nat;
        lemma_dec_digits_nonempty(m);
        let s = dec_text(v);
        assert(s[0] == 45);
        assert(s.subrange(1, s.len() as int) =~= dec_digits(m));
        lemma_parse_digits_inverts(m);
    } else {
        let m = v as nat;
        lemma_dec_digits_nonempty(m);
        lemma_dec_digits_ascii(m);
        let s = dec_text(v);
        assert(48 <= s[0]);
        lemma_parse_digits_inverts(m);
    }
}

/// Capacity: the text of every value of the supported widths fits the
/// 40-byte scratch region, and an unsigned or nonnegative value fits 39
/// bytes.
pub proof fn lemma_text_len(v: int)
    requires
        -170141183460469231731687303715884105728 <= v <= 340282366920938463463374607431768211455,
    ensures
        1 <= char_text(v).len(),
        char_text(v).len() <= 40,
        v >= 0 ==> char_text(v).len() <= 39,
{
    lemma_pow10_values();
    if v < 0 {
        lemma_dec_digits_nonempty((-v) as nat);
        lemma_dec_digits_len_le((-v) as nat, 39);
    } else {
        lemma_dec_digits_nonempty(v as nat);
        lemma_dec_digits_len_le(v as nat, 39);
    }
}

/// Width-by-width length bound: a value whose magnitude has at most `k`
/// digits formats into at most `k + 1` bytes, and into at most `k` when
/// it is not negative.
pub proof fn lemma_text_len_bounded(v: int, k: nat)
    requires
        1 <= k,
        -pow10(k) < v < pow10(k),
    ensures
        1 <= char_text(v).len(),
        char_text(v).len() <= k + 1,
        v >= 0 ==> char_text(v).len() <= k,
{
    if v < 0 {
        lemma_dec_digits_nonempty((-v) as nat);
        lemma_dec_digits_len_le((-v) as nat, k);
    } else {
        lemma_dec_digits_nonempty(v as nat);
        lemma_dec_digits_len_le(v as nat, k);
    }
}

/// Zero formats as the single character `'0'`, for every width.
pub proof fn lemma_text_zero()
    ensures
        char_text(0) =~= seq!['0'],
{
    assert(dec_text(0) =~= seq![48u8]);
    assert(char_text(0)[0] == 48u8 as char);
    assert(48u8 as char == '0');
}

/// Minus one formats as `"-1"`, for every signed width.
pub proof fn lemma_text_minus_one()
    ensures
        char_text(-1) =~= seq!['-', '1'],
{
    assert(dec_text(-1) =~= seq![45u8, 49u8]);
    assert(char_text(-1)[0] == 45u8 as char);
    assert(char_text(-1)[1] == 49u8 as char);
    assert(45u8 as char == '-');
    assert(49u8 as char == '1');
}

/// Shape: the text is never empty, starts with the minus sign exactly for
/// negative values, and every other byte is an ASCII decimal digit; a
/// nonzero value never carries an extra leading zero.
pub proof fn lemma_text_shape(v: int)
    ensures
        dec_text(v).len() >= 1,
        v < 0 ==> dec_text(v)[0] == 45,
        v >= 0 ==> 48 <= dec_text(v)[0] <= 57,
        forall|i: int|
            (if v < 0 { 1int } else { 0int }) <= i < dec_text(v).len() ==> 48 <= #[trigger] dec_text(
                v,
            )[i] <= 57,
        v != 0 ==> dec_text(v)[if v < 0 { 1int } else { 0int }] != 48,
{
    let m = (if v < 0 { -v } else { v }) as nat;
    lemma_dec_digits_nonempty(m);
    lemma_dec_digits_ascii(m);
    if v != 0 {
        lemma_dec_digits_first_nonzero(m);
    }
    if v < 0 {
        assert(forall|i: int|
            1 <= i < dec_text(v).len() ==> dec_text(v)[i] == #[trigger] dec_digits(m)[i - 1]);
    }
}

} // verus!
