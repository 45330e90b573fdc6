//! The per-width `Integer` implementations: sign handling, promotion to
//! the 64-bit or 128-bit digit writer, and the hand-back of the written
//! range as text.
#![allow(unused_imports)]
use vstd::prelude::*;
use crate::digits::{
    char_text, dec_digits, dec_text, lemma_dec_digits_ascii, lemma_dec_digits_len_le,
    lemma_pow10_values,
};
use crate::sealed::Sealed;
use crate::writer::{ascii_to_str, write_u128_digits, write_u64_digits};
use crate::{Buffer, Integer};
use vstd::slice::slice_subrange;

verus! {

/// Hand back `buf.bytes[start .. 40]` as text, once every byte in that
/// range is an ASCII digit or the minus sign.
fn finish<'a>(buf: &'a Buffer, start: usize) -> (r: &'a str)
    requires
        start <= 40,
        forall|i: int| start <= i < 40 ==> #[trigger] buf.bytes@[i] < 128,
    ensures
        r@.len() == 40 - start,
        forall|i: int| 0 <= i < r@.len() ==> r@[i] == buf.bytes@[start + i] as char,
{
    let s = slice_subrange(buf.bytes.as_slice(), start, 40);
    ascii_to_str(s)
}

/// Write an unsigned value that fits 64 bits and return its text.
fn write_u64_text(buf: &mut Buffer, n: u64) -> (r: &str)
    ensures
        r@ == char_text(n as int),
{
    let start = write_u64_digits(&mut buf.bytes, 40, n);
    proof {
        lemma_dec_digits_ascii(n as nat);
        assert forall|i: int| start <= i < 40 implies buf.bytes@[i] < 128 by {
            assert(buf.bytes@.subrange(start as int, 40)[i - start] == buf.bytes@[i]);
        };
    }
    let r = finish(buf, start);
    proof {
        assert(r@ =~= char_text(n as int));
    }
    r
}

/// Write a signed value that fits 64 bits: digits of the magnitude, then
/// a leading minus sign when negative.
fn write_i64_text(buf: &mut Buffer, v: i64) -> (r: &str)
    ensures
        r@ == char_text(v as int),
{
    if v >= 0 {
        write_u64_text(buf, v as u64)
    } else {
        let m: u64 = (-(v as i128)) as u64;
        let start = write_u64_digits(&mut buf.bytes, 40, m);
        proof {
            lemma_pow10_values();
            lemma_dec_digits_len_le(m as nat, 20);
            assert(start >= 20);
            lemma_dec_digits_ascii(m as nat);
        }
        let sign_at = start - 1;
        buf.bytes[sign_at] = 45;
        proof {
            assert(buf.bytes@.subrange(start as int, 40) =~= dec_digits(m as nat));
            assert(dec_text(v as int) =~= seq![45u8] + dec_digits(m as nat));
            assert forall|i: int| sign_at <= i < 40 implies buf.bytes@[i] < 128 by {
                if i >= start {
                    assert(buf.bytes@.subrange(start as int, 40)[i - start] == buf.bytes@[i]);
                }
            };
        }
        let r = finish(buf, sign_at);
        proof {
            assert(r@ =~= char_text(v as int));
        }
        r
    }
}

/// Write an unsigned 128-bit value and return its text.
fn write_u128_text(buf: &mut Buffer, n: u128) -> (r: &str)
    ensures
        r@ == char_text(n as int),
{
    let start = write_u128_digits(&mut buf.bytes, n);
    proof {
        lemma_dec_digits_ascii(n as nat);
        assert forall|i: int| start <= i < 40 implies buf.bytes@[i] < 128 by {
            assert(buf.bytes@.subrange(start as int, 40)[i - start] == buf.bytes@[i]);
        };
    }
    let r = finish(buf, start);
    proof {
        assert(r@ =~= char_text(n as int));
    }
    r
}

/// Write a signed 128-bit value: digits of the magnitude, then a leading
/// minus sign when negative. The most negative value's magnitude does not
/// fit the signed type, so it is taken as the unsigned literal directly.
fn write_i128_text(buf: &mut Buffer, v: i128) -> (r: &str)
    ensures
        r@ == char_text(v as int),
{
    if v >= 0 {
        write_u128_text(buf, v as u128)
    } else {
        let m: u128 = if v == i128::MIN {
            170141183460469231731687303715884105728u128
        } else {
            (-v) as u128
        };
        let start = write_u128_digits(&mut buf.bytes, m);
        proof {
            lemma_pow10_values();
            lemma_dec_digits_len_le(m as nat, 39);
            assert(start >= 1);
            lemma_dec_digits_ascii(m as nat);
        }
        let sign_at = start - 1;
        buf.bytes[sign_at] = 45;
        proof {
            assert(buf.bytes@.subrange(start as int, 40) =~= dec_digits(m as nat));
            assert(dec_text(v as int) =~= seq![45u8] + dec_digits(m as nat));
            assert forall|i: int| sign_at <= i < 40 implies buf.bytes@[i] < 128 by {
                if i >= start {
                    assert(buf.bytes@.subrange(start as int, 40)[i - start] == buf.bytes@[i]);
                }
            };
        }
        let r = finish(buf, sign_at);
        proof {
            assert(r@ =~= char_text(v as int));
        }
        r
    }
}

impl Sealed for u8 {

}

impl Integer for u8 {
    open spec fn as_int(self) -> int {
        self as int
    }

    fn write(self, buf: &mut Buffer) -> (r: &str) {
        write_u64_text(buf, self as u64)
    }
}

impl Sealed for u16 {

}

impl Integer for u16 {
    open spec fn as_int(self) -> int {
        self as int
    }

    fn write(self, buf: &mut Buffer) -> (r: &str) {
        write_u64_text(buf, self as u64)
    }
}

impl Sealed for u32 {

}

impl Integer for u32 {
    open spec fn as_int(self) -> int {
        self as int
    }

    fn write(self, buf: &mut Buffer) -> (r: &str) {
        write_u64_text(buf, self as u64)
    }
}

impl Sealed for u64 {

}

impl Integer for u64 {
    open spec fn as_int(self) -> int {
        self as int
    }

    fn write(self, buf: &mut Buffer) -> (r: &str) {
        write_u64_text(buf, self)
    }
}

impl Sealed for usize {

}

impl Integer for usize {
    open spec fn as_int(self) -> int {
        self as int
    }

    fn write(self, buf: &mut Buffer) -> (r: &str) {
        write_u64_text(buf, self as u64)
    }
}

impl Sealed for u128 {

}

impl Integer for u128 {
    open spec fn as_int(self) -> int {
        self as int
    }

    fn write(self, buf: &mut Buffer) -> (r: &str) {
        write_u128_text(buf, self)
    }
}

impl Sealed for i8 {

}

impl Integer for i8 {
    open spec fn as_int(self) -> int {
        self as int
    }

    fn write(self, buf: &mut Buffer) -> (r: &str) {
        write_i64_text(buf, self as i64)
    }
}

impl Sealed for i16 {

}

impl Integer for i16 {
    open spec fn as_int(self) -> int {
        self as int
    }

    fn write(self, buf: &mut Buffer) -> (r: &str) {
        write_i64_text(buf, self as i64)
    }
}

impl Sealed for i32 {

}

impl Integer for i32 {
    open spec fn as_int(self) -> int {
        self as int
    }

    fn write(self, buf: &mut Buffer) -> (r: &str) {
        write_i64_text(buf, self as i64)
    }
}

impl Sealed for i64 {

}

impl Integer for i64 {
    open spec fn as_int(self) -> int {
        self as int
    }

    fn write(self, buf: &mut Buffer) -> (r: &str) {
        write_i64_text(buf, self)
    }
}

impl Sealed for isize {

}

impl Integer for isize {
    open spec fn as_int(self) -> int {
        self as int
    }

    fn write(self, buf: &mut Buffer) -> (r: &str) {
        write_i64_text(buf, self as i64)
    }
}

impl Sealed for i128 {

}

impl Integer for i128 {
    open spec fn as_int(self) -> int {
        self as int
    }

    fn write(self, buf: &mut Buffer) -> (r: &str) {
        write_i128_text(buf, self)
    }
}

} // verus!
