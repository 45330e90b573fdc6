use itoa::Buffer;

#[test]
fn zero_every_width() {
    let mut b = Buffer::new();
    assert_eq!(b.format(0u8), "0");
    assert_eq!(b.format(0u16), "0");
    assert_eq!(b.format(0u32), "0");
    assert_eq!(b.format(0u64), "0");
    assert_eq!(b.format(0u128), "0");
    assert_eq!(b.format(0usize), "0");
    assert_eq!(b.format(0i8), "0");
    assert_eq!(b.format(0i16), "0");
    assert_eq!(b.format(0i32), "0");
    assert_eq!(b.format(0i64), "0");
    assert_eq!(b.format(0i128), "0");
    assert_eq!(b.format(0isize), "0");
}

#[test]
fn minus_one_every_signed_width() {
    let mut b = Buffer::new();
    assert_eq!(b.format(-1i8), "-1");
    assert_eq!(b.format(-1i16), "-1");
    assert_eq!(b.format(-1i32), "-1");
    assert_eq!(b.format(-1i64), "-1");
    assert_eq!(b.format(-1i128), "-1");
    assert_eq!(b.format(-1isize), "-1");
}

#[test]
fn min_and_max_every_width() {
    let mut b = Buffer::new();
    assert_eq!(b.format(u8::MAX), "255");
    assert_eq!(b.format(i8::MIN), "-128");
    assert_eq!(b.format(i8::MAX), "127");
    assert_eq!(b.format(u16::MAX), "65535");
    assert_eq!(b.format(i16::MIN), "-32768");
    assert_eq!(b.format(i16::MAX), "32767");
    assert_eq!(b.format(u32::MAX), "4294967295");
    assert_eq!(b.format(i32::MIN), "-2147483648");
    assert_eq!(b.format(i32::MAX), "2147483647");
    assert_eq!(b.format(u64::MAX), "18446744073709551615");
    assert_eq!(b.format(i64::MIN), "-9223372036854775808");
    assert_eq!(b.format(i64::MAX), "9223372036854775807");
    assert_eq!(b.format(u128::MAX), "340282366920938463463374607431768211455");
    assert_eq!(
        b.format(i128::MIN),
        "-170141183460469231731687303715884105728"
    );
    assert_eq!(
        b.format(i128::MAX),
        "170141183460469231731687303715884105727"
    );
    assert_eq!(b.format(usize::MAX), usize::MAX.to_string());
    assert_eq!(b.format(isize::MIN), isize::MIN.to_string());
    assert_eq!(b.format(isize::MAX), isize::MAX.to_string());
}

#[test]
fn batch_boundaries() {
    let mut b = Buffer::new();
    assert_eq!(b.format(9u32), "9");
    assert_eq!(b.format(10u32), "10");
    assert_eq!(b.format(99u32), "99");
    assert_eq!(b.format(100u32), "100");
    assert_eq!(b.format(999u32), "999");
    assert_eq!(b.format(1000u32), "1000");
    assert_eq!(b.format(9999u32), "9999");
    assert_eq!(b.format(10000u32), "10000");
    assert_eq!(b.format(99999u32), "99999");
    assert_eq!(b.format(-9999i32), "-9999");
    assert_eq!(b.format(-10000i32), "-10000");
    assert_eq!(b.format(100000000u64), "100000000");
    assert_eq!(b.format(99999999u64), "99999999");
}

#[test]
fn chunk_boundaries_128_bit() {
    let mut b = Buffer::new();
    // one chunk / two chunks
    assert_eq!(b.format(9999999999999999999u128), "9999999999999999999");
    assert_eq!(b.format(10000000000000000000u128), "10000000000000000000");
    // a low chunk whose own digits are short must be zero padded
    assert_eq!(b.format(10000000000000000001u128), "10000000000000000001");
    assert_eq!(
        b.format(20000000000000000000000000000000000007u128),
        "20000000000000000000000000000000000007"
    );
    // two chunks / three chunks
    assert_eq!(
        b.format(99999999999999999999999999999999999999u128),
        "99999999999999999999999999999999999999"
    );
    assert_eq!(
        b.format(100000000000000000000000000000000000000u128),
        "100000000000000000000000000000000000000"
    );
    assert_eq!(
        b.format(100000000000000000000000000000000000001u128),
        "100000000000000000000000000000000000001"
    );
    assert_eq!(
        b.format(-100000000000000000000000000000000000001i128),
        "-100000000000000000000000000000000000001"
    );
}

#[test]
fn buffer_reuse_leaves_no_stale_bytes() {
    let mut b = Buffer::new();
    assert_eq!(b.format(123456789u64), "123456789");
    assert_eq!(b.format(5u64), "5");
    assert_eq!(b.format(-987654321i64), "-987654321");
    assert_eq!(b.format(42u8), "42");
    assert_eq!(b.format(u128::MAX), "340282366920938463463374607431768211455");
    assert_eq!(b.format(0i128), "0");
}

#[test]
fn length_never_exceeds_width_maximum() {
    let mut b = Buffer::new();
    assert!(b.format(u8::MAX).len() <= 3);
    assert!(b.format(i8::MIN).len() <= 4);
    assert!(b.format(u16::MAX).len() <= 5);
    assert!(b.format(i16::MIN).len() <= 6);
    assert!(b.format(u32::MAX).len() <= 10);
    assert!(b.format(i32::MIN).len() <= 11);
    assert!(b.format(u64::MAX).len() <= 20);
    assert!(b.format(i64::MIN).len() <= 20);
    assert!(b.format(u128::MAX).len() <= 39);
    assert!(b.format(i128::MIN).len() <= 40);
}
