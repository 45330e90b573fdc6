use itoa::Buffer;

#[test]
fn roundtrip_u64_samples() {
    let mut b = Buffer::new();
    let samples: [u64; 12] = [
        0,
        1,
        7,
        10,
        99,
        100,
        9999,
        10000,
        123456,
        4294967295,
        9999999999999999999,
        u64::MAX,
    ];
    for &v in samples.iter() {
        let text = b.format(v);
        assert_eq!(text.parse::<u64>().unwrap(), v);
    }
}

#[test]
fn roundtrip_i64_samples() {
    let mut b = Buffer::new();
    let samples: [i64; 12] = [
        0,
        1,
        -1,
        -9,
        -10,
        -99,
        -100,
        -10000,
        i64::MIN,
        i64::MAX,
        -1234567890123,
        1234567890123,
    ];
    for &v in samples.iter() {
        let text = b.format(v);
        assert_eq!(text.parse::<i64>().unwrap(), v);
    }
}

#[test]
fn roundtrip_u128_samples() {
    let mut b = Buffer::new();
    let samples: [u128; 10] = [
        0,
        1,
        9999999999999999999,
        10000000000000000000,
        10000000000000000001,
        99999999999999999999999999999999999999,
        100000000000000000000000000000000000000,
        170141183460469231731687303715884105728,
        340282366920938463463374607431768211454,
        u128::MAX,
    ];
    for &v in samples.iter() {
        let text = b.format(v);
        assert_eq!(text.parse::<u128>().unwrap(), v);
    }
}

#[test]
fn roundtrip_i128_samples() {
    let mut b = Buffer::new();
    let samples: [i128; 9] = [
        0,
        -1,
        1,
        i128::MIN,
        i128::MAX,
        -10000000000000000000,
        10000000000000000000,
        -100000000000000000000000000000000000000,
        100000000000000000000000000000000000000,
    ];
    for &v in samples.iter() {
        let text = b.format(v);
        assert_eq!(text.parse::<i128>().unwrap(), v);
    }
}

#[test]
fn roundtrip_narrow_widths_exhaustive() {
    let mut b = Buffer::new();
    let mut v: i32 = i8::MIN as i32;
    while v <= i8::MAX as i32 {
        let text = b.format(v as i8);
        assert_eq!(text.parse::<i8>().unwrap(), v as i8);
        v += 1;
    }
    let mut u: u32 = 0;
    while u <= u8::MAX as u32 {
        let text = b.format(u as u8);
        assert_eq!(text.parse::<u8>().unwrap(), u as u8);
        u += 1;
    }
}

#[test]
fn roundtrip_16_bit_exhaustive() {
    let mut b = Buffer::new();
    let mut v: i32 = i16::MIN as i32;
    while v <= i16::MAX as i32 {
        assert_eq!(b.format(v as i16).parse::<i16>().unwrap(), v as i16);
        v += 1;
    }
    let mut u: u32 = 0;
    while u <= u16::MAX as u32 {
        assert_eq!(b.format(u as u16).parse::<u16>().unwrap(), u as u16);
        u += 1;
    }
}

#[test]
fn agrees_with_std_on_128_bit_walk() {
    let mut b = Buffer::new();
    let mut x: u128 = 0x0123456789abcdef0123456789abcdef;
    let mut i = 0;
    while i < 2000 {
        x = x
            .wrapping_mul(2862933555777941757)
            .wrapping_add(3037000493);
        assert_eq!(b.format(x), x.to_string());
        let s = x as i128;
        assert_eq!(b.format(s), s.to_string());
        i += 1;
    }
}

#[test]
fn agrees_with_std_formatting() {
    let mut b = Buffer::new();
    let mut v: u64 = 1;
    // cover every digit count of u64
    while v <= u64::MAX / 10 {
        assert_eq!(b.format(v), v.to_string());
        assert_eq!(b.format(v + 1), (v + 1).to_string());
        assert_eq!(b.format(v - 1), (v - 1).to_string());
        v *= 10;
    }
    let mut w: i64 = -1;
    while w >= i64::MIN / 10 {
        assert_eq!(b.format(w), w.to_string());
        w *= 10;
    }
}
