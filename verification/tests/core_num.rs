#[test]
fn from_str_issue7588() {
    let u: Option<u8> = u8::from_str_radix("1000", 10).ok();
    assert_eq!(u, None);
    let s: Option<i16> = i16::from_str_radix("80000", 10).ok();
    assert_eq!(s, None);
    let f: Option<f32> = "10000000000000000000000000000000000000000".parse().ok();
    assert_eq!(f, Some(f32::INFINITY));
    let fe: Option<f32> = "1e40".parse().ok();
    assert_eq!(fe, Some(f32::INFINITY));
}

#[test]
fn test_from_str_radix_float() {
    let x1: Option<f64> = "-123.456".parse().ok();
    assert_eq!(x1, Some(-123.456));
    let x2: Option<f32> = "123.456".parse().ok();
    assert_eq!(x2, Some(123.456));
    let x3: Option<f32> = "-0.0".parse().ok();
    assert_eq!(x3, Some(-0.0));
    let x4: Option<f32> = "0.0".parse().ok();
    assert_eq!(x4, Some(0.0));
    let x4: Option<f32> = "1.0".parse().ok();
    assert_eq!(x4, Some(1.0));
    let x5: Option<f32> = "-1.0".parse().ok();
    assert_eq!(x5, Some(-1.0));
}

#[test]
fn test_int_from_str_overflow() {
    let mut i8_val: i8 = 127_i8;
    assert_eq!("127".parse::<i8>().ok(), Some(i8_val));
    assert_eq!("128".parse::<i8>().ok(), None);

    i8_val = i8_val.wrapping_add(1);
    assert_eq!("-128".parse::<i8>().ok(), Some(i8_val));
    assert_eq!("-129".parse::<i8>().ok(), None);

    let mut i16_val: i16 = 32_767_i16;
    assert_eq!("32767".parse::<i16>().ok(), Some(i16_val));
    assert_eq!("32768".parse::<i16>().ok(), None);

    i16_val = i16_val.wrapping_add(1);
    assert_eq!("-32768".parse::<i16>().ok(), Some(i16_val));
    assert_eq!("-32769".parse::<i16>().ok(), None);

    let mut i32_val: i32 = 2_147_483_647_i32;
    assert_eq!("2147483647".parse::<i32>().ok(), Some(i32_val));
    assert_eq!("2147483648".parse::<i32>().ok(), None);

    i32_val = i32_val.wrapping_add(1);
    assert_eq!("-2147483648".parse::<i32>().ok(), Some(i32_val));
    assert_eq!("-2147483649".parse::<i32>().ok(), None);

    let mut i64_val: i64 = 9_223_372_036_854_775_807_i64;
    assert_eq!("9223372036854775807".parse::<i64>().ok(), Some(i64_val));
    assert_eq!("9223372036854775808".parse::<i64>().ok(), None);

    i64_val = i64_val.wrapping_add(1);
    assert_eq!("-9223372036854775808".parse::<i64>().ok(), Some(i64_val));
    assert_eq!("-9223372036854775809".parse::<i64>().ok(), None);
}
