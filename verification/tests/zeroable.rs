use safe_pod::Zeroable;

#[test]
fn zeroed_bool() {
    assert_eq!(bool::zeroed(), false);
}

#[test]
fn zeroed_u8() {
    assert_eq!(u8::zeroed(), 0u8);
}

#[test]
fn zeroed_u16() {
    assert_eq!(u16::zeroed(), 0u16);
}

#[test]
fn zeroed_u32() {
    assert_eq!(u32::zeroed(), 0u32);
}

#[test]
fn zeroed_u64() {
    assert_eq!(u64::zeroed(), 0u64);
}

#[test]
fn zeroed_u128() {
    assert_eq!(u128::zeroed(), 0u128);
}

#[test]
fn zeroed_usize() {
    assert_eq!(usize::zeroed(), 0usize);
}

#[test]
fn zeroed_i8() {
    assert_eq!(i8::zeroed(), 0i8);
}

#[test]
fn zeroed_i16() {
    assert_eq!(i16::zeroed(), 0i16);
}

#[test]
fn zeroed_i32() {
    assert_eq!(i32::zeroed(), 0i32);
}

#[test]
fn zeroed_i64() {
    assert_eq!(i64::zeroed(), 0i64);
}

#[test]
fn zeroed_i128() {
    assert_eq!(i128::zeroed(), 0i128);
}

#[test]
fn zeroed_isize() {
    assert_eq!(isize::zeroed(), 0isize);
}

#[test]
fn zeroed_arrays() {
    assert_eq!(<[bool; 3]>::zeroed(), [false, false, false]);
    assert_eq!(<[u8; 1]>::zeroed(), [0u8]);
    assert_eq!(<[i8; 5]>::zeroed(), [0i8, 0i8, 0i8, 0i8, 0i8]);
}
