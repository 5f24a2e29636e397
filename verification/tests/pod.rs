use safe_pod::Pod;
use safe_pod::PodError;

#[test]
fn pod_bool() {
    // Read success
    let buffer_read = {
        let mut buffer_read = vec![0u8; <bool as Pod>::size() * 2];
        buffer_read[<bool as Pod>::size()] = 1u8;
        buffer_read
    };

    assert_eq!(bool::from_le_bytes(&buffer_read), Ok(false));
    assert_eq!(bool::from_be_bytes(&buffer_read), Ok(false));
    assert_eq!(bool::from_le_bytes(&buffer_read[<bool as Pod>::size()..]), Ok(true));
    assert_eq!(bool::from_be_bytes(&buffer_read[<bool as Pod>::size()..]), Ok(true));

    // Read fail
    let buffer_read_fail1 = vec![0u8; <bool as Pod>::size() - 1];
    let buffer_read_fail2: [u8; 1] = [3u8];

    assert_eq!(bool::from_le_bytes(&buffer_read_fail1), Err(PodError::OutOfSpace));
    assert_eq!(bool::from_be_bytes(&buffer_read_fail1), Err(PodError::OutOfSpace));
    assert_eq!(bool::from_be_bytes(&buffer_read_fail2), Err(PodError::OutOfRange));
    assert_eq!(bool::from_be_bytes(&buffer_read_fail2), Err(PodError::OutOfRange));

    // Write success
    let mut buffer_write1 = vec![0u8; <bool as Pod>::size() * 2];
    let mut buffer_write2 = vec![1u8; <bool as Pod>::size() * 2];

    assert_eq!(
        true.to_le_bytes(&mut buffer_write1),
        Ok(<bool as Pod>::size())
    );
    assert_eq!(
        true.to_be_bytes(&mut buffer_write1[<bool as Pod>::size()..]),
        Ok(<bool as Pod>::size())
    );
    assert_eq!(
        false.to_le_bytes(&mut buffer_write2),
        Ok(<bool as Pod>::size())
    );
    assert_eq!(
        false.to_be_bytes(&mut buffer_write2[<bool as Pod>::size()..]),
        Ok(<bool as Pod>::size())
    );

    assert_eq!(&buffer_write1[0..<bool as Pod>::size()], &[1]);
    assert_eq!(&buffer_write1[<bool as Pod>::size()..], &[1]);
    assert_eq!(&buffer_write2[0..<bool as Pod>::size()], &[0]);
    assert_eq!(&buffer_write2[<bool as Pod>::size()..], &[0]);

    // Write fail
    let mut buffer_write_fail = vec![0u8; <bool as Pod>::size() - 1];

    assert_eq!(true.to_le_bytes(&mut buffer_write_fail), Err(PodError::OutOfSpace));
    assert_eq!(true.to_be_bytes(&mut buffer_write_fail), Err(PodError::OutOfSpace));
}

#[test]
fn pod_u8() {
    // Read success
    let buffer_read = {
        let mut buffer_read = vec![0u8; <u8 as Pod>::size() * 2];
        buffer_read[<u8 as Pod>::size()] = 1u8;
        buffer_read
    };

    assert_eq!(<u8 as Pod>::from_le_bytes(&buffer_read), Ok(0u8));
    assert_eq!(<u8 as Pod>::from_be_bytes(&buffer_read), Ok(0u8));
    assert_eq!(<u8 as Pod>::from_le_bytes(&buffer_read[<u8 as Pod>::size()..]), Ok(1u8));
    assert_eq!(<u8 as Pod>::from_be_bytes(&buffer_read[<u8 as Pod>::size()..]), Ok(1u8));

    // Read fail
    let buffer_read_fail = vec![0u8; <u8 as Pod>::size() - 1];

    assert_eq!(<u8 as Pod>::from_le_bytes(&buffer_read_fail), Err(PodError::OutOfSpace));
    assert_eq!(<u8 as Pod>::from_be_bytes(&buffer_read_fail), Err(PodError::OutOfSpace));

    // Write success
    let mut buffer_write1 = vec![0u8; <u8 as Pod>::size() * 2];
    let mut buffer_write2 = vec![1u8; <u8 as Pod>::size() * 2];

    assert_eq!(
        <u8 as Pod>::to_le_bytes(&1, &mut buffer_write1),
        Ok(<u8 as Pod>::size())
    );
    assert_eq!(
        <u8 as Pod>::to_be_bytes(&1, &mut buffer_write1[<u8 as Pod>::size()..]),
        Ok(<u8 as Pod>::size())
    );
    assert_eq!(
        <u8 as Pod>::to_le_bytes(&0, &mut buffer_write2),
        Ok(<u8 as Pod>::size())
    );
    assert_eq!(
        <u8 as Pod>::to_be_bytes(&0, &mut buffer_write2[<u8 as Pod>::size()..]),
        Ok(<u8 as Pod>::size())
    );

    assert_eq!(&buffer_write1[0..<u8 as Pod>::size()], &[1]);
    assert_eq!(&buffer_write1[<u8 as Pod>::size()..], &[1]);
    assert_eq!(&buffer_write2[0..<u8 as Pod>::size()], &[0]);
    assert_eq!(&buffer_write2[<u8 as Pod>::size()..], &[0]);

    // Write fail
    let mut buffer_write_fail = vec![0u8; <u8 as Pod>::size() - 1];

    assert_eq!(<u8 as Pod>::to_le_bytes(&1, &mut buffer_write_fail), Err(PodError::OutOfSpace));
    assert_eq!(<u8 as Pod>::to_be_bytes(&1, &mut buffer_write_fail), Err(PodError::OutOfSpace));
}

#[test]
fn pod_u16() {
    // Read success
    let buffer_read = {
        let mut buffer_read = vec![0u8; <u16 as Pod>::size() * 2];
        buffer_read[<u16 as Pod>::size() - 1] = 1u8;
        buffer_read[<u16 as Pod>::size()] = 1u8;
        buffer_read
    };

    assert_eq!(<u16 as Pod>::from_le_bytes(&buffer_read), Ok(256u16));
    assert_eq!(<u16 as Pod>::from_be_bytes(&buffer_read), Ok(1u16));
    assert_eq!(<u16 as Pod>::from_le_bytes(&buffer_read[<u16 as Pod>::size()..]), Ok(1u16));
    assert_eq!(<u16 as Pod>::from_be_bytes(&buffer_read[<u16 as Pod>::size()..]), Ok(256u16));

    // Read fail
    let buffer_read_fail = vec![0u8; <u16 as Pod>::size() - 1];

    assert_eq!(<u16 as Pod>::from_le_bytes(&buffer_read_fail), Err(PodError::OutOfSpace));
    assert_eq!(<u16 as Pod>::from_be_bytes(&buffer_read_fail), Err(PodError::OutOfSpace));

    // Write success
    let mut buffer_write1 = vec![0u8; <u16 as Pod>::size() * 2];
    let mut buffer_write2 = vec![1u8; <u16 as Pod>::size() * 2];

    assert_eq!(
        <u16 as Pod>::to_le_bytes(&256, &mut buffer_write1),
        Ok(<u16 as Pod>::size())
    );
    assert_eq!(
        <u16 as Pod>::to_be_bytes(&1, &mut buffer_write1[<u16 as Pod>::size()..]),
        Ok(<u16 as Pod>::size())
    );
    assert_eq!(
        <u16 as Pod>::to_le_bytes(&1, &mut buffer_write2),
        Ok(<u16 as Pod>::size())
    );
    assert_eq!(
        <u16 as Pod>::to_be_bytes(&256, &mut buffer_write2[<u16 as Pod>::size()..]),
        Ok(<u16 as Pod>::size())
    );

    assert_eq!(&buffer_write1[0..<u16 as Pod>::size()], &buffer_read[0..<u16 as Pod>::size()]);
    assert_eq!(&buffer_write1[<u16 as Pod>::size()..], &buffer_read[0..<u16 as Pod>::size()]);
    assert_eq!(&buffer_write2[0..<u16 as Pod>::size()], &buffer_read[<u16 as Pod>::size()..]);
    assert_eq!(&buffer_write2[<u16 as Pod>::size()..], &buffer_read[<u16 as Pod>::size()..]);

    // Write fail
    let mut buffer_write_fail = vec![0u8; <u16 as Pod>::size() - 1];

    assert_eq!(<u16 as Pod>::to_le_bytes(&1, &mut buffer_write_fail), Err(PodError::OutOfSpace));
    assert_eq!(<u16 as Pod>::to_be_bytes(&1, &mut buffer_write_fail), Err(PodError::OutOfSpace));
}

#[test]
fn pod_u32() {
    // Read success
    let buffer_read = {
        let mut buffer_read = vec![0u8; <u32 as Pod>::size() * 2];
        buffer_read[<u32 as Pod>::size() - 1] = 1u8;
        buffer_read[<u32 as Pod>::size()] = 1u8;
        buffer_read
    };

    assert_eq!(<u32 as Pod>::from_le_bytes(&buffer_read), Ok(16777216u32));
    assert_eq!(<u32 as Pod>::from_be_bytes(&buffer_read), Ok(1u32));
    assert_eq!(<u32 as Pod>::from_le_bytes(&buffer_read[<u32 as Pod>::size()..]), Ok(1u32));
    assert_eq!(<u32 as Pod>::from_be_bytes(&buffer_read[<u32 as Pod>::size()..]), Ok(16777216u32));

    // Read fail
    let buffer_read_fail = vec![0u8; <u32 as Pod>::size() - 1];

    assert_eq!(<u32 as Pod>::from_le_bytes(&buffer_read_fail), Err(PodError::OutOfSpace));
    assert_eq!(<u32 as Pod>::from_be_bytes(&buffer_read_fail), Err(PodError::OutOfSpace));

    // Write success
    let mut buffer_write1 = vec![0u8; <u32 as Pod>::size() * 2];
    let mut buffer_write2 = vec![1u8; <u32 as Pod>::size() * 2];

    assert_eq!(
        <u32 as Pod>::to_le_bytes(&16777216, &mut buffer_write1),
        Ok(<u32 as Pod>::size())
    );
    assert_eq!(
        <u32 as Pod>::to_be_bytes(&1, &mut buffer_write1[<u32 as Pod>::size()..]),
        Ok(<u32 as Pod>::size())
    );
    assert_eq!(
        <u32 as Pod>::to_le_bytes(&1, &mut buffer_write2),
        Ok(<u32 as Pod>::size())
    );
    assert_eq!(
        <u32 as Pod>::to_be_bytes(&16777216, &mut buffer_write2[<u32 as Pod>::size()..]),
        Ok(<u32 as Pod>::size())
    );

    assert_eq!(&buffer_write1[0..<u32 as Pod>::size()], &buffer_read[0..<u32 as Pod>::size()]);
    assert_eq!(&buffer_write1[<u32 as Pod>::size()..], &buffer_read[0..<u32 as Pod>::size()]);
    assert_eq!(&buffer_write2[0..<u32 as Pod>::size()], &buffer_read[<u32 as Pod>::size()..]);
    assert_eq!(&buffer_write2[<u32 as Pod>::size()..], &buffer_read[<u32 as Pod>::size()..]);

    // Write fail
    let mut buffer_write_fail = vec![0u8; <u32 as Pod>::size() - 1];

    assert_eq!(<u32 as Pod>::to_le_bytes(&1, &mut buffer_write_fail), Err(PodError::OutOfSpace));
    assert_eq!(<u32 as Pod>::to_be_bytes(&1, &mut buffer_write_fail), Err(PodError::OutOfSpace));
}

#[test]
fn pod_u64() {
    // Read success
    let buffer_read = {
        let mut buffer_read = vec![0u8; <u64 as Pod>::size() * 2];
        buffer_read[<u64 as Pod>::size() - 1] = 1u8;
        buffer_read[<u64 as Pod>::size()] = 1u8;
        buffer_read
    };

    assert_eq!(<u64 as Pod>::from_le_bytes(&buffer_read), Ok(72057594037927936u64));
    assert_eq!(<u64 as Pod>::from_be_bytes(&buffer_read), Ok(1u64));
    assert_eq!(<u64 as Pod>::from_le_bytes(&buffer_read[<u64 as Pod>::size()..]), Ok(1u64));
    assert_eq!(<u64 as Pod>::from_be_bytes(&buffer_read[<u64 as Pod>::size()..]), Ok(72057594037927936u64));

    // Read fail
    let buffer_read_fail = vec![0u8; <u64 as Pod>::size() - 1];

    assert_eq!(<u64 as Pod>::from_le_bytes(&buffer_read_fail), Err(PodError::OutOfSpace));
    assert_eq!(<u64 as Pod>::from_be_bytes(&buffer_read_fail), Err(PodError::OutOfSpace));

    // Write success
    let mut buffer_write1 = vec![0u8; <u64 as Pod>::size() * 2];
    let mut buffer_write2 = vec![1u8; <u64 as Pod>::size() * 2];

    assert_eq!(
        <u64 as Pod>::to_le_bytes(&72057594037927936, &mut buffer_write1),
        Ok(<u64 as Pod>::size())
    );
    assert_eq!(
        <u64 as Pod>::to_be_bytes(&1, &mut buffer_write1[<u64 as Pod>::size()..]),
        Ok(<u64 as Pod>::size())
    );
    assert_eq!(
        <u64 as Pod>::to_le_bytes(&1, &mut buffer_write2),
        Ok(<u64 as Pod>::size())
    );
    assert_eq!(
        <u64 as Pod>::to_be_bytes(&72057594037927936, &mut buffer_write2[<u64 as Pod>::size()..]),
        Ok(<u64 as Pod>::size())
    );

    assert_eq!(&buffer_write1[0..<u64 as Pod>::size()], &buffer_read[0..<u64 as Pod>::size()]);
    assert_eq!(&buffer_write1[<u64 as Pod>::size()..], &buffer_read[0..<u64 as Pod>::size()]);
    assert_eq!(&buffer_write2[0..<u64 as Pod>::size()], &buffer_read[<u64 as Pod>::size()..]);
    assert_eq!(&buffer_write2[<u64 as Pod>::size()..], &buffer_read[<u64 as Pod>::size()..]);

    // Write fail
    let mut buffer_write_fail = vec![0u8; <u64 as Pod>::size() - 1];

    assert_eq!(<u64 as Pod>::to_le_bytes(&1, &mut buffer_write_fail), Err(PodError::OutOfSpace));
    assert_eq!(<u64 as Pod>::to_be_bytes(&1, &mut buffer_write_fail), Err(PodError::OutOfSpace));
}

#[test]
fn pod_u128() {
    // Read success
    let buffer_read = {
        let mut buffer_read = vec![0u8; <u128 as Pod>::size() * 2];
        buffer_read[<u128 as Pod>::size() - 1] = 1u8;
        buffer_read[<u128 as Pod>::size()] = 1u8;
        buffer_read
    };

    assert_eq!(<u128 as Pod>::from_le_bytes(&buffer_read), Ok(1329227995784915872903807060280344576u128));
    assert_eq!(<u128 as Pod>::from_be_bytes(&buffer_read), Ok(1u128));
    assert_eq!(<u128 as Pod>::from_le_bytes(&buffer_read[<u128 as Pod>::size()..]), Ok(1u128));
    assert_eq!(<u128 as Pod>::from_be_bytes(&buffer_read[<u128 as Pod>::size()..]), Ok(1329227995784915872903807060280344576u128));

    // Read fail
    let buffer_read_fail = vec![0u8; <u128 as Pod>::size() - 1];

    assert_eq!(<u128 as Pod>::from_le_bytes(&buffer_read_fail), Err(PodError::OutOfSpace));
    assert_eq!(<u128 as Pod>::from_be_bytes(&buffer_read_fail), Err(PodError::OutOfSpace));

    // Write success
    let mut buffer_write1 = vec![0u8; <u128 as Pod>::size() * 2];
    let mut buffer_write2 = vec![1u8; <u128 as Pod>::size() * 2];

    assert_eq!(
        <u128 as Pod>::to_le_bytes(&1329227995784915872903807060280344576, &mut buffer_write1),
        Ok(<u128 as Pod>::size())
    );
    assert_eq!(
        <u128 as Pod>::to_be_bytes(&1, &mut buffer_write1[<u128 as Pod>::size()..]),
        Ok(<u128 as Pod>::size())
    );
    assert_eq!(
        <u128 as Pod>::to_le_bytes(&1, &mut buffer_write2),
        Ok(<u128 as Pod>::size())
    );
    assert_eq!(
        <u128 as Pod>::to_be_bytes(&1329227995784915872903807060280344576, &mut buffer_write2[<u128 as Pod>::size()..]),
        Ok(<u128 as Pod>::size())
    );

    assert_eq!(&buffer_write1[0..<u128 as Pod>::size()], &buffer_read[0..<u128 as Pod>::size()]);
    assert_eq!(&buffer_write1[<u128 as Pod>::size()..], &buffer_read[0..<u128 as Pod>::size()]);
    assert_eq!(&buffer_write2[0..<u128 as Pod>::size()], &buffer_read[<u128 as Pod>::size()..]);
    assert_eq!(&buffer_write2[<u128 as Pod>::size()..], &buffer_read[<u128 as Pod>::size()..]);

    // Write fail
    let mut buffer_write_fail = vec![0u8; <u128 as Pod>::size() - 1];

    assert_eq!(<u128 as Pod>::to_le_bytes(&1, &mut buffer_write_fail), Err(PodError::OutOfSpace));
    assert_eq!(<u128 as Pod>::to_be_bytes(&1, &mut buffer_write_fail), Err(PodError::OutOfSpace));
}

#[test]
fn pod_i8() {
    // Read success
    let buffer_read = {
        let mut buffer_read = vec![255u8; <i8 as Pod>::size() * 2];
        buffer_read[<i8 as Pod>::size()] = 1u8;
        buffer_read
    };

    assert_eq!(<i8 as Pod>::from_le_bytes(&buffer_read), Ok(-1i8));
    assert_eq!(<i8 as Pod>::from_be_bytes(&buffer_read), Ok(-1i8));
    assert_eq!(<i8 as Pod>::from_le_bytes(&buffer_read[<u8 as Pod>::size()..]), Ok(1i8));
    assert_eq!(<i8 as Pod>::from_be_bytes(&buffer_read[<u8 as Pod>::size()..]), Ok(1i8));

    // Read fail
    let buffer_read_fail = vec![0u8; <i8 as Pod>::size() - 1];

    assert_eq!(<i8 as Pod>::from_le_bytes(&buffer_read_fail), Err(PodError::OutOfSpace));
    assert_eq!(<i8 as Pod>::from_be_bytes(&buffer_read_fail), Err(PodError::OutOfSpace));

    // Write success
    let mut buffer_write1 = vec![0u8; <i8 as Pod>::size() * 2];
    let mut buffer_write2 = vec![1u8; <i8 as Pod>::size() * 2];

    assert_eq!(
        <i8 as Pod>::to_le_bytes(&-1, &mut buffer_write1),
        Ok(<i8 as Pod>::size())
    );
    assert_eq!(
        <i8 as Pod>::to_be_bytes(&-1, &mut buffer_write1[<i8 as Pod>::size()..]),
        Ok(<i8 as Pod>::size())
    );
    assert_eq!(
        <i8 as Pod>::to_le_bytes(&1, &mut buffer_write2),
        Ok(<i8 as Pod>::size())
    );
    assert_eq!(
        <i8 as Pod>::to_be_bytes(&1, &mut buffer_write2[<i8 as Pod>::size()..]),
        Ok(<i8 as Pod>::size())
    );

    assert_eq!(&buffer_write1[0..<u8 as Pod>::size()], &[255]);
    assert_eq!(&buffer_write1[<u8 as Pod>::size()..], &[255]);
    assert_eq!(&buffer_write2[0..<u8 as Pod>::size()], &[1]);
    assert_eq!(&buffer_write2[<u8 as Pod>::size()..], &[1]);

    // Write fail
    let mut buffer_write_fail = vec![0u8; <i8 as Pod>::size() - 1];

    assert_eq!(<i8 as Pod>::to_le_bytes(&1, &mut buffer_write_fail), Err(PodError::OutOfSpace));
    assert_eq!(<i8 as Pod>::to_be_bytes(&1, &mut buffer_write_fail), Err(PodError::OutOfSpace));
}

#[test]
fn pod_i16() {
    // Read success
    let buffer_read = {
        let mut buffer_read = vec![255u8; <i16 as Pod>::size() * 2];
        buffer_read[<i16 as Pod>::size()..].clone_from_slice(&vec![0u8; <i16 as Pod>::size()]);
        buffer_read[(<i16 as Pod>::size() * 2) - 1] = 1u8;
        buffer_read
    };

    assert_eq!(<i16 as Pod>::from_le_bytes(&buffer_read), Ok(-1i16));
    assert_eq!(<i16 as Pod>::from_be_bytes(&buffer_read), Ok(-1i16));
    assert_eq!(<i16 as Pod>::from_le_bytes(&buffer_read[<i16 as Pod>::size()..]), Ok(256i16));
    assert_eq!(<i16 as Pod>::from_be_bytes(&buffer_read[<i16 as Pod>::size()..]), Ok(1i16));

    // Read fail
    let buffer_read_fail = vec![0u8; <i16 as Pod>::size() - 1];

    assert_eq!(<i16 as Pod>::from_le_bytes(&buffer_read_fail), Err(PodError::OutOfSpace));
    assert_eq!(<i16 as Pod>::from_be_bytes(&buffer_read_fail), Err(PodError::OutOfSpace));

    // Write success
    let mut buffer_write1 = vec![0u8; <i16 as Pod>::size() * 2];
    let mut buffer_write2 = vec![1u8; <i16 as Pod>::size() * 2];

    assert_eq!(
        <i16 as Pod>::to_le_bytes(&-1, &mut buffer_write1),
        Ok(<i16 as Pod>::size())
    );
    assert_eq!(
        <i16 as Pod>::to_be_bytes(&-1, &mut buffer_write1[<i16 as Pod>::size()..]),
        Ok(<i16 as Pod>::size())
    );
    assert_eq!(
        <i16 as Pod>::to_le_bytes(&256, &mut buffer_write2),
        Ok(<i16 as Pod>::size())
    );
    assert_eq!(
        <i16 as Pod>::to_be_bytes(&1, &mut buffer_write2[<i16 as Pod>::size()..]),
        Ok(<i16 as Pod>::size())
    );

    assert_eq!(&buffer_write1[0..<i16 as Pod>::size()], &buffer_read[0..<i16 as Pod>::size()]);
    assert_eq!(&buffer_write1[<i16 as Pod>::size()..], &buffer_read[0..<i16 as Pod>::size()]);
    assert_eq!(&buffer_write2[0..<i16 as Pod>::size()], &buffer_read[<i16 as Pod>::size()..]);
    assert_eq!(&buffer_write2[<i16 as Pod>::size()..], &buffer_read[<i16 as Pod>::size()..]);

    // Write fail
    let mut buffer_write_fail = vec![0u8; <i16 as Pod>::size() - 1];

    assert_eq!(<i16 as Pod>::to_le_bytes(&1, &mut buffer_write_fail), Err(PodError::OutOfSpace));
    assert_eq!(<i16 as Pod>::to_be_bytes(&1, &mut buffer_write_fail), Err(PodError::OutOfSpace));
}

#[test]
fn pod_i32() {
    // Read success
    let buffer_read = {
        let mut buffer_read = vec![255u8; <i32 as Pod>::size() * 2];
        buffer_read[<i32 as Pod>::size()..].clone_from_slice(&vec![0u8; <i32 as Pod>::size()]);
        buffer_read[(<i32 as Pod>::size() * 2) - 1] = 1u8;
        buffer_read
    };

    assert_eq!(<i32 as Pod>::from_le_bytes(&buffer_read), Ok(-1i32));
    assert_eq!(<i32 as Pod>::from_be_bytes(&buffer_read), Ok(-1i32));
    assert_eq!(<i32 as Pod>::from_le_bytes(&buffer_read[<i32 as Pod>::size()..]), Ok(16777216i32));
    assert_eq!(<i32 as Pod>::from_be_bytes(&buffer_read[<i32 as Pod>::size()..]), Ok(1i32));

    // Read fail
    let buffer_read_fail = vec![0u8; <i32 as Pod>::size() - 1];

    assert_eq!(<i32 as Pod>::from_le_bytes(&buffer_read_fail), Err(PodError::OutOfSpace));
    assert_eq!(<i32 as Pod>::from_be_bytes(&buffer_read_fail), Err(PodError::OutOfSpace));

    // Write success
    let mut buffer_write1 = vec![0u8; <i32 as Pod>::size() * 2];
    let mut buffer_write2 = vec![1u8; <i32 as Pod>::size() * 2];

    assert_eq!(
        <i32 as Pod>::to_le_bytes(&-1, &mut buffer_write1),
        Ok(<i32 as Pod>::size())
    );
    assert_eq!(
        <i32 as Pod>::to_be_bytes(&-1, &mut buffer_write1[<i32 as Pod>::size()..]),
        Ok(<i32 as Pod>::size())
    );
    assert_eq!(
        <i32 as Pod>::to_le_bytes(&16777216, &mut buffer_write2),
        Ok(<i32 as Pod>::size())
    );
    assert_eq!(
        <i32 as Pod>::to_be_bytes(&1, &mut buffer_write2[<i32 as Pod>::size()..]),
        Ok(<i32 as Pod>::size())
    );

    assert_eq!(&buffer_write1[0..<i32 as Pod>::size()], &buffer_read[0..<i32 as Pod>::size()]);
    assert_eq!(&buffer_write1[<i32 as Pod>::size()..], &buffer_read[0..<i32 as Pod>::size()]);
    assert_eq!(&buffer_write2[0..<i32 as Pod>::size()], &buffer_read[<i32 as Pod>::size()..]);
    assert_eq!(&buffer_write2[<i32 as Pod>::size()..], &buffer_read[<i32 as Pod>::size()..]);

    // Write fail
    let mut buffer_write_fail = vec![0u8; <i32 as Pod>::size() - 1];

    assert_eq!(<i32 as Pod>::to_le_bytes(&1, &mut buffer_write_fail), Err(PodError::OutOfSpace));
    assert_eq!(<i32 as Pod>::to_be_bytes(&1, &mut buffer_write_fail), Err(PodError::OutOfSpace));
}

#[test]
fn pod_i64() {
    // Read success
    let buffer_read = {
        let mut buffer_read = vec![255u8; <i64 as Pod>::size() * 2];
        buffer_read[<i64 as Pod>::size()..].clone_from_slice(&vec![0u8; <i64 as Pod>::size()]);
        buffer_read[(<i64 as Pod>::size() * 2) - 1] = 1u8;
        buffer_read
    };

    assert_eq!(<i64 as Pod>::from_le_bytes(&buffer_read), Ok(-1i64));
    assert_eq!(<i64 as Pod>::from_be_bytes(&buffer_read), Ok(-1i64));
    assert_eq!(<i64 as Pod>::from_le_bytes(&buffer_read[<i64 as Pod>::size()..]), Ok(72057594037927936i64));
    assert_eq!(<i64 as Pod>::from_be_bytes(&buffer_read[<i64 as Pod>::size()..]), Ok(1i64));

    // Read fail
    let buffer_read_fail = vec![0u8; <i64 as Pod>::size() - 1];

    assert_eq!(<i64 as Pod>::from_le_bytes(&buffer_read_fail), Err(PodError::OutOfSpace));
    assert_eq!(<i64 as Pod>::from_be_bytes(&buffer_read_fail), Err(PodError::OutOfSpace));

    // Write success
    let mut buffer_write1 = vec![0u8; <i64 as Pod>::size() * 2];
    let mut buffer_write2 = vec![1u8; <i64 as Pod>::size() * 2];

    assert_eq!(
        <i64 as Pod>::to_le_bytes(&-1, &mut buffer_write1),
        Ok(<i64 as Pod>::size())
    );
    assert_eq!(
        <i64 as Pod>::to_be_bytes(&-1, &mut buffer_write1[<i64 as Pod>::size()..]),
        Ok(<i64 as Pod>::size())
    );
    assert_eq!(
        <i64 as Pod>::to_le_bytes(&72057594037927936, &mut buffer_write2),
        Ok(<i64 as Pod>::size())
    );
    assert_eq!(
        <i64 as Pod>::to_be_bytes(&1, &mut buffer_write2[<i64 as Pod>::size()..]),
        Ok(<i64 as Pod>::size())
    );

    assert_eq!(&buffer_write1[0..<i64 as Pod>::size()], &buffer_read[0..<i64 as Pod>::size()]);
    assert_eq!(&buffer_write1[<i64 as Pod>::size()..], &buffer_read[0..<i64 as Pod>::size()]);
    assert_eq!(&buffer_write2[0..<i64 as Pod>::size()], &buffer_read[<i64 as Pod>::size()..]);
    assert_eq!(&buffer_write2[<i64 as Pod>::size()..], &buffer_read[<i64 as Pod>::size()..]);

    // Write fail
    let mut buffer_write_fail = vec![0u8; <i64 as Pod>::size() - 1];

    assert_eq!(<i64 as Pod>::to_le_bytes(&1, &mut buffer_write_fail), Err(PodError::OutOfSpace));
    assert_eq!(<i64 as Pod>::to_be_bytes(&1, &mut buffer_write_fail), Err(PodError::OutOfSpace));
}

#[test]
fn pod_i128() {
    // Read success
    let buffer_read = {
        let mut buffer_read = vec![255u8; <i128 as Pod>::size() * 2];
        buffer_read[<i128 as Pod>::size()..].clone_from_slice(&vec![0u8; <i128 as Pod>::size()]);
        buffer_read[(<i128 as Pod>::size() * 2) - 1] = 1u8;
        buffer_read
    };

    assert_eq!(<i128 as Pod>::from_le_bytes(&buffer_read), Ok(-1i128));
    assert_eq!(<i128 as Pod>::from_be_bytes(&buffer_read), Ok(-1i128));
    assert_eq!(<i128 as Pod>::from_le_bytes(&buffer_read[<i128 as Pod>::size()..]), Ok(1329227995784915872903807060280344576i128));
    assert_eq!(<i128 as Pod>::from_be_bytes(&buffer_read[<i128 as Pod>::size()..]), Ok(1i128));

    // Read fail
    let buffer_read_fail = vec![0u8; <i128 as Pod>::size() - 1];

    assert_eq!(<i128 as Pod>::from_le_bytes(&buffer_read_fail), Err(PodError::OutOfSpace));
    assert_eq!(<i128 as Pod>::from_be_bytes(&buffer_read_fail), Err(PodError::OutOfSpace));

    // Write success
    let mut buffer_write1 = vec![0u8; <i128 as Pod>::size() * 2];
    let mut buffer_write2 = vec![1u8; <i128 as Pod>::size() * 2];

    assert_eq!(
        <i128 as Pod>::to_le_bytes(&-1, &mut buffer_write1),
        Ok(<i128 as Pod>::size())
    );
    assert_eq!(
        <i128 as Pod>::to_be_bytes(&-1, &mut buffer_write1[<i128 as Pod>::size()..]),
        Ok(<i128 as Pod>::size())
    );
    assert_eq!(
        <i128 as Pod>::to_le_bytes(&1329227995784915872903807060280344576, &mut buffer_write2),
        Ok(<i128 as Pod>::size())
    );
    assert_eq!(
        <i128 as Pod>::to_be_bytes(&1, &mut buffer_write2[<i128 as Pod>::size()..]),
        Ok(<i128 as Pod>::size())
    );

    assert_eq!(&buffer_write1[0..<i128 as Pod>::size()], &buffer_read[0..<i128 as Pod>::size()]);
    assert_eq!(&buffer_write1[<i128 as Pod>::size()..], &buffer_read[0..<i128 as Pod>::size()]);
    assert_eq!(&buffer_write2[0..<i128 as Pod>::size()], &buffer_read[<i128 as Pod>::size()..]);
    assert_eq!(&buffer_write2[<i128 as Pod>::size()..], &buffer_read[<i128 as Pod>::size()..]);

    // Write fail
    let mut buffer_write_fail = vec![0u8; <i128 as Pod>::size() - 1];

    assert_eq!(<i128 as Pod>::to_le_bytes(&1, &mut buffer_write_fail), Err(PodError::OutOfSpace));
    assert_eq!(<i128 as Pod>::to_be_bytes(&1, &mut buffer_write_fail), Err(PodError::OutOfSpace));
}

#[test]
fn pod_arrays() {
    // Read success
    let buffer_read = [1u8, 0u8, 0u8, 1u8];

    assert_eq!(<[bool; 2] as Pod>::from_le_bytes(&buffer_read), Ok([true, false]));
    assert_eq!(<[bool; 2] as Pod>::from_be_bytes(&buffer_read), Ok([true, false]));
    assert_eq!(
        <[bool; 2] as Pod>::from_le_bytes(&buffer_read[<[bool; 2] as Pod>::size()..]),
        Ok([false, true])
    );
    assert_eq!(
        <[bool; 2] as Pod>::from_be_bytes(&buffer_read[<[bool; 2] as Pod>::size()..]),
        Ok([false, true])
    );

    // Read fail
    let buffer_read_fail = vec![0u8; <[bool; 2] as Pod>::size() - 1];

    assert_eq!(<[bool; 2] as Pod>::from_le_bytes(&buffer_read_fail), Err(PodError::OutOfSpace));
    assert_eq!(<[bool; 2] as Pod>::from_be_bytes(&buffer_read_fail), Err(PodError::OutOfSpace));

    let buffer_read_fail_out_of_range = [2u8, 0u8];

    assert_eq!(
        <[bool; 2] as Pod>::from_le_bytes(&buffer_read_fail_out_of_range),
        Err(PodError::OutOfRange)
    );
    assert_eq!(
        <[bool; 2] as Pod>::from_be_bytes(&buffer_read_fail_out_of_range),
        Err(PodError::OutOfRange)
    );

    // Write success
    let mut buffer_write1 = vec![0u8; <[bool; 2] as Pod>::size() * 2];
    let mut buffer_write2 = vec![1u8; <[bool; 2] as Pod>::size() * 2];

    assert_eq!(
        <[bool; 2] as Pod>::to_le_bytes(&[true, false], &mut buffer_write1),
        Ok(<[bool; 2] as Pod>::size())
    );
    assert_eq!(
        <[bool; 2] as Pod>::to_be_bytes(&[true, false], &mut buffer_write1[<[bool; 2] as Pod>::size()..]),
        Ok(<[bool; 2] as Pod>::size())
    );
    assert_eq!(
        <[bool; 2] as Pod>::to_le_bytes(&[false, true], &mut buffer_write2),
        Ok(<[bool; 2] as Pod>::size())
    );
    assert_eq!(
        <[bool; 2] as Pod>::to_be_bytes(&[false, true], &mut buffer_write2[<[bool; 2] as Pod>::size()..]),
        Ok(<[bool; 2] as Pod>::size())
    );

    assert_eq!(&buffer_write1[0..<[bool; 2] as Pod>::size()], &buffer_read[0..<[bool; 2] as Pod>::size()]);
    assert_eq!(&buffer_write1[<[bool; 2] as Pod>::size()..], &buffer_read[0..<[bool; 2] as Pod>::size()]);
    assert_eq!(&buffer_write2[0..<[bool; 2] as Pod>::size()], &buffer_read[<[bool; 2] as Pod>::size()..]);
    assert_eq!(&buffer_write2[<[bool; 2] as Pod>::size()..], &buffer_read[<[bool; 2] as Pod>::size()..]);

    // Write fail
    let mut buffer_write_fail = vec![0u8; <[bool; 2] as Pod>::size() - 1];

    assert_eq!(
        <[bool; 2] as Pod>::to_le_bytes(&[false, false], &mut buffer_write_fail),
        Err(PodError::OutOfSpace)
    );
    assert_eq!(
        <[bool; 2] as Pod>::to_be_bytes(&[false, false], &mut buffer_write_fail),
        Err(PodError::OutOfSpace)
    );
}
