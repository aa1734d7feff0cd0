//! Unit tests of the value codecs and the small utility types.

use linkstore::{
    calc_padding, DecodeLinkstore, EmbeddedValueIterator, EncodeLinkstore, MaybeScalar,
    TryDecodeLinkstore, TryDecodeLinkstoreArrayError, VolatileWrapper,
};

#[test]
fn unsigned_encodings() {
    assert_eq!(0x0102u16.as_le_bytes().into_vec(), vec![2, 1]);
    assert_eq!(0x0102u16.as_be_bytes().into_vec(), vec![1, 2]);
    assert_eq!(0xDEADBEEFu32.as_le_bytes().into_vec(), vec![0xEF, 0xBE, 0xAD, 0xDE]);
    assert_eq!(0xDEADBEEFu32.as_be_bytes().into_vec(), vec![0xDE, 0xAD, 0xBE, 0xEF]);
    assert_eq!(1u128.as_le_bytes().into_vec()[0], 1);
    assert_eq!(1u128.as_le_bytes().into_vec().len(), 16);
    assert_eq!(7u8.as_le_bytes().into_vec(), vec![7]);
    let eb = 0x0001u16.as_le_bytes();
    assert_eq!(eb.len(), 2);
    assert_eq!(eb.as_slice(), &[1, 0]);
}

#[test]
fn signed_encodings_are_twos_complement() {
    assert_eq!((-1i8).as_le_bytes().into_vec(), vec![0xFF]);
    assert_eq!((-2i16).as_le_bytes().into_vec(), vec![0xFE, 0xFF]);
    assert_eq!((-2i16).as_be_bytes().into_vec(), vec![0xFF, 0xFE]);
    assert_eq!((-1i32).as_le_bytes().into_vec(), vec![0xFF; 4]);
    assert_eq!(i64::MIN.as_le_bytes().into_vec(), {
        let mut v = vec![0u8; 8];
        v[7] = 0x80;
        v
    });
    assert_eq!((-1i128).as_le_bytes().into_vec(), vec![0xFF; 16]);
}

#[test]
fn bool_and_array_encodings() {
    assert_eq!(true.as_le_bytes().into_vec(), vec![1]);
    assert_eq!(false.as_le_bytes().into_vec(), vec![0]);
    assert_eq!([0x0102u16, 0x0304].as_le_bytes().into_vec(), vec![2, 1, 4, 3]);
    assert_eq!([0x0102u16, 0x0304].as_be_bytes().into_vec(), vec![1, 2, 3, 4]);
    assert_eq!(<[u16; 2]>::byte_size(), 4);
}

#[test]
fn decodings_invert_encodings() {
    assert_eq!(<u64 as DecodeLinkstore>::from_le_bytes(&0xDEADBEEF_u64.to_le_bytes()), 0xDEADBEEF);
    assert_eq!(<u64 as DecodeLinkstore>::from_be_bytes(&0xDEADBEEF_u64.to_be_bytes()), 0xDEADBEEF);
    assert_eq!(<i32 as DecodeLinkstore>::from_le_bytes(&(-123456i32).to_le_bytes()), -123456);
    assert_eq!(<i32 as DecodeLinkstore>::from_be_bytes(&(-123456i32).to_be_bytes()), -123456);
    assert_eq!(<i128 as DecodeLinkstore>::from_le_bytes(&i128::MIN.to_le_bytes()), i128::MIN);
    assert_eq!(
        <u128 as DecodeLinkstore>::from_le_bytes(&(u128::MAX / 2).to_le_bytes()),
        u128::MAX / 2
    );
    assert_eq!(<bool as DecodeLinkstore>::from_le_bytes(&[0]), false);
    assert_eq!(<bool as DecodeLinkstore>::from_le_bytes(&[3]), true);
}

#[test]
fn try_decodings_check_sizes() {
    assert_eq!(u32::try_from_le_bytes(&[1, 0, 0, 0]), Ok(1u32));
    assert_eq!(
        u32::try_from_le_bytes(&[1, 0]),
        Err(TryDecodeLinkstoreArrayError::MismatchedBytesCount(2, 4))
    );
    assert_eq!(<[u16; 2]>::try_from_le_bytes(&[2, 1, 4, 3]), Ok([0x0102u16, 0x0304]));
    assert_eq!(<[u16; 2]>::try_from_be_bytes(&[1, 2, 3, 4]), Ok([0x0102u16, 0x0304]));
    assert_eq!(
        <[u16; 2]>::try_from_le_bytes(&[1, 2, 3]),
        Err(TryDecodeLinkstoreArrayError::MismatchedBytesCount(3, 2))
    );
    assert_eq!(
        <[u16; 4]>::try_from_le_bytes(&[1, 2, 3, 4]),
        Err(TryDecodeLinkstoreArrayError::MismatchedElementCount(2, 4))
    );
}

#[test]
fn maybe_scalar_as_vec() {
    let s: MaybeScalar<u32> = MaybeScalar::Scalar(7);
    assert_eq!(s.as_vec(), vec![7]);
    let m: MaybeScalar<u32> = MaybeScalar::Many(vec![1, 2, 3]);
    assert_eq!(m.len(), 3);
    assert_eq!(m.as_vec(), vec![1, 2, 3]);
}

#[test]
fn volatile_wrapper_and_padding() {
    let w = VolatileWrapper::new(0xABCDu32);
    assert_eq!(*w.get(), 0xABCD);
    // A container of 40 bytes for a name of 4 and an 8-byte payload with
    // 8-byte words: 40 - 6 - 16 - 8 = 10 pad bytes.
    assert_eq!(calc_padding(40, 4, 8, 8), 10);
}

#[test]
fn value_iterator_hands_out_in_order() {
    let mut it = EmbeddedValueIterator::new(vec![10u32, 20, 30]);
    assert_eq!(it.count_left(), 3);
    assert_eq!(it.next(), Some(10));
    assert_eq!(it.next(), Some(20));
    assert_eq!(it.next(), Some(30));
    assert_eq!(it.next(), None);
}
