use prest::alt::Alt;
use prest::alt_set::AltSet;
use prest::codec::{decode_from_memory, decode_iterator, decode_varint, encode_iterator, encode_to_memory, encode_varint, Decode, Encode, Error, Packed};
use std::fmt::Debug;

#[test]
fn codec() {
    fn case<T: Encode + Decode + PartialEq + Debug>(x: &T) {
        assert_eq!(x, &decode_from_memory::<T>(&encode_to_memory::<T>(x)).unwrap());
    }

    case(&0u8);
    case(&0u16);
    case(&127u8);
    case(&127u16);
    case(&128u8);
    case(&128u16);
    case(&129u8);
    case(&129u16);
    case(&255u8);
    case(&255u16);
    case(&u8::max_value());
    case(&u16::max_value());
    case(&u32::max_value());
    case(&u64::max_value());
    case(&usize::max_value());
}

#[test]
fn varint_bytes() {
    let mut out = Vec::new();
    encode_varint(300, &mut out);
    assert_eq!(out, vec![0xAC, 0x02]);
    assert_eq!(decode_varint(&out, 0, 64), Ok((300, 2)));
    assert_eq!(decode_varint(&[0x80, 0x00], 0, 64), Ok((0, 2)));
    assert_eq!(decode_varint(&[0x80], 0, 64), Err(Error::IO));
    // 2^16 does not fit in sixteen bits
    assert_eq!(decode_varint(&[0x80, 0x80, 0x04], 0, 16), Err(Error::Overflow));
    let mut max = Vec::new();
    encode_varint(u64::MAX, &mut max);
    assert_eq!(max.len(), 10);
    assert_eq!(decode_varint(&max, 0, 64), Ok((u64::MAX, 10)));
    max[9] = 2;
    assert_eq!(decode_varint(&max, 0, 64), Err(Error::Overflow));
}

#[test]
fn alt_set_encoding_round_trip() {
    let s = AltSet::from_alts(&[Alt(3), Alt(40), Alt(1)]);
    let bytes = encode_to_memory(&s);
    assert_eq!(bytes, vec![3, 1, 3, 40]);
    assert_eq!(decode_from_memory::<AltSet>(&bytes).unwrap(), s);
    assert_eq!(decode_from_memory::<bool>(&[2]), Err(Error::BadEnumTag));
}

#[test]
fn iterator_and_packed() {
    let mut out = Vec::new();
    encode_iterator(&[5u32, 300], &mut out);
    assert_eq!(out, vec![1, 5, 1, 0xAC, 0x02, 0]);
    let (items, end) = decode_iterator::<u32>(&out, 0).unwrap();
    assert_eq!(items, vec![5, 300]);
    assert_eq!(end, out.len());
    let packed = Packed(300u32);
    let bytes = encode_to_memory(&packed);
    assert_eq!(bytes, vec![2, 0xAC, 0x02]);
    assert_eq!(*decode_from_memory::<Packed<u32>>(&bytes).unwrap().unpack(), 300);
    assert_eq!(Packed(7u8).into_unpacked(), 7);
}
