use std::mem::discriminant;

use darkfi_core::error::Error;
use darkfi_core::serial::{
    deserialize, deserialize_partial, encode_with_size, serialize, serialize_hex, Decodable,
    Encodable, VarInt,
};

fn u16_to_array_le(x: u16) -> [u8; 2] {
    x.to_le_bytes()
}

fn u32_to_array_le(x: u32) -> [u8; 4] {
    x.to_le_bytes()
}

fn u64_to_array_le(x: u64) -> [u8; 8] {
    x.to_le_bytes()
}

#[test]
fn serialize_int_test() {
    // bool
    assert_eq!(serialize(&false), vec![0u8]);
    assert_eq!(serialize(&true), vec![1u8]);
    // u8
    assert_eq!(serialize(&1u8), vec![1u8]);
    assert_eq!(serialize(&0u8), vec![0u8]);
    assert_eq!(serialize(&255u8), vec![255u8]);
    // u16
    assert_eq!(serialize(&1u16), vec![1u8, 0]);
    assert_eq!(serialize(&256u16), vec![0u8, 1]);
    assert_eq!(serialize(&5000u16), vec![136u8, 19]);
    // u32
    assert_eq!(serialize(&1u32), vec![1u8, 0, 0, 0]);
    assert_eq!(serialize(&256u32), vec![0u8, 1, 0, 0]);
    assert_eq!(serialize(&5000u32), vec![136u8, 19, 0, 0]);
    assert_eq!(serialize(&500000u32), vec![32u8, 161, 7, 0]);
    assert_eq!(serialize(&168430090u32), vec![10u8, 10, 10, 10]);
    // i32
    assert_eq!(serialize(&-1i32), vec![255u8, 255, 255, 255]);
    assert_eq!(serialize(&-256i32), vec![0u8, 255, 255, 255]);
    assert_eq!(serialize(&-5000i32), vec![120u8, 236, 255, 255]);
    assert_eq!(serialize(&-500000i32), vec![224u8, 94, 248, 255]);
    assert_eq!(serialize(&-168430090i32), vec![246u8, 245, 245, 245]);
    assert_eq!(serialize(&1i32), vec![1u8, 0, 0, 0]);
    assert_eq!(serialize(&256i32), vec![0u8, 1, 0, 0]);
    assert_eq!(serialize(&5000i32), vec![136u8, 19, 0, 0]);
    assert_eq!(serialize(&500000i32), vec![32u8, 161, 7, 0]);
    assert_eq!(serialize(&168430090i32), vec![10u8, 10, 10, 10]);
    // u64
    assert_eq!(serialize(&1u64), vec![1u8, 0, 0, 0, 0, 0, 0, 0]);
    assert_eq!(serialize(&256u64), vec![0u8, 1, 0, 0, 0, 0, 0, 0]);
    assert_eq!(serialize(&5000u64), vec![136u8, 19, 0, 0, 0, 0, 0, 0]);
    assert_eq!(serialize(&500000u64), vec![32u8, 161, 7, 0, 0, 0, 0, 0]);
    assert_eq!(serialize(&723401728380766730u64), vec![10u8, 10, 10, 10, 10, 10, 10, 10]);
    // i64
    assert_eq!(serialize(&-1i64), vec![255u8, 255, 255, 255, 255, 255, 255, 255]);
    assert_eq!(serialize(&-256i64), vec![0u8, 255, 255, 255, 255, 255, 255, 255]);
    assert_eq!(serialize(&-5000i64), vec![120u8, 236, 255, 255, 255, 255, 255, 255]);
    assert_eq!(serialize(&-500000i64), vec![224u8, 94, 248, 255, 255, 255, 255, 255]);
    assert_eq!(
        serialize(&-723401728380766730i64),
        vec![246u8, 245, 245, 245, 245, 245, 245, 245]
    );
    assert_eq!(serialize(&1i64), vec![1u8, 0, 0, 0, 0, 0, 0, 0]);
    assert_eq!(serialize(&256i64), vec![0u8, 1, 0, 0, 0, 0, 0, 0]);
    assert_eq!(serialize(&5000i64), vec![136u8, 19, 0, 0, 0, 0, 0, 0]);
    assert_eq!(serialize(&500000i64), vec![32u8, 161, 7, 0, 0, 0, 0, 0]);
    assert_eq!(serialize(&723401728380766730i64), vec![10u8, 10, 10, 10, 10, 10, 10, 10]);
}

#[test]
fn serialize_varint_test() {
    assert_eq!(serialize(&VarInt(10)), vec![10u8]);
    assert_eq!(serialize(&VarInt(0xFC)), vec![0xFCu8]);
    assert_eq!(serialize(&VarInt(0xFD)), vec![0xFDu8, 0xFD, 0]);
    assert_eq!(serialize(&VarInt(0xFFF)), vec![0xFDu8, 0xFF, 0xF]);
    assert_eq!(serialize(&VarInt(0xF0F0F0F)), vec![0xFEu8, 0xF, 0xF, 0xF, 0xF]);
    assert_eq!(
        serialize(&VarInt(0xF0F0F0F0F0E0)),
        vec![0xFFu8, 0xE0, 0xF0, 0xF0, 0xF0, 0xF0, 0xF0, 0, 0]
    );
    assert_eq!(
        test_varint_encode(0xFF, &u64_to_array_le(0x100000000)).unwrap(),
        VarInt(0x100000000)
    );
    assert_eq!(test_varint_encode(0xFE, &u64_to_array_le(0x10000)).unwrap(), VarInt(0x10000));
    assert_eq!(test_varint_encode(0xFD, &u64_to_array_le(0xFD)).unwrap(), VarInt(0xFD));

    // Test that length calc is working correctly
    test_varint_len(VarInt(0), 1);
    test_varint_len(VarInt(0xFC), 1);
    test_varint_len(VarInt(0xFD), 3);
    test_varint_len(VarInt(0xFFFF), 3);
    test_varint_len(VarInt(0x10000), 5);
    test_varint_len(VarInt(0xFFFFFFFF), 5);
    test_varint_len(VarInt(0xFFFFFFFF + 1), 9);
    test_varint_len(VarInt(u64::MAX), 9);
}

fn test_varint_len(varint: VarInt, expected: usize) {
    let mut encoder = vec![];
    assert_eq!(varint.encode(&mut encoder), expected);
    assert_eq!(varint.length(), expected);
}

fn test_varint_encode(n: u8, x: &[u8]) -> Result<VarInt, Error> {
    let mut input = [0u8; 9];
    input[0] = n;
    input[1..x.len() + 1].copy_from_slice(x);
    deserialize_partial::<VarInt>(&input).map(|t| t.0)
}

#[test]
fn deserialize_nonminimal_vec() {
    // Check the edges for variant int
    assert_eq!(
        discriminant(&test_varint_encode(0xFF, &u64_to_array_le(0x100000000 - 1)).unwrap_err()),
        discriminant(&Error::NonMinimalVarInt)
    );
    assert_eq!(
        discriminant(&test_varint_encode(0xFE, &u32_to_array_le(0x10000 - 1)).unwrap_err()),
        discriminant(&Error::NonMinimalVarInt)
    );
    assert_eq!(
        discriminant(&test_varint_encode(0xFD, &u16_to_array_le(0xFD - 1)).unwrap_err()),
        discriminant(&Error::NonMinimalVarInt)
    );

    assert_eq!(
        discriminant(&deserialize::<Vec<u8>>(&[0xfd, 0x00, 0x00]).unwrap_err()),
        discriminant(&Error::NonMinimalVarInt)
    );
    assert_eq!(
        discriminant(&deserialize::<Vec<u8>>(&[0xfd, 0xfc, 0x00]).unwrap_err()),
        discriminant(&Error::NonMinimalVarInt)
    );
    assert_eq!(
        discriminant(&deserialize::<Vec<u8>>(&[0xfd, 0xfc, 0x00]).unwrap_err()),
        discriminant(&Error::NonMinimalVarInt)
    );
    assert_eq!(
        discriminant(&deserialize::<Vec<u8>>(&[0xfe, 0xff, 0x00, 0x00, 0x00]).unwrap_err()),
        discriminant(&Error::NonMinimalVarInt)
    );
    assert_eq!(
        discriminant(&deserialize::<Vec<u8>>(&[0xfe, 0xff, 0xff, 0x00, 0x00]).unwrap_err()),
        discriminant(&Error::NonMinimalVarInt)
    );
    assert_eq!(
        discriminant(
            &deserialize::<Vec<u8>>(&[0xff, 0xff, 0x00, 0x00, 0x00, 0x00, 0x00, 0x00, 0x00])
                .unwrap_err()
        ),
        discriminant(&Error::NonMinimalVarInt)
    );
    assert_eq!(
        discriminant(
            &deserialize::<Vec<u8>>(&[0xff, 0xff, 0xff, 0xff, 0x00, 0x00, 0x00, 0x00, 0x00])
                .unwrap_err()
        ),
        discriminant(&Error::NonMinimalVarInt)
    );

    let mut vec_256 = vec![0; 259];
    vec_256[0] = 0xfd;
    vec_256[1] = 0x00;
    vec_256[2] = 0x01;
    assert!(deserialize::<Vec<u8>>(&vec_256).is_ok());

    let mut vec_253 = vec![0; 256];
    vec_253[0] = 0xfd;
    vec_253[1] = 0xfd;
    vec_253[2] = 0x00;
    assert!(deserialize::<Vec<u8>>(&vec_253).is_ok());
}

#[test]
fn serialize_vector_test() {
    assert_eq!(serialize(&vec![1u8, 2, 3]), vec![3u8, 1, 2, 3]);
}

#[test]
fn serialize_strbuf_test() {
    assert_eq!(serialize(&"Andrew".to_string()), vec![6u8, 0x41, 0x6e, 0x64, 0x72, 0x65, 0x77]);
}

#[test]
fn deserialize_int_test() {
    // bool
    assert!(deserialize::<bool>(&[58u8, 0]).is_err());
    assert_eq!(deserialize(&[58u8]).ok(), Some(true));
    assert_eq!(deserialize(&[1u8]).ok(), Some(true));
    assert_eq!(deserialize(&[0u8]).ok(), Some(false));
    assert!(deserialize::<bool>(&[0u8, 1]).is_err());

    // u8
    assert_eq!(deserialize(&[58u8]).ok(), Some(58u8));

    // u16
    assert_eq!(deserialize(&[0x01u8, 0x02]).ok(), Some(0x0201u16));
    assert_eq!(deserialize(&[0xABu8, 0xCD]).ok(), Some(0xCDABu16));
    assert_eq!(deserialize(&[0xA0u8, 0x0D]).ok(), Some(0xDA0u16));
    let failure16: Result<u16, Error> = deserialize(&[1u8]);
    assert!(failure16.is_err());

    // u32
    assert_eq!(deserialize(&[0xABu8, 0xCD, 0, 0]).ok(), Some(0xCDABu32));
    assert_eq!(deserialize(&[0xA0u8, 0x0D, 0xAB, 0xCD]).ok(), Some(0xCDAB0DA0u32));
    let failure32: Result<u32, Error> = deserialize(&[1u8, 2, 3]);
    assert!(failure32.is_err());
    assert_eq!(deserialize(&[0xABu8, 0xCD, 0, 0]).ok(), Some(0xCDABi32));
    assert_eq!(deserialize(&[0xA0u8, 0x0D, 0xAB, 0x2D]).ok(), Some(0x2DAB0DA0i32));
    let failurei32: Result<i32, Error> = deserialize(&[1u8, 2, 3]);
    assert!(failurei32.is_err());

    // u64
    assert_eq!(deserialize(&[0xABu8, 0xCD, 0, 0, 0, 0, 0, 0]).ok(), Some(0xCDABu64));
    assert_eq!(
        deserialize(&[0xA0u8, 0x0D, 0xAB, 0xCD, 0x99, 0, 0, 0x99]).ok(),
        Some(0x99000099CDAB0DA0u64)
    );
    let failure64: Result<u64, Error> = deserialize(&[1u8, 2, 3, 4, 5, 6, 7]);
    assert!(failure64.is_err());
    assert_eq!(deserialize(&[0xABu8, 0xCD, 0, 0, 0, 0, 0, 0]).ok(), Some(0xCDABi64));
    assert_eq!(
        deserialize(&[0xA0u8, 0x0D, 0xAB, 0xCD, 0x99, 0, 0, 0x99]).ok(),
        Some(-0x66ffff663254f260i64)
    );
    let failurei64: Result<i64, Error> = deserialize(&[1u8, 2, 3, 4, 5, 6, 7]);
    assert!(failurei64.is_err());
}

#[test]
fn deserialize_vec_test() {
    assert_eq!(deserialize(&[3u8, 2, 3, 4]).ok(), Some(vec![2u8, 3, 4]));
    assert!(deserialize::<Vec<u8>>(&[4u8, 2, 3, 4, 5, 6]).is_err());
}

#[test]
fn deserialize_strbuf_test() {
    assert_eq!(
        deserialize(&[6u8, 0x41, 0x6e, 0x64, 0x72, 0x65, 0x77]).ok(),
        Some("Andrew".to_string())
    );
    assert_eq!(
        deserialize::<String>(&[6u8, 0x41, 0x6e, 0x64, 0x72, 0x65, 0x77])
            .ok()
            .map(::std::borrow::Cow::Owned),
        Some(::std::borrow::Cow::Borrowed("Andrew"))
    );
}

#[test]
fn varint_round_trip_exact() {
    // every wire-form boundary round-trips exactly
    for v in [0u64, 0xFC, 0xFD, 0xFFFF, 0x10000, 0xFFFFFFFF, u64::MAX] {
        let bytes = serialize(&VarInt(v));
        assert_eq!(deserialize::<VarInt>(&bytes).unwrap(), VarInt(v));
    }
    // a non-minimal encoding is rejected as malformed
    assert_eq!(
        discriminant(&deserialize::<VarInt>(&[0xFD, 0x00, 0x00]).unwrap_err()),
        discriminant(&Error::NonMinimalVarInt)
    );
}

#[test]
fn int_round_trips() {
    let mut buf: Vec<u8> = Vec::new();
    assert_eq!(7u16.encode(&mut buf), 2);
    assert_eq!(u16::decode(&buf, 0).unwrap(), (7u16, 2));

    for v in [i16::MIN, -1, 0, 1, i16::MAX] {
        let bytes = serialize(&v);
        assert_eq!(deserialize::<i16>(&bytes).unwrap(), v);
    }
    for v in [i8::MIN, -1, 0, 1, i8::MAX] {
        let bytes = serialize(&v);
        assert_eq!(deserialize::<i8>(&bytes).unwrap(), v);
    }
    for v in [usize::MIN, 1, usize::MAX] {
        let bytes = serialize(&v);
        assert_eq!(bytes.len(), 8);
        assert_eq!(deserialize::<usize>(&bytes).unwrap(), v);
    }
}

#[test]
fn option_and_pair_round_trips() {
    assert_eq!(serialize(&Some(5000u16)), vec![1u8, 136, 19]);
    assert_eq!(serialize(&None::<u16>), vec![0u8]);
    assert_eq!(deserialize::<Option<u16>>(&[1u8, 136, 19]).unwrap(), Some(5000u16));
    assert_eq!(deserialize::<Option<u16>>(&[0u8]).unwrap(), None);

    let pair = (5000u16, true);
    assert_eq!(serialize(&pair), vec![136u8, 19, 1]);
    assert_eq!(deserialize::<(u16, bool)>(&[136u8, 19, 1]).unwrap(), pair);

    let opts: Vec<Option<u8>> = vec![Some(7), None, Some(9)];
    let bytes = serialize(&opts);
    assert_eq!(bytes, vec![3u8, 1, 7, 0, 1, 9]);
    assert_eq!(deserialize::<Vec<Option<u8>>>(&bytes).unwrap(), opts);
}

#[test]
fn string_decode_rejects_invalid_utf8() {
    // 0xFF is never valid UTF-8: an identity decoder would accept it
    assert_eq!(
        discriminant(&deserialize::<String>(&[1u8, 0xFF]).unwrap_err()),
        discriminant(&Error::ParseFailed)
    );
    // trailing bytes are rejected
    assert_eq!(
        discriminant(&deserialize::<u8>(&[1u8, 2]).unwrap_err()),
        discriminant(&Error::ParseFailed)
    );
    // truncated input is an end-of-input error
    assert_eq!(
        discriminant(&deserialize::<u16>(&[1u8]).unwrap_err()),
        discriminant(&Error::Io)
    );
}

#[test]
fn serialize_hex_test() {
    assert_eq!(serialize_hex(&5000u16), "8813");
    assert_eq!(serialize_hex(&vec![1u8, 2, 3]), "03010203");
}

#[test]
fn encode_with_size_test() {
    let mut buf: Vec<u8> = Vec::new();
    let n = encode_with_size(&[9u8, 8, 7], &mut buf);
    assert_eq!(n, 4);
    assert_eq!(buf, vec![3u8, 9, 8, 7]);
    assert_eq!(deserialize::<Vec<u8>>(&buf).unwrap(), vec![9u8, 8, 7]);
}
