use varint_codec::{
    compress, compress_list, decompress, decompress_list, decompress_n, DecodeError,
};

#[test]
fn simple1() {
    let i = 36;
    let c = compress(i);
    let (d, rest) = decompress(&c).unwrap();
    assert_eq!(i, d);
    assert!(rest.is_empty(), "no rest should be remaining.");
}

#[test]
fn simple0() {
    let i = 0;
    let c = compress(i);
    let (d, rest) = decompress(&c).unwrap();
    assert_eq!(i, d);
    assert!(rest.is_empty(), "no rest should be remaining.");
}

#[test]
fn simple2() {
    let i = 2;
    let c = compress(i);
    let (d, rest) = decompress(&c).unwrap();
    assert_eq!(i, d);
    assert!(rest.is_empty(), "no rest should be remaining.");
}

#[test]
fn simple3() {
    let i = 3;
    let c = compress(i);
    let (d, rest) = decompress(&c).unwrap();
    assert_eq!(i, d);
    assert!(rest.is_empty(), "no rest should be remaining.");
}

#[test]
fn simple32() {
    let i = 32;
    let c = compress(i);
    let (d, rest) = decompress(&c).unwrap();
    assert_eq!(i, d);
    assert!(rest.is_empty(), "no rest should be remaining.");
}

#[test]
fn simple64() {
    let i = 64;
    let c = compress(i);
    let (d, rest) = decompress(&c).unwrap();
    assert_eq!(i, d);
    assert!(rest.is_empty(), "no rest should be remaining.");
}

#[test]
fn simple65() {
    let i = 65;
    let c = compress(i);
    let (d, rest) = decompress(&c).unwrap();
    assert_eq!(i, d);
    assert!(rest.is_empty(), "no rest should be remaining.");
}

#[test]
fn simple127() {
    let i = 127;
    let c = compress(i);
    let (d, rest) = decompress(&c).unwrap();
    assert_eq!(i, d);
    assert!(rest.is_empty(), "no rest should be remaining.");
}

#[test]
fn simple128() {
    let i = 128;
    let c = compress(i);
    let (d, rest) = decompress(&c).unwrap();
    assert_eq!(i, d);
    assert!(rest.is_empty(), "no rest should be remaining.");
}

#[test]
fn simple244() {
    let i = 244;
    let c = compress(i);
    let (d, rest) = decompress(&c).unwrap();
    assert_eq!(i, d);
    assert!(rest.is_empty(), "no rest should be remaining.");
}

#[test]
fn simple12341234() {
    let i = 12341234;
    let c = compress(i);
    let (d, rest) = decompress(&c).unwrap();
    assert_eq!(i, d);
    assert!(rest.is_empty(), "no rest should be remaining.");
}

#[test]
fn test_set() {
    let ints = [
        2134123213213u64,
        2313,
        3,
        3213,
        21321,
        3213,
        213,
        213,
        5435,
        5654,
        6,
        5437,
        567,
        3465241345,
        677,
        90,
        98765,
        4,
        324567897654321,
        3456,
        7754,
        32,
        4567,
        432,
        56789654321,
        4,
        5678906543,
        256,
        7895432,
        56789654,
        3256,
        78543,
    ];

    for i in ints {
        let c = compress(i);
        let (d, rest) = decompress(&c).unwrap();

        assert_eq!(d, i);
        assert_eq!(rest, Vec::new());
    }

    // now test if rest is parsed correctly

    for i in ints {
        let mut c = compress(i);
        c.push(1);
        c.push(2);
        c.push(3);
        c.push(4);
        let (d, rest) = decompress(&c).unwrap();

        assert_eq!(d, i);
        assert_eq!(rest, vec![1, 2, 3, 4]);
    }
}

#[test]
fn list_compression() {
    let list = (0..100000).map(|n| n * 13).collect::<Vec<u64>>();
    let c = compress_list(&list);
    let d = decompress_list(&c).unwrap();

    assert_eq!(d, list);
}

#[test]
fn compression_fuzzing() {
    let list = (0..100000u64).map(|n| n * 13);
    for elem in list {
        let c = compress(elem);
        let (d, rest) = decompress(&c).unwrap();

        assert_eq!(d, elem);
        assert!(rest.is_empty(), "no data should be remaining.");
    }
}

#[test]
fn boundary_values_encode_to_documented_lengths() {
    let cases: [(u64, usize); 6] = [(0, 1), (1, 1), (127, 1), (128, 2), (16383, 2), (16384, 3)];
    for (v, len) in cases {
        let c = compress(v);
        assert_eq!(c.len(), len);
        let (d, rest) = decompress(&c).unwrap();
        assert_eq!(d, v);
        assert!(rest.is_empty());
    }
}

#[test]
fn wire_format_is_exact() {
    assert_eq!(compress(0), vec![0x00]);
    assert_eq!(compress(1), vec![0x01]);
    assert_eq!(compress(127), vec![0x7f]);
    assert_eq!(compress(128), vec![0x80, 0x01]);
    assert_eq!(compress(300), vec![0xac, 0x02]);
    assert_eq!(compress(16384), vec![0x80, 0x80, 0x01]);
}

#[test]
fn largest_value_round_trips() {
    let c = compress(u64::MAX);
    assert_eq!(c.len(), 10);
    let (d, rest) = decompress(&c).unwrap();
    assert_eq!(d, u64::MAX);
    assert!(rest.is_empty());
}

#[test]
fn rest_is_returned_untouched() {
    let mut c = compress(123456789);
    c.extend_from_slice(&[9, 8, 7]);
    let (d, rest) = decompress(&c).unwrap();
    assert_eq!(d, 123456789);
    assert_eq!(rest, &[9, 8, 7]);
}

#[test]
fn truncated_input_fails() {
    assert_eq!(decompress(&[0x80]), Err(DecodeError::TruncatedInput));
    assert_eq!(decompress(&[]), Err(DecodeError::TruncatedInput));
    assert_eq!(decompress(&[0xff, 0x80, 0x81]), Err(DecodeError::TruncatedInput));
}

#[test]
fn empty_list_decodes_to_empty() {
    assert_eq!(decompress_list(&[]).unwrap(), Vec::<u64>::new());
}

#[test]
fn spec_example_list_round_trips() {
    let list: Vec<u64> = vec![0, 13, 130, 16769023];
    let c = compress_list(&list);
    assert_eq!(decompress_list(&c).unwrap(), list);
}

#[test]
fn list_fails_on_trailing_truncation() {
    let mut buf = compress_list(&[7u64, 8]);
    buf.push(0x80);
    assert_eq!(decompress_list(&buf), Err(DecodeError::TruncatedInput));
}

#[test]
fn fixed_count_returns_values_and_rest() {
    let values = [3u64, 0, 500, u64::MAX];
    let buf = compress_list(&values);
    let (got, rest) = decompress_n(&buf, 4).unwrap();
    assert_eq!(got, values.to_vec());
    assert!(rest.is_empty());

    let mut with_extra = buf.clone();
    with_extra.push(0x05);
    let (got2, rest2) = decompress_n(&with_extra, 4).unwrap();
    assert_eq!(got2, values.to_vec());
    assert_eq!(rest2, &[0x05]);
}

#[test]
fn fixed_count_fails_when_short() {
    let buf = compress_list(&[1u64, 2]);
    assert_eq!(decompress_n(&buf, 3), Err(DecodeError::TruncatedInput));
}

#[test]
fn non_canonical_padding_still_decodes() {
    // zero written with a superfluous continuation byte
    let (d, rest) = decompress(&[0x80, 0x00]).unwrap();
    assert_eq!(d, 0);
    assert!(rest.is_empty());
}

#[test]
fn overlong_high_bits_are_dropped() {
    // a payload bit at position 64 does not fit the accumulator
    let buf = [0x80, 0x80, 0x80, 0x80, 0x80, 0x80, 0x80, 0x80, 0x80, 0x02];
    let (d, rest) = decompress(&buf).unwrap();
    assert_eq!(d, 0);
    assert!(rest.is_empty());
}
