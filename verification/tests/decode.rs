use leb128_decode::{vsN, vuN, ByteSource, DecodeError, ReadLEB};

fn b(bytes: &[u8]) -> ByteSource {
    ByteSource::new(bytes.to_vec())
}

#[test]
fn test_unsigned_decode() {
    assert!(b(&[0]).read_varuint(1).unwrap() == 0);

    assert!(b(&[1]).read_varuint(1).unwrap() == 1);
    assert!(b(&[42]).read_varuint(7).unwrap() == 42);
    assert!(b(&[127]).read_varuint(7).unwrap() == 127);
    assert!(b(&[128, 1]).read_varuint(32).unwrap() == 128);
    assert!(b(&[255, 1]).read_varuint(32).unwrap() == 255);

    assert!(b(&[0]).read_varuint(32).unwrap() == 0);
    assert!(b(&[42]).read_varuint(32).unwrap() == 42);
    assert!(b(&[127]).read_varuint(32).unwrap() == 127);
    assert!(b(&[128, 1]).read_varuint(32).unwrap() == 128);
    assert!(b(&[255, 255, 3]).read_varuint(32).unwrap() == 0xffff);
    assert!(b(&[0xE5, 0x8E, 0x26]).read_varuint(32).unwrap() == 624485);
    assert!(b(&[0xff, 0xff, 0xff, 0xff, 0x0f]).read_varuint(32).unwrap() == 0xffff_ffff);
    assert!(
        b(&[0xff, 0xff, 0xff, 0xff, 0xff, 0xff, 0xff, 0xff, 0xff, 0x01])
            .read_varuint(64)
            .unwrap()
            == 0xffff_ffff_ffff_ffff
    );
}

#[test]
fn test_signed_decode() {
    assert!(b(&[0]).read_varint(1).unwrap() == 0);
    assert!(b(&[1]).read_varint(1).unwrap() == 1);
    assert!(b(&[2]).read_varint(7).unwrap() == 2);
    assert!(b(&[0x7e]).read_varint(7).unwrap() == -2);
    assert!(b(&[0xff, 0]).read_varint(16).unwrap() == 127);
    assert!(b(&[0x81, 0x7f]).read_varint(16).unwrap() == -127);
    assert!(b(&[0x80, 0x7f]).read_varint(16).unwrap() == -128);
}

#[test]
#[should_panic]
fn test_decode_overflow_u7() {
    b(&[128]).read_varuint(7).unwrap();
}

#[test]
#[should_panic]
fn test_decode_overflow_i8() {
    b(&[128, 2]).read_varint(8).unwrap();
}

#[test]
#[should_panic]
fn test_decode_overflow_i16() {
    b(&[128, 128, 4]).read_varint(16).unwrap();
}

#[test]
fn test_decode_i32() {
    assert!(b(&[0x80, 0x80, 0x80, 0x80, 0x78]).read_varint(32).unwrap() == -2147483648);
}

#[test]
#[should_panic]
fn test_decode_overflow_i64() {
    b(&[128, 128, 128, 128, 128, 128, 128, 128, 128, 2]).read_varint(64).unwrap();
}

#[test]
fn unsigned_one_bit_boundary() {
    assert_eq!(vuN(&mut b(&[0x00]), 1), Ok(0));
    assert_eq!(vuN(&mut b(&[0x01]), 1), Ok(1));
    assert_eq!(vuN(&mut b(&[0x02]), 1), Err(DecodeError::OverflowOrInvalidEncoding));
}

#[test]
fn unsigned_multi_byte() {
    assert_eq!(vuN(&mut b(&[0xE5, 0x8E, 0x26]), 32), Ok(624485));
    assert_eq!(vuN(&mut b(&[0xFF, 0xFF, 0xFF, 0xFF, 0x0F]), 32), Ok(0xFFFF_FFFF));
}

#[test]
fn unsigned_full_width() {
    let bytes = [0xFF, 0xFF, 0xFF, 0xFF, 0xFF, 0xFF, 0xFF, 0xFF, 0xFF, 0x01];
    assert_eq!(vuN(&mut b(&bytes), 64), Ok(0xFFFF_FFFF_FFFF_FFFF));
}

#[test]
fn signed_negative_single_byte() {
    assert_eq!(vsN(&mut b(&[0x7E]), 7), Ok(-2));
}

#[test]
fn signed_negative_multi_byte() {
    assert_eq!(vsN(&mut b(&[0x80, 0x7F]), 16), Ok(-128));
    assert_eq!(vsN(&mut b(&[0x80, 0x80, 0x80, 0x80, 0x78]), 32), Ok(-2147483648));
}

#[test]
fn signed_positive_with_extra_byte() {
    assert_eq!(vsN(&mut b(&[0xFF, 0x00]), 16), Ok(127));
}

#[test]
fn empty_source_is_end_of_stream() {
    assert_eq!(vuN(&mut b(&[]), 1), Err(DecodeError::EndOfStream));
    assert_eq!(vsN(&mut b(&[]), 1), Err(DecodeError::EndOfStream));
    assert_eq!(b(&[]).read_varuint(64), Err(DecodeError::EndOfStream));
    assert_eq!(b(&[]).read_varint(64), Err(DecodeError::EndOfStream));
}

#[test]
fn group_cut_short_is_end_of_stream() {
    assert_eq!(vuN(&mut b(&[0x80]), 32), Err(DecodeError::EndOfStream));
    assert_eq!(vuN(&mut b(&[0xFF, 0xFF, 0xFF]), 32), Err(DecodeError::EndOfStream));
    assert_eq!(vsN(&mut b(&[0x80]), 32), Err(DecodeError::EndOfStream));
    assert_eq!(vsN(&mut b(&[0xFF, 0xFF, 0xFF]), 32), Err(DecodeError::EndOfStream));
}

#[test]
fn failure_repeats_on_a_fresh_copy() {
    let inputs: [(&[u8], i64); 5] =
        [(&[], 8), (&[0x80], 8), (&[0x02], 1), (&[0x80, 0x02], 8), (&[0x80, 0x80, 0x80], 16)];
    for (bytes, max_bits) in inputs {
        let mut first = b(bytes);
        let mut second = b(bytes);
        let unsigned = vuN(&mut first, max_bits);
        assert!(unsigned.is_err());
        assert_eq!(vuN(&mut second, max_bits), unsigned);
        assert_eq!(first.next_byte(), second.next_byte());

        let mut first = b(bytes);
        let mut second = b(bytes);
        let signed = vsN(&mut first, max_bits);
        assert!(signed.is_err());
        assert_eq!(vsN(&mut second, max_bits), signed);
        assert_eq!(first.next_byte(), second.next_byte());
    }
}

#[test]
fn width_comes_before_the_continuation_bit() {
    assert_eq!(vuN(&mut b(&[0x82]), 1), Err(DecodeError::OverflowOrInvalidEncoding));
    assert_eq!(vsN(&mut b(&[0x82]), 1), Err(DecodeError::OverflowOrInvalidEncoding));
}

#[test]
fn group_longer_than_the_width_is_rejected_without_reading_on() {
    let mut source = b(&[0x80, 0x55]);
    assert_eq!(vuN(&mut source, 7), Err(DecodeError::OverflowOrInvalidEncoding));
    assert_eq!(source.next_byte(), Some(0x55));

    let mut source = b(&[0x80, 0x80, 0x55]);
    assert_eq!(vsN(&mut source, 14), Err(DecodeError::OverflowOrInvalidEncoding));
    assert_eq!(source.next_byte(), Some(0x55));

    let mut source = b(&[0x80, 0x80, 0x00]);
    assert_eq!(vuN(&mut source, 8), Err(DecodeError::OverflowOrInvalidEncoding));
    assert_eq!(source.next_byte(), Some(0x00));
}

#[test]
fn decode_takes_the_bytes_of_one_integer() {
    let mut source = b(&[0xE5, 0x8E, 0x26, 0x7E, 0x01]);
    assert_eq!(vuN(&mut source, 32), Ok(624485));
    assert_eq!(vsN(&mut source, 7), Ok(-2));
    assert_eq!(source.next_byte(), Some(0x01));
    assert_eq!(source.next_byte(), None);
    assert_eq!(source.next_byte(), None);
}

#[test]
fn failed_decode_keeps_what_it_read() {
    let mut source = b(&[0x80, 0x80, 0x04, 0x09]);
    assert_eq!(vuN(&mut source, 16), Err(DecodeError::OverflowOrInvalidEncoding));
    assert_eq!(source.next_byte(), Some(0x09));

    let mut source = b(&[0x80, 0x80]);
    assert_eq!(vsN(&mut source, 32), Err(DecodeError::EndOfStream));
    assert_eq!(source.next_byte(), None);
}

#[test]
fn unsigned_width_boundaries() {
    // one bit
    assert_eq!(vuN(&mut b(&[0x01]), 1), Ok(1));
    assert_eq!(vuN(&mut b(&[0x02]), 1), Err(DecodeError::OverflowOrInvalidEncoding));
    // seven bits
    assert_eq!(vuN(&mut b(&[0x7F]), 7), Ok(127));
    assert_eq!(vuN(&mut b(&[0x80, 0x01]), 7), Err(DecodeError::OverflowOrInvalidEncoding));
    // eight bits
    assert_eq!(vuN(&mut b(&[0xFF, 0x01]), 8), Ok(255));
    assert_eq!(vuN(&mut b(&[0x80, 0x02]), 8), Err(DecodeError::OverflowOrInvalidEncoding));
    // sixteen bits
    assert_eq!(vuN(&mut b(&[0xFF, 0xFF, 0x03]), 16), Ok(0xFFFF));
    assert_eq!(vuN(&mut b(&[0x80, 0x80, 0x04]), 16), Err(DecodeError::OverflowOrInvalidEncoding));
    // thirty-two bits
    assert_eq!(vuN(&mut b(&[0x80, 0x80, 0x80, 0x80, 0x07]), 32), Ok(7 << 28));
    assert_eq!(vuN(&mut b(&[0xFF, 0xFF, 0xFF, 0xFF, 0x0F]), 32), Ok(0xFFFF_FFFF));
    assert_eq!(
        vuN(&mut b(&[0x80, 0x80, 0x80, 0x80, 0x10]), 32),
        Err(DecodeError::OverflowOrInvalidEncoding)
    );
    // sixty-four bits
    assert_eq!(
        vuN(&mut b(&[0x80, 0x80, 0x80, 0x80, 0x80, 0x80, 0x80, 0x80, 0x80, 0x01]), 64),
        Ok(1 << 63)
    );
    assert_eq!(
        vuN(&mut b(&[128, 128, 128, 128, 128, 128, 128, 128, 128, 2]), 64),
        Err(DecodeError::OverflowOrInvalidEncoding)
    );
    assert_eq!(
        vuN(&mut b(&[0xFF, 0xFF, 0xFF, 0xFF, 0xFF, 0xFF, 0xFF, 0xFF, 0xFF, 0x81, 0x00]), 64),
        Err(DecodeError::OverflowOrInvalidEncoding)
    );
}

#[test]
fn signed_width_boundaries() {
    // one bit: the bits from position one on repeat the sign
    assert_eq!(vsN(&mut b(&[0x00]), 1), Ok(0));
    assert_eq!(vsN(&mut b(&[0x01]), 1), Ok(1));
    assert_eq!(vsN(&mut b(&[0x7F]), 1), Ok(-1));
    assert_eq!(vsN(&mut b(&[0x7E]), 1), Ok(-2));
    assert_eq!(vsN(&mut b(&[0x02]), 1), Err(DecodeError::OverflowOrInvalidEncoding));
    assert_eq!(vsN(&mut b(&[0x7D]), 1), Err(DecodeError::OverflowOrInvalidEncoding));
    // seven bits
    assert_eq!(vsN(&mut b(&[0x3F]), 7), Ok(63));
    assert_eq!(vsN(&mut b(&[0x40]), 7), Ok(-64));
    assert_eq!(vsN(&mut b(&[0x80, 0x01]), 7), Err(DecodeError::OverflowOrInvalidEncoding));
    // eight bits
    assert_eq!(vsN(&mut b(&[0xFF, 0x00]), 8), Ok(127));
    assert_eq!(vsN(&mut b(&[0x80, 0x7F]), 8), Ok(-128));
    assert_eq!(vsN(&mut b(&[0x80, 0x02]), 8), Err(DecodeError::OverflowOrInvalidEncoding));
    assert_eq!(vsN(&mut b(&[0x80, 0x7D]), 8), Err(DecodeError::OverflowOrInvalidEncoding));
    // sixteen bits
    assert_eq!(vsN(&mut b(&[0xFF, 0xFF, 0x01]), 16), Ok(32767));
    assert_eq!(vsN(&mut b(&[0x80, 0x80, 0x7E]), 16), Ok(-32768));
    assert_eq!(vsN(&mut b(&[0x80, 0x80, 0x04]), 16), Err(DecodeError::OverflowOrInvalidEncoding));
    // thirty-two bits
    assert_eq!(vsN(&mut b(&[0xFF, 0xFF, 0xFF, 0xFF, 0x07]), 32), Ok(2147483647));
    assert_eq!(vsN(&mut b(&[0x80, 0x80, 0x80, 0x80, 0x78]), 32), Ok(-2147483648));
    assert_eq!(
        vsN(&mut b(&[0x80, 0x80, 0x80, 0x80, 0x10]), 32),
        Err(DecodeError::OverflowOrInvalidEncoding)
    );
    assert_eq!(
        vsN(&mut b(&[0x80, 0x80, 0x80, 0x80, 0x68]), 32),
        Err(DecodeError::OverflowOrInvalidEncoding)
    );
    // sixty-four bits
    assert_eq!(
        vsN(&mut b(&[0xFF, 0xFF, 0xFF, 0xFF, 0xFF, 0xFF, 0xFF, 0xFF, 0xFF, 0x00]), 64),
        Ok(i64::MAX)
    );
    assert_eq!(
        vsN(&mut b(&[0x80, 0x80, 0x80, 0x80, 0x80, 0x80, 0x80, 0x80, 0x80, 0x7F]), 64),
        Ok(i64::MIN)
    );
    assert_eq!(
        vsN(&mut b(&[0x80, 0x80, 0x80, 0x80, 0x80, 0x80, 0x80, 0x80, 0x80, 0x02]), 64),
        Err(DecodeError::OverflowOrInvalidEncoding)
    );
}

#[test]
fn signed_sixty_four_bits_keeps_the_bit_pattern() {
    // bit 63 comes from a value bit: the pattern is read as two's complement
    assert_eq!(
        vsN(&mut b(&[0x80, 0x80, 0x80, 0x80, 0x80, 0x80, 0x80, 0x80, 0x80, 0x01]), 64),
        Ok(i64::MIN)
    );
    assert_eq!(
        vsN(&mut b(&[0x85, 0x80, 0x80, 0x80, 0x80, 0x80, 0x80, 0x80, 0x80, 0x7E]), 64),
        Ok(5)
    );
}

#[test]
fn width_beyond_sixty_four_bits_keeps_the_low_bits() {
    let bytes = [0xFF, 0xFF, 0xFF, 0xFF, 0xFF, 0xFF, 0xFF, 0xFF, 0xFF, 0x7F];
    assert_eq!(vuN(&mut b(&bytes), 70), Ok(u64::MAX));
    let bytes = [0x81, 0x80, 0x80, 0x80, 0x80, 0x80, 0x80, 0x80, 0x80, 0x80, 0x01];
    assert_eq!(vuN(&mut b(&bytes), 100), Ok(1));
    assert_eq!(vsN(&mut b(&bytes), 100), Ok(1));
    let bytes = [0x81, 0x80, 0x80, 0x80, 0x80, 0x80, 0x80, 0x80, 0x80, 0x80, 0x7F];
    assert_eq!(vsN(&mut b(&bytes), 100), Ok(1));
    let bytes = [0xFF, 0xFF, 0xFF, 0xFF, 0xFF, 0xFF, 0xFF, 0xFF, 0xFF, 0xFF, 0x7F];
    assert_eq!(vsN(&mut b(&bytes), 100), Ok(-1));
}

#[test]
fn methods_take_the_width_as_a_small_integer() {
    let mut source = b(&[0xE5, 0x8E, 0x26, 0x80, 0x7F, 0x33]);
    assert_eq!(source.read_varuint(32), Ok(624485));
    assert_eq!(source.read_varint(16), Ok(-128));
    assert_eq!(source.read_varuint(127), Ok(0x33));
    assert_eq!(source.read_varint(127), Err(DecodeError::EndOfStream));
}
