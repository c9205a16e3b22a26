use xrce_client_rs::error::Error;
use xrce_client_rs::micro_cdr::{utf8_char_width, Decoder, Encoder};
use xrce_client_rs::Endianness;

const ORDERS: [Endianness; 2] = [Endianness::LittleEndianness, Endianness::BigEndianness];
const OFFSETS: [usize; 5] = [0, 1, 3, 5, 7];

fn encoder_at(buf: &mut [u8], order: Endianness, offset: usize) -> Encoder<'_> {
    let mut writer = Encoder::new_with_endianness(buf, order);
    for _ in 0..offset {
        writer.serialize_u8(0xEE).unwrap();
    }
    writer
}

fn decoder_at(buf: &[u8], order: Endianness, offset: usize) -> Decoder<'_> {
    let mut reader = Decoder::new_with_endianness(buf, order);
    for _ in 0..offset {
        assert_eq!(reader.deserialize_u8(), Ok(0xEE));
    }
    reader
}

#[test]
fn unsigned_values_round_trip_at_every_offset() {
    for order in ORDERS {
        for offset in OFFSETS {
            let mut buf = [0x55u8; 64];
            let mut writer = encoder_at(&mut buf, order, offset);
            writer.serialize_u8(0xAB).unwrap();
            writer.serialize_u16(0xBEEF).unwrap();
            writer.serialize_u32(0xDEAD_BEEF).unwrap();
            writer.serialize_u64(0x0123_4567_89AB_CDEF).unwrap();
            let written = writer.finalize();

            let mut reader = decoder_at(&buf, order, offset);
            assert_eq!(reader.deserialize_u8(), Ok(0xAB));
            assert_eq!(reader.deserialize_u16(), Ok(0xBEEF));
            assert_eq!(reader.deserialize_u32(), Ok(0xDEAD_BEEF));
            assert_eq!(reader.deserialize_u64(), Ok(0x0123_4567_89AB_CDEF));
            assert_eq!(reader.finalize(), written);
        }
    }
}

#[test]
fn signed_values_round_trip_at_every_offset() {
    for order in ORDERS {
        for offset in OFFSETS {
            for (a, b, c, d) in [
                (i8::MIN, i16::MIN, i32::MIN, i64::MIN),
                (-1, -1, -1, -1),
                (0, 0, 0, 0),
                (i8::MAX, i16::MAX, i32::MAX, i64::MAX),
                (-77, -32700, -2147483600, -9223372036800),
            ] {
                let mut buf = [0u8; 64];
                let mut writer = encoder_at(&mut buf, order, offset);
                writer.serialize_i8(a).unwrap();
                writer.serialize_i16(b).unwrap();
                writer.serialize_i32(c).unwrap();
                writer.serialize_i64(d).unwrap();

                let mut reader = decoder_at(&buf, order, offset);
                assert_eq!(reader.deserialize_i8(), Ok(a));
                assert_eq!(reader.deserialize_i16(), Ok(b));
                assert_eq!(reader.deserialize_i32(), Ok(c));
                assert_eq!(reader.deserialize_i64(), Ok(d));
            }
        }
    }
}

#[test]
fn booleans_and_floats_round_trip_at_every_offset() {
    for order in ORDERS {
        for offset in OFFSETS {
            let mut buf = [0u8; 64];
            let mut writer = encoder_at(&mut buf, order, offset);
            writer.serialize_bool(true).unwrap();
            writer.serialize_bool(false).unwrap();
            writer.serialize_u32((-1.5f32).to_bits()).unwrap();
            writer.serialize_u64(6.02214076e23f64.to_bits()).unwrap();

            let mut reader = decoder_at(&buf, order, offset);
            assert_eq!(reader.deserialize_bool(), Ok(true));
            assert_eq!(reader.deserialize_bool(), Ok(false));
            assert_eq!(f32::from_bits(reader.deserialize_u32().unwrap()), -1.5f32);
            assert_eq!(f64::from_bits(reader.deserialize_u64().unwrap()), 6.02214076e23f64);
        }
    }
}

#[test]
fn a_double_after_one_byte_ends_at_sixteen() {
    let mut buf = [0xFFu8; 32];
    let mut writer = Encoder::new(&mut buf);
    writer.serialize_u8(9).unwrap();
    assert_eq!(writer.offset, 1);
    writer.serialize_u64(1.0f64.to_bits()).unwrap();
    assert_eq!(writer.offset, 16);
    assert_eq!(writer.finalize(), 16);
    assert_eq!(buf[0], 9);
    assert_eq!(buf[1..8], [0u8; 7]);
    assert_eq!(buf[8..16], 1.0f64.to_le_bytes());
    assert_eq!(buf[16], 0xFF);
}

#[test]
fn padding_is_filled_with_zeros() {
    let mut buf = [0xFFu8; 8];
    let mut writer = Encoder::new(&mut buf);
    writer.serialize_bool(true).unwrap();
    writer.serialize_u32(0x0403_0201).unwrap();
    assert_eq!(buf, [1, 0, 0, 0, 1, 2, 3, 4]);
}

#[test]
fn a_value_that_does_not_fit_leaves_the_encoder_as_it_was() {
    let mut buf = [0xFFu8; 6];
    let mut writer = Encoder::new(&mut buf);
    writer.serialize_u8(7).unwrap();
    assert_eq!(writer.serialize_u64(1), Err(Error::BufferNotEnough));
    assert_eq!(writer.offset, 1);
    assert_eq!(writer.serialize_u32(1), Err(Error::BufferNotEnough));
    assert_eq!(writer.offset, 1);
    assert_eq!(writer.serialize_str("abc"), Err(Error::BufferNotEnough));
    assert_eq!(writer.offset, 1);
    assert_eq!(writer.serialize_bytes(&[1, 2]), Err(Error::BufferNotEnough));
    assert_eq!(writer.offset, 1);
    writer.serialize_u16(0x0102).unwrap();
    assert_eq!(writer.offset, 4);
    assert_eq!(writer.set_pos_of::<u64>(), Err(Error::BufferNotEnough));
    assert_eq!(writer.offset, 4);
    assert_eq!(writer.check_avaliable(2), Ok(6));
    assert_eq!(writer.check_avaliable(3), Err(Error::BufferNotEnough));
    assert_eq!(writer.finalize(), 4);
    assert_eq!(buf, [7, 0, 2, 1, 0xFF, 0xFF]);
}

#[test]
fn a_value_that_is_cut_short_leaves_the_decoder_as_it_was() {
    let buf = [1u8, 2, 3, 4, 5, 6];
    let mut reader = Decoder::new(&buf);
    assert_eq!(reader.deserialize_u8(), Ok(1));
    assert_eq!(reader.deserialize_u64(), Err(Error::BufferNotEnough));
    assert_eq!(reader.deserialize_u32(), Err(Error::BufferNotEnough));
    assert_eq!(reader.check_avaliable(5), Ok(6));
    assert_eq!(reader.check_avaliable(6), Err(Error::BufferNotEnough));
    assert_eq!(reader.set_pos_of::<u64>(), Err(Error::BufferNotEnough));
    assert_eq!(reader.deserialize_u16(), Ok(0x0403));
    assert_eq!(reader.set_pos_of::<u32>(), Ok(()));
    assert_eq!(reader.deserialize_u16(), Ok(0x0605));
    assert_eq!(reader.deserialize_u8(), Err(Error::BufferNotEnough));
    assert_eq!(reader.finalize(), 6);
}

#[test]
fn strings_round_trip() {
    let long = "0123456789abcdef0123456789abcdef0123456789abcdef0123456789abcdef";
    assert_eq!(long.len(), 64);
    for order in ORDERS {
        for offset in OFFSETS {
            for text in ["", "a", "uxr_sm", "hello, world", long] {
                let mut buf = [0xFFu8; 96];
                let mut writer = encoder_at(&mut buf, order, offset);
                writer.serialize_str(text).unwrap();
                let written = writer.finalize();
                let start = (offset + 3) / 4 * 4;
                assert_eq!(written, start + 4 + text.len() + 1);
                assert_eq!(buf[written - 1], 0);

                let mut reader = decoder_at(&buf, order, offset);
                assert_eq!(reader.read_str(), Ok(text));
                assert_eq!(reader.finalize(), written);
            }
        }
    }
}

#[test]
fn a_string_is_its_length_its_bytes_and_a_zero() {
    let mut buf = [0xFFu8; 12];
    let mut writer = Encoder::new(&mut buf);
    writer.serialize_str("XRCE").unwrap();
    assert_eq!(writer.finalize(), 9);
    assert_eq!(buf[..9], [5, 0, 0, 0, b'X', b'R', b'C', b'E', 0]);

    let mut writer = Encoder::new_with_endianness(&mut buf, Endianness::BigEndianness);
    writer.serialize_str("XRCE").unwrap();
    assert_eq!(buf[..9], [0, 0, 0, 5, b'X', b'R', b'C', b'E', 0]);
}

#[test]
fn a_string_that_is_not_ascii_is_refused() {
    let mut buf = [0u8; 32];
    let mut writer = Encoder::new(&mut buf);
    writer.serialize_u8(1).unwrap();
    assert_eq!(writer.serialize_str("caf\u{e9}"), Err(Error::InvalidString));
    assert_eq!(writer.serialize_str("\u{80}"), Err(Error::InvalidString));
    assert_eq!(writer.offset, 1);
    assert_eq!(writer.serialize_char('\u{e9}'), Err(Error::InvalidChar('\u{e9}')));
    assert_eq!(writer.offset, 1);
    writer.serialize_char('\u{7f}').unwrap();
    assert_eq!(writer.offset, 2);
    assert_eq!(buf[..2], [1, 0x7F]);
}

#[test]
fn bytes_round_trip() {
    for order in ORDERS {
        for offset in OFFSETS {
            let data = [0x7Eu8, 0x00, 0xFF, 0x7D, 0x80];
            let mut buf = [0u8; 32];
            let mut writer = encoder_at(&mut buf, order, offset);
            writer.serialize_bytes(&data).unwrap();
            writer.serialize_bytes(&[]).unwrap();
            let written = writer.finalize();

            let mut reader = decoder_at(&buf, order, offset);
            assert_eq!(reader.read_bytes(), Ok(&data[..]));
            assert_eq!(reader.read_bytes(), Ok(&[][..]));
            assert_eq!(reader.finalize(), written);
        }
    }
}

#[test]
fn bytes_are_their_length_and_the_bytes() {
    let mut buf = [0xFFu8; 8];
    let mut writer = Encoder::new(&mut buf);
    writer.serialize_bytes(&[9, 8, 7]).unwrap();
    assert_eq!(writer.finalize(), 7);
    assert_eq!(buf, [3, 0, 0, 0, 9, 8, 7, 0xFF]);
}

#[test]
fn sequences_and_variants_start_with_a_number() {
    let mut buf = [0u8; 16];
    let mut writer = Encoder::new(&mut buf);
    assert_eq!(writer.serialize_seq(None), Err(Error::SequenceMustHaveLength));
    assert_eq!(writer.offset, 0);
    writer.serialize_seq(Some(3)).unwrap();
    writer.serialize_unit_variant(0x0102_0304).unwrap();
    writer.write_usize_as_u32(0xFFFF_FFFF).unwrap();
    assert_eq!(writer.finalize(), 12);
    assert_eq!(buf[..12], [3, 0, 0, 0, 4, 3, 2, 1, 0xFF, 0xFF, 0xFF, 0xFF]);

    let mut reader = Decoder::new(&buf);
    assert_eq!(reader.deserialize_seq(), Ok(3));
    assert_eq!(reader.deserialize_u32(), Ok(0x0102_0304));
}

#[test]
fn a_length_beyond_32_bits_is_out_of_range() {
    if usize::BITS > 32 {
        let mut buf = [0u8; 16];
        let mut writer = Encoder::new(&mut buf);
        let too_long = (u32::MAX as u64 + 1) as usize;
        assert_eq!(writer.write_usize_as_u32(too_long), Err(Error::NumberOutOfRange));
        assert_eq!(writer.serialize_seq(Some(too_long)), Err(Error::NumberOutOfRange));
        assert_eq!(writer.offset, 0);
    }
}

#[test]
fn a_boolean_is_zero_or_one() {
    let buf = [0u8, 1, 2, 1];
    let mut reader = Decoder::new(&buf);
    assert_eq!(reader.deserialize_bool(), Ok(false));
    assert_eq!(reader.deserialize_bool(), Ok(true));
    assert_eq!(reader.deserialize_bool(), Err(Error::InvalidBoolEncoding(2)));
    assert_eq!(reader.deserialize_bool(), Ok(true));
    assert_eq!(reader.deserialize_bool(), Err(Error::BufferNotEnough));
}

#[test]
fn a_character_is_ascii() {
    let buf = [b'Z', 0xC3, 0xA9];
    let mut reader = Decoder::new(&buf);
    assert_eq!(reader.deserialize_char(), Ok('Z'));
    assert_eq!(reader.deserialize_char(), Err(Error::InvalidCharEncoding));
    assert_eq!(reader.deserialize_char(), Err(Error::InvalidCharEncoding));
    assert_eq!(reader.deserialize_u8(), Ok(0xC3));
    assert_eq!(reader.finalize(), 2);
}

#[test]
fn strings_that_are_no_strings_are_reported() {
    let no_terminator = [0u8, 0, 0, 0, 9];
    let mut reader = Decoder::new(&no_terminator);
    assert_eq!(reader.read_str(), Err(Error::InvalidString));
    assert_eq!(reader.deserialize_u8(), Ok(9));

    let not_utf8 = [3u8, 0, 0, 0, 0xC3, 0x28, 0, 9];
    let mut reader = Decoder::new(&not_utf8);
    assert_eq!(reader.read_str(), Err(Error::InvalidUtf8Encoding));
    assert_eq!(reader.deserialize_u8(), Ok(9));

    let utf8 = [3u8, 0, 0, 0, 0xC3, 0xA9, 0];
    let mut reader = Decoder::new(&utf8);
    assert_eq!(reader.read_str(), Ok("\u{e9}"));

    let cut_short = [4u8, 0, 0, 0, b'a', b'b', 0];
    let mut reader = Decoder::new(&cut_short);
    assert_eq!(reader.read_str(), Err(Error::BufferNotEnough));
    assert_eq!(reader.read_bytes(), Err(Error::BufferNotEnough));
    assert_eq!(reader.deserialize_u32(), Ok(4));
}

#[test]
fn widths_of_utf8_encodings() {
    assert_eq!(utf8_char_width(0x00), 1);
    assert_eq!(utf8_char_width(0x7F), 1);
    assert_eq!(utf8_char_width(0x80), 0);
    assert_eq!(utf8_char_width(0xC1), 0);
    assert_eq!(utf8_char_width(0xC2), 2);
    assert_eq!(utf8_char_width(0xDF), 2);
    assert_eq!(utf8_char_width(0xE0), 3);
    assert_eq!(utf8_char_width(0xEF), 3);
    assert_eq!(utf8_char_width(0xF0), 4);
    assert_eq!(utf8_char_width(0xF4), 4);
    assert_eq!(utf8_char_width(0xF5), 0);
    assert_eq!(utf8_char_width(0xFF), 0);
}
